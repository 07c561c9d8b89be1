//! Whole numbers as decimal text.

use crate::text::chars_of;
use vstd::prelude::*;
use vstd::string::*;

verus! {

/// Whether `c` is a decimal digit.
pub open spec fn is_digit(c: char) -> bool {
    '0' <= c <= '9'
}

/// The value of a decimal digit.
pub open spec fn digit_value(c: char) -> int {
    c as int - '0' as int
}

/// Whether a text is made of decimal digits alone.
pub open spec fn all_digits(s: Seq<char>) -> bool {
    forall|i: int| 0 <= i < s.len() ==> is_digit(#[trigger] s[i])
}

/// The number that decimal digits write.
pub open spec fn digits_value(s: Seq<char>) -> int
    decreases s.len(),
{
    if s.len() == 0 {
        0
    } else {
        digits_value(s.drop_last()) * 10 + digit_value(s.last())
    }
}

/// The digits of a number without sign: one or more, perhaps behind a `+`.
pub open spec fn unsigned_digits(s: Seq<char>) -> Seq<char> {
    if s.len() > 0 && s[0] == '+' {
        s.skip(1)
    } else {
        s
    }
}

/// The number without sign that a text writes, if it writes one.
pub open spec fn unsigned_value(s: Seq<char>) -> Option<int> {
    if unsigned_digits(s).len() > 0 && all_digits(unsigned_digits(s)) {
        Some(digits_value(unsigned_digits(s)))
    } else {
        None
    }
}

/// The number that a text writes, up to `max`.
pub open spec fn bounded_value(s: Seq<char>, max: int) -> Option<int> {
    match unsigned_value(s) {
        Some(n) => if n <= max {
            Some(n)
        } else {
            None
        },
        None => None,
    }
}

/// The value of a decimal digit.
pub fn digit(c: char) -> (r: Option<u8>)
    ensures
        match r {
            Some(d) => is_digit(c) && d == digit_value(c) && d <= 9,
            None => !is_digit(c),
        },
{
    if '0' <= c && c <= '9' {
        Some((c as u32 - '0' as u32) as u8)
    } else {
        None
    }
}

proof fn lemma_digits_value_nonneg(s: Seq<char>)
    requires
        all_digits(s),
    ensures
        digits_value(s) >= 0,
    decreases s.len(),
{
    if s.len() > 0 {
        lemma_digits_value_nonneg(s.drop_last());
    }
}

proof fn lemma_longer_is_larger(s: Seq<char>, n: int)
    requires
        all_digits(s),
        0 <= n <= s.len(),
    ensures
        digits_value(s.take(n)) <= digits_value(s),
    decreases s.len(),
{
    if n < s.len() {
        lemma_longer_is_larger(s.drop_last(), n);
        assert(s.drop_last().take(n) =~= s.take(n));
        lemma_digits_value_nonneg(s.drop_last());
    } else {
        assert(s.take(n) =~= s);
    }
}

/// The number that a text writes, where a `u64` holds it.
pub fn parse_u64(s: &str) -> (r: Option<u64>)
    ensures
        match r {
            Some(n) => bounded_value(s@, u64::MAX as int) == Some(n as int),
            None => bounded_value(s@, u64::MAX as int) is None,
        },
{
    let cs = chars_of(s);
    let n: usize = cs.len();
    let start: usize = if n > 0 && cs[0] == '+' {
        1
    } else {
        0
    };
    let ghost ds = unsigned_digits(s@);
    assert(ds =~= s@.skip(start as int));
    if start == n {
        return None;
    }
    let mut acc: u64 = 0;
    let mut i: usize = start;
    assert(ds.take(0) =~= seq![]);
    while i < n
        invariant
            cs@ == s@,
            n == cs@.len(),
            start <= i <= n,
            start < n,
            ds == unsigned_digits(s@),
            ds == s@.skip(start as int),
            all_digits(ds.take(i - start)),
            acc == digits_value(ds.take(i - start)),
        decreases n - i,
    {
        let ghost k = i - start;
        assert(ds[k] == cs@[i as int]);
        match digit(cs[i]) {
            None => {
                assert(!is_digit(ds[k]));
                return None;
            },
            Some(d) => {
                proof {
                    assert(ds.take(k + 1).drop_last() =~= ds.take(k));
                    assert forall|j: int| 0 <= j < k + 1 implies is_digit(
                        #[trigger] ds.take(k + 1)[j],
                    ) by {
                        if j < k {
                            assert(ds.take(k)[j] == ds[j]);
                        }
                    }
                }
                if acc > (u64::MAX - d as u64) / 10 {
                    proof {
                        assert(digits_value(ds.take(k + 1)) == acc * 10 + d);
                        assert(acc * 10 + d > u64::MAX);
                        if all_digits(ds) {
                            lemma_longer_is_larger(ds, k + 1);
                        }
                    }
                    return None;
                }
                acc = acc * 10 + d as u64;
            },
        }
        i = i + 1;
    }
    assert(ds.take(n - start) =~= ds);
    Some(acc)
}

/// The number that a text writes, where a `u32` holds it.
pub fn parse_u32(s: &str) -> (r: Option<u32>)
    ensures
        match r {
            Some(n) => bounded_value(s@, u32::MAX as int) == Some(n as int),
            None => bounded_value(s@, u32::MAX as int) is None,
        },
{
    match parse_u64(s) {
        Some(n) => if n <= u32::MAX as u64 {
            Some(n as u32)
        } else {
            None
        },
        None => None,
    }
}

/// The digit of a value below ten.
pub open spec fn digit_char(d: int) -> char {
    ('0' as int + d) as char
}

/// A number in decimal digits.
pub open spec fn decimal_text(n: int) -> Seq<char>
    decreases n,
{
    if n < 10 {
        seq![digit_char(n)]
    } else {
        decimal_text(n / 10).push(digit_char(n % 10))
    }
}

/// The digit of a value below ten.
pub fn digit_to_char(d: u8) -> (r: char)
    requires
        d < 10,
    ensures
        r == digit_char(d as int),
{
    (48u8 + d) as char
}

/// A number in decimal digits.
pub fn decimal(n: u128) -> (r: String)
    ensures
        r@ == decimal_text(n as int),
    decreases n,
{
    let mut out = if n < 10 {
        String::new()
    } else {
        decimal(n / 10)
    };
    out.push(digit_to_char((n % 10) as u8));
    assert(n < 10 ==> out@ =~= seq![digit_char(n as int)]);
    out
}

/// The decimal digits of a number write that number.
pub proof fn decimal_reads_back(n: int)
    requires
        n >= 0,
    ensures
        unsigned_value(decimal_text(n)) == Some(n),
{
    lemma_decimal_text(n);
    assert(decimal_text(n)[0] != '+');
}

/// The decimal digits of a number are digits, and their value is the number.
pub proof fn lemma_decimal_text(n: int)
    requires
        n >= 0,
    ensures
        decimal_text(n).len() > 0,
        all_digits(decimal_text(n)),
        digits_value(decimal_text(n)) == n,
    decreases n,
{
    let s = decimal_text(n);
    if n < 10 {
        assert(s.drop_last() =~= seq![]);
        reveal_with_fuel(digits_value, 2);
    } else {
        lemma_decimal_text(n / 10);
        assert(s.drop_last() =~= decimal_text(n / 10));
    }
}

} // verus!
