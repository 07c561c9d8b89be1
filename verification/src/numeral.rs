//! Numbers as people write them: with a sign, a fraction, an exponent.

use crate::double::{
    are_digits, decimal_den, decimal_num, differs_from_zero, exp, not_rounded_to_zero,
    scale_decimal, scaled_double, small_products_are_exact, value, BITS_54,
};
use crate::number::{
    decimal_text, digit, digit_value, digits_value, is_digit, lemma_decimal_text,
};
use crate::text::chars_of;
use vstd::prelude::*;
use vstd::string::*;

verus! {

/// What a text says, apart from the sign.
pub enum Numeral {
    /// Not a number.
    Nan,
    /// More than any number.
    Infinite,
    /// What the digits write, times ten to a power.
    Finite(Seq<char>, int),
}

/// The lower case of an ASCII letter; any other character itself.
pub open spec fn lower(c: char) -> char {
    if 'A' <= c <= 'Z' {
        ((c as u32 + 32) as u32) as char
    } else {
        c
    }
}

/// A text in lower case, as far as its letters are ASCII.
pub open spec fn lowered(s: Seq<char>) -> Seq<char> {
    s.map_values(|c: char| lower(c))
}

/// The first position at or after `i` where no digit stands.
pub open spec fn digits_end(s: Seq<char>, i: int) -> int
    decreases s.len() - i,
{
    if 0 <= i < s.len() && is_digit(s[i]) {
        digits_end(s, i + 1)
    } else {
        i
    }
}

/// The exponent that stands at `i`, up to the end; zero where nothing is left.
pub open spec fn exponent_at(s: Seq<char>, i: int) -> Option<int> {
    let signed = i + 1 < s.len() && (s[i + 1] == '+' || s[i + 1] == '-');
    let from = if signed {
        i + 2
    } else {
        i + 1
    };
    if i >= s.len() {
        Some(0)
    } else if s[i] != 'e' && s[i] != 'E' {
        None
    } else if from >= s.len() || digits_end(s, from) != s.len() {
        None
    } else if signed && s[i + 1] == '-' {
        Some(-digits_value(s.subrange(from, s.len() as int)))
    } else {
        Some(digits_value(s.subrange(from, s.len() as int)))
    }
}

/// The number that stands at `i`, up to the end: digits with a point before,
/// between or behind them or none, and perhaps an exponent.
pub open spec fn number_at(s: Seq<char>, i: int) -> Option<Numeral> {
    let a = digits_end(s, i);
    let dotted = a < s.len() && s[a] == '.';
    let b = if dotted {
        digits_end(s, a + 1)
    } else {
        a
    };
    let fraction = if dotted {
        s.subrange(a + 1, b)
    } else {
        seq![]
    };
    let digits = s.subrange(i, a) + fraction;
    match exponent_at(s, b) {
        Some(e) => if digits.len() == 0 {
            None
        } else {
            Some(Numeral::Finite(digits, e - fraction.len()))
        },
        None => None,
    }
}

/// What a text says as a number: whether it has a minus sign, and the rest.
pub open spec fn numeral(s: Seq<char>) -> Option<(bool, Numeral)> {
    let signed = s.len() > 0 && (s[0] == '+' || s[0] == '-');
    let negative = signed && s[0] == '-';
    let i = if signed {
        1int
    } else {
        0int
    };
    let word = lowered(s.skip(i));
    if word == "nan"@ {
        Some((negative, Numeral::Nan))
    } else if word == "inf"@ || word == "infinity"@ {
        Some((negative, Numeral::Infinite))
    } else {
        match number_at(s, i) {
            Some(n) => Some((negative, n)),
            None => None,
        }
    }
}

/// The values of decimal digits.
pub open spec fn digit_values(s: Seq<char>) -> Seq<u8> {
    s.map_values(|c: char| digit_value(c) as u8)
}

/// Whether a number is below zero.
pub open spec fn below_zero(negative: bool, n: Numeral) -> bool {
    negative && match n {
        Numeral::Nan => false,
        Numeral::Infinite => true,
        Numeral::Finite(digits, power) => not_rounded_to_zero(
            decimal_num(digit_values(digits), power),
            decimal_den(power),
        ),
    }
}

/// The whole part of a number without its sign, times `scale` and divided by `div`,
/// in floating-point arithmetic and as far as a `u64` holds it.
pub open spec fn magnitude(n: Numeral, scale: int, div: int) -> int {
    match n {
        Numeral::Nan => 0,
        Numeral::Infinite => u64::MAX as int,
        Numeral::Finite(digits, power) => scaled_double(
            decimal_num(digit_values(digits), power),
            decimal_den(power),
            scale,
            div,
        ),
    }
}

fn to_lower(c: char) -> (r: char)
    ensures
        r == lower(c),
{
    if 'A' <= c && c <= 'Z' {
        (c as u8 + 32) as char
    } else {
        c
    }
}

/// Whether `cs`, from `from` on and in lower case, is `word`.
pub fn word_is(cs: &Vec<char>, from: usize, word: &str) -> (r: bool)
    requires
        from <= cs@.len(),
    ensures
        r == (lowered(cs@.skip(from as int)) == word@),
{
    let ws = chars_of(word);
    let n: usize = cs.len();
    if n - from != ws.len() {
        assert(lowered(cs@.skip(from as int)).len() != word@.len());
        return false;
    }
    let mut i: usize = 0;
    while i < ws.len()
        invariant
            ws@ == word@,
            from + ws@.len() == cs@.len(),
            n == cs@.len(),
            i <= ws@.len(),
            forall|j: int| 0 <= j < i ==> lower(cs@[from + j]) == #[trigger] ws@[j],
        decreases ws@.len() - i,
    {
        if to_lower(cs[from + i]) != ws[i] {
            assert(lowered(cs@.skip(from as int))[i as int] == lower(cs@[from + i]));
            return false;
        }
        i = i + 1;
    }
    assert(lowered(cs@.skip(from as int)) =~= word@);
    true
}

proof fn lemma_digits_end(s: Seq<char>, i: int)
    requires
        0 <= i <= s.len(),
    ensures
        i <= digits_end(s, i) <= s.len(),
        forall|j: int| i <= j < digits_end(s, i) ==> is_digit(#[trigger] s[j]),
    decreases s.len() - i,
{
    if i < s.len() && is_digit(s[i]) {
        lemma_digits_end(s, i + 1);
    }
}

/// The values of digits write the number that the digits do.
pub proof fn lemma_digit_values(s: Seq<char>)
    requires
        forall|j: int| 0 <= j < s.len() ==> is_digit(#[trigger] s[j]),
    ensures
        are_digits(digit_values(s)),
        value(digit_values(s)) == digits_value(s),
    decreases s.len(),
{
    if s.len() > 0 {
        assert(digit_values(s).drop_last() =~= digit_values(s.drop_last()));
        lemma_digit_values(s.drop_last());
        assert(is_digit(s.last()));
    }
}

/// Reads digits into `out`, from `i` on, and says where they end.
fn read_digits(cs: &Vec<char>, from: usize, out: &mut Vec<u8>) -> (r: usize)
    requires
        from <= cs@.len(),
    ensures
        r == digits_end(cs@, from as int),
        from <= r <= cs@.len(),
        final(out)@ == old(out)@ + digit_values(cs@.subrange(from as int, r as int)),
        forall|j: int| from <= j < r ==> is_digit(#[trigger] cs@[j]),
{
    let n: usize = cs.len();
    let mut i: usize = from;
    assert(digit_values(cs@.subrange(from as int, from as int)) =~= seq![]);
    assert(out@ =~= old(out)@ + digit_values(cs@.subrange(from as int, from as int)));
    while i < n
        invariant
            from <= i <= n,
            n == cs@.len(),
            digits_end(cs@, from as int) == digits_end(cs@, i as int),
            out@ == old(out)@ + digit_values(cs@.subrange(from as int, i as int)),
            forall|j: int| from <= j < i ==> is_digit(#[trigger] cs@[j]),
        decreases n - i,
    {
        match digit(cs[i]) {
            Some(d) => {
                out.push(d);
                proof {
                    let a = cs@.subrange(from as int, i as int);
                    let b = cs@.subrange(from as int, i + 1);
                    assert(b =~= a.push(cs@[i as int]));
                    assert(digit_values(b) =~= digit_values(a).push(d));
                    assert(out@ =~= old(out)@ + digit_values(b));
                }
            },
            None => {
                return i;
            },
        }
        i = i + 1;
    }
    i
}

/// Reads an exponent. One that is far out is only known to be so.
fn read_exponent(cs: &Vec<char>, i: usize) -> (r: Option<i128>)
    requires
        i <= cs@.len(),
    ensures
        match r {
            Some(e) => exponent_at(cs@, i as int) is Some && ({
                let exact = exponent_at(cs@, i as int)->0;
                ||| e == exact
                ||| e >= 0x4_0000_0000_0000_0000_0000_0000 && exact
                    >= 0x4_0000_0000_0000_0000_0000_0000
                ||| e <= -0x4_0000_0000_0000_0000_0000_0000 && exact
                    <= -0x4_0000_0000_0000_0000_0000_0000
            }) && -0x100_0000_0000_0000_0000_0000_0000 <= e
                <= 0x100_0000_0000_0000_0000_0000_0000,
            None => exponent_at(cs@, i as int) is None,
        },
{
    let n: usize = cs.len();
    if i >= n {
        return Some(0);
    }
    if cs[i] != 'e' && cs[i] != 'E' {
        return None;
    }
    let signed = i + 1 < n && (cs[i + 1] == '+' || cs[i + 1] == '-');
    let negative = signed && cs[i + 1] == '-';
    let from: usize = if signed {
        i + 2
    } else {
        i + 1
    };
    if from >= n {
        return None;
    }
    let mut acc: i128 = 0;
    let mut j: usize = from;
    assert(cs@.subrange(from as int, from as int) =~= seq![]);
    while j < n
        invariant
            from <= j <= n,
            n == cs@.len(),
            digits_end(cs@, from as int) == digits_end(cs@, j as int),
            0 <= acc <= 0x100_0000_0000_0000_0000_0000_0000,
            ({
                let exact = digits_value(cs@.subrange(from as int, j as int));
                acc == exact || (acc >= 0x4_0000_0000_0000_0000_0000_0000 && exact
                    >= 0x4_0000_0000_0000_0000_0000_0000)
            }),
            i < n,
            cs@[i as int] == 'e' || cs@[i as int] == 'E',
            signed == (i + 1 < n && (cs@[i + 1] == '+' || cs@[i + 1] == '-')),
            from == if signed {
                i + 2
            } else {
                i + 1
            },
            from < n,
        decreases n - j,
    {
        match digit(cs[j]) {
            Some(d) => {
                proof {
                    let a = cs@.subrange(from as int, j as int);
                    let b = cs@.subrange(from as int, j + 1);
                    assert(b.drop_last() =~= a);
                    assert(b.last() == cs@[j as int]);
                }
                if acc < 0x4_0000_0000_0000_0000_0000_0000 {
                    acc = acc * 10 + d as i128;
                }
            },
            None => {
                assert(digits_end(cs@, j as int) == j);
                return None;
            },
        }
        j = j + 1;
    }
    if negative {
        Some(-acc)
    } else {
        Some(acc)
    }
}

/// Reads `text` as a number, multiplies it with `scale` and divides it by `div` in
/// floating-point arithmetic. The result is whether the number is below zero, and
/// the whole part without the sign.
pub fn scale_numeral(text: &str, scale: u64, div: u64) -> (r: Option<(bool, u64)>)
    requires
        1 <= scale <= 1_099_511_627_776,
        1 <= div <= 8,
    ensures
        match r {
            Some((below, whole)) => match numeral(text@) {
                Some((negative, n)) => below == below_zero(negative, n) && whole == magnitude(
                    n,
                    scale as int,
                    div as int,
                ),
                None => false,
            },
            None => numeral(text@) is None,
        },
{
    let cs = chars_of(text);
    let n: usize = cs.len();
    let signed = n > 0 && (cs[0] == '+' || cs[0] == '-');
    let negative = signed && cs[0] == '-';
    let i: usize = if signed {
        1
    } else {
        0
    };
    if word_is(&cs, i, "nan") {
        return Some((false, 0));
    }
    if word_is(&cs, i, "inf") || word_is(&cs, i, "infinity") {
        return Some((negative, u64::MAX));
    }
    let mut digits: Vec<u8> = Vec::new();
    let a = read_digits(&cs, i, &mut digits);
    let dotted = a < n && cs[a] == '.';
    let b: usize = if dotted {
        read_digits(&cs, a + 1, &mut digits)
    } else {
        a
    };
    let places: usize = if dotted {
        b - a - 1
    } else {
        0
    };
    let ghost fraction = if dotted {
        text@.subrange(a + 1, b as int)
    } else {
        seq![]
    };
    let ghost all = text@.subrange(i as int, a as int) + fraction;
    proof {
        assert(digits@ =~= digit_values(all));
        assert forall|j: int| 0 <= j < all.len() implies is_digit(#[trigger] all[j]) by {
            if j < a - i {
                assert(all[j] == text@[i + j]);
            } else {
                assert(all[j] == text@[a + 1 + (j - (a - i))]);
            }
        }
        lemma_digit_values(all);
        assert(fraction.len() == places);
    }
    match read_exponent(&cs, b) {
        None => None,
        Some(e) => {
            if digits.len() == 0 {
                return None;
            }
            let power: i128 = e - places as i128;
            let ghost exact = exponent_at(text@, b as int)->0 - places;
            assert(number_at(text@, i as int) == Some(Numeral::Finite(all, exact)));
            let below = negative && differs_from_zero(&digits, power, Ghost(exact));
            let whole = scale_decimal(&digits, power, Ghost(exact), scale, div);
            Some((below, whole))
        },
    }
}

proof fn lemma_all_digits_end(s: Seq<char>, i: int)
    requires
        0 <= i <= s.len(),
        forall|j: int| 0 <= j < s.len() ==> is_digit(#[trigger] s[j]),
    ensures
        digits_end(s, i) == s.len(),
    decreases s.len() - i,
{
    if i < s.len() {
        lemma_all_digits_end(s, i + 1);
    }
}

/// A whole number in decimal digits is a number of these digits.
pub proof fn whole_numbers_are_numerals(n: int)
    requires
        n >= 0,
    ensures
        numeral(decimal_text(n)) == Some((false, Numeral::Finite(decimal_text(n), 0))),
        !below_zero(false, Numeral::Finite(decimal_text(n), 0)),
{
    let s = decimal_text(n);
    lemma_decimal_text(n);
    lemma_digit_values(s);
    lemma_all_digits_end(s, 0);
    assert(is_digit(s[0]));
    assert(s.skip(0) =~= s);
    assert(s.subrange(0, s.len() as int) + Seq::<char>::empty() =~= s);
    let word = lowered(s.skip(0));
    assert(word[0] == s[0]);
    reveal_strlit("nan");
    reveal_strlit("inf");
    reveal_strlit("infinity");
}

/// A whole number in decimal digits says that number, and as long as the product is
/// below 2 to the power of 53 nothing of it is lost.
pub proof fn whole_numbers_are_exact(n: int, scale: int, div: int)
    requires
        n >= 0,
        scale >= 1,
        div >= 1,
        n * scale < BITS_54,
    ensures
        numeral(decimal_text(n)) == Some((false, Numeral::Finite(decimal_text(n), 0))),
        magnitude(Numeral::Finite(decimal_text(n), 0), scale, div) == n * scale / div,
        !below_zero(false, Numeral::Finite(decimal_text(n), 0)),
{
    let s = decimal_text(n);
    lemma_decimal_text(n);
    lemma_digit_values(s);
    lemma_all_digits_end(s, 0);
    assert(is_digit(s[0]));
    assert(s.skip(0) =~= s);
    assert(s.subrange(0, s.len() as int) + Seq::<char>::empty() =~= s);
    let word = lowered(s.skip(0));
    assert(word[0] == s[0]);
    reveal_strlit("nan");
    reveal_strlit("inf");
    reveal_strlit("infinity");
    assert(exp(10, 0) == 1);
    assert(decimal_num(digit_values(s), 0) == n);
    small_products_are_exact(n, scale, div);
}

} // verus!
