//! The configuration.

use crate::config::{
    keys, lists_datasets, reads_bandwidth, without_prefix, without_unit, BandwidthError,
    ServerConfig, SourceConfig,
};
use crate::double::BITS_54;
use crate::laws::zfs::trimming_leaves_the_text;
use crate::number::{all_digits, decimal_text, digits_value, is_digit, lemma_decimal_text};
use crate::numeral::{
    below_zero, digits_end, exponent_at, lowered, magnitude, number_at, numeral,
    whole_numbers_are_exact, Numeral,
};
use crate::text::{is_space, text_less, texts};
use vstd::prelude::*;
use vstd::string::*;

verus! {

/// Whether a prefix multiplies with `scale`: `k`, `m` and `g`, in either case, with a
/// thousand, a million and a thousand millions, and none with one.
pub open spec fn multiplies(prefix: Seq<char>, scale: int) -> bool {
    ||| prefix.len() == 0 && scale == 1
    ||| prefix.len() == 1 && (prefix[0] == 'k' || prefix[0] == 'K') && scale == 1_000
    ||| prefix.len() == 1 && (prefix[0] == 'm' || prefix[0] == 'M') && scale == 1_000_000
    ||| prefix.len() == 1 && (prefix[0] == 'g' || prefix[0] == 'G') && scale == 1_000_000_000
}

/// Whether a unit makes `div` of it a byte: `bit` and `bits`, in any case, eight, and `B`,
/// `b` or none, one.
pub open spec fn divides(unit: Seq<char>, div: int) -> bool {
    ||| unit.len() == 0 && div == 1
    ||| unit.len() == 1 && (unit[0] == 'b' || unit[0] == 'B') && div == 1
    ||| (unit.len() == 3 || (unit.len() == 4 && (unit[3] == 's' || unit[3] == 'S'))) && (unit[0]
        == 'b' || unit[0] == 'B') && (unit[1] == 'i' || unit[1] == 'I') && (unit[2] == 't'
        || unit[2] == 'T') && div == 8
}

/// Whether a text can stand for a number in front of a prefix and a unit: it does not end
/// in a letter that these may end in, and has no whitespace at its ends.
pub open spec fn stands_alone(x: Seq<char>) -> bool {
    &&& x.len() > 0
    &&& !is_space(x[0]) && !is_space(x.last())
    &&& !('a' <= x.last() <= 'z') && !('A' <= x.last() <= 'Z')
}

#[verifier::rlimit(40)]
proof fn lemma_parts(x: Seq<char>, prefix: Seq<char>, scale: int, unit: Seq<char>, div: int)
    requires
        stands_alone(x),
        multiplies(prefix, scale),
        divides(unit, div),
    ensures
        without_unit(x + prefix + unit) == (x + prefix, div),
        without_prefix(x + prefix) == (x, scale),
        !is_space((x + prefix + unit).last()),
{
    let front = x + prefix;
    let t = front + unit;
    let n = t.len() as int;
    let low = lowered(t);
    reveal_strlit("bit");
    reveal_strlit("bits");
    assert(low.len() == n);
    assert(low[n - 1] == crate::numeral::lower(t[n - 1]));
    if unit.len() == 0 {
        assert(t =~= front);
        if prefix.len() == 0 {
            assert(front =~= x);
            assert(t.last() == x.last());
        } else {
            assert(t.last() == prefix[0]);
        }
        if n >= 4 {
            assert(low.skip(n - 4)[3] == low[n - 1]);
        }
        if n >= 3 {
            assert(low.skip(n - 3)[2] == low[n - 1]);
        }
    } else if unit.len() == 1 {
        assert(t.last() == unit[0]);
        assert(t.drop_last() =~= front);
        if n >= 4 {
            assert(low.skip(n - 4)[3] == low[n - 1]);
        }
        if n >= 3 {
            assert(low.skip(n - 3)[2] == low[n - 1]);
        }
    } else if unit.len() == 3 {
        assert(t.last() == unit[2]);
        assert(low.skip(n - 3) =~= "bit"@);
        if n >= 4 {
            assert(low.skip(n - 4)[3] == low[n - 1]);
        }
        assert(t.take(n - 3) =~= front);
    } else {
        assert(t.last() == unit[3]);
        assert(low.skip(n - 4) =~= "bits"@);
        assert(t.take(n - 4) =~= front);
    }
    if prefix.len() == 0 {
        assert(front =~= x);
    } else {
        assert(front.last() == prefix[0]);
        assert(front.drop_last() =~= x);
    }
}

/// A bandwidth is its number, times what the prefix says, divided by what the unit says,
/// with any whitespace around it. It is refused exactly where the number is none or is
/// below zero.
pub proof fn bandwidths_are_number_prefix_and_unit(
    a: Seq<char>,
    x: Seq<char>,
    prefix: Seq<char>,
    scale: int,
    unit: Seq<char>,
    div: int,
    b: Seq<char>,
    r: Result<u64, BandwidthError>,
)
    requires
        forall|i: int| 0 <= i < a.len() ==> is_space(#[trigger] a[i]),
        forall|i: int| 0 <= i < b.len() ==> is_space(#[trigger] b[i]),
        stands_alone(x),
        multiplies(prefix, scale),
        divides(unit, div),
        reads_bandwidth(a + (x + prefix + unit) + b, r),
    ensures
        match numeral(x) {
            None => r matches Err(BandwidthError::Invalid(e)) && e@ == x,
            Some((negative, n)) => if below_zero(negative, n) {
                r matches Err(BandwidthError::Negative(e)) && e@ == x
            } else {
                r is Ok && r->Ok_0 == magnitude(n, scale, div)
            },
        },
{
    let t = x + prefix + unit;
    lemma_parts(x, prefix, scale, unit, div);
    assert(t[0] == x[0]);
    trimming_leaves_the_text(a, t, b);
}

/// A whole number with a prefix and a unit is read as exactly that many bytes, as long as
/// the product is below 2 to the power of 53.
pub proof fn whole_bandwidths_are_exact(
    a: Seq<char>,
    n: int,
    prefix: Seq<char>,
    scale: int,
    unit: Seq<char>,
    div: int,
    b: Seq<char>,
    r: Result<u64, BandwidthError>,
)
    requires
        forall|i: int| 0 <= i < a.len() ==> is_space(#[trigger] a[i]),
        forall|i: int| 0 <= i < b.len() ==> is_space(#[trigger] b[i]),
        n >= 0,
        n * scale < BITS_54,
        multiplies(prefix, scale),
        divides(unit, div),
        reads_bandwidth(a + (decimal_text(n) + prefix + unit) + b, r),
    ensures
        r is Ok,
        r->Ok_0 == n * scale / div,
{
    let x = decimal_text(n);
    lemma_decimal_text(n);
    assert(is_digit(x[0]) && is_digit(x[x.len() - 1]));
    bandwidths_are_number_prefix_and_unit(a, x, prefix, scale, unit, div, b, r);
    whole_numbers_are_exact(n, scale, div);
}

// ---------------------------------------------------------------------------
// Numbers
// ---------------------------------------------------------------------------

proof fn lemma_digits_end(s: Seq<char>, i: int, n: int)
    requires
        0 <= i <= n <= s.len(),
        forall|j: int| i <= j < n ==> is_digit(#[trigger] s[j]),
        n < s.len() ==> !is_digit(s[n]),
    ensures
        digits_end(s, i) == n,
    decreases n - i,
{
    if i < n {
        assert(is_digit(s[i]));
        lemma_digits_end(s, i + 1, n);
    }
}

/// Digits, a point and more digits are the number that all the digits write, divided by
/// ten for each behind the point; a sign in front says whether it is negative.
pub proof fn digits_behind_the_point_are_tenths(whole: Seq<char>, fraction: Seq<char>)
    requires
        all_digits(whole),
        all_digits(fraction),
        whole.len() + fraction.len() > 0,
    ensures
        numeral(whole.push('.') + fraction) == Some(
            (false, Numeral::Finite(whole + fraction, -(fraction.len() as int))),
        ),
        numeral(seq!['-'] + (whole.push('.') + fraction)) == Some(
            (true, Numeral::Finite(whole + fraction, -(fraction.len() as int))),
        ),
        numeral(seq!['+'] + (whole.push('.') + fraction)) == Some(
            (false, Numeral::Finite(whole + fraction, -(fraction.len() as int))),
        ),
{
    let s = whole.push('.') + fraction;
    assert(s.skip(0) =~= s);
    lemma_pointed(s, 0, whole, fraction);
    let m = seq!['-'] + s;
    assert(m.skip(1) =~= s);
    lemma_pointed(m, 1, whole, fraction);
    let p = seq!['+'] + s;
    assert(p.skip(1) =~= s);
    lemma_pointed(p, 1, whole, fraction);
    if whole.len() > 0 {
        assert(is_digit(whole[0]));
        assert(s[0] == whole[0]);
    } else {
        assert(s[0] == '.');
    }
}

#[verifier::rlimit(40)]
proof fn lemma_pointed(s: Seq<char>, from: int, whole: Seq<char>, fraction: Seq<char>)
    requires
        0 <= from <= s.len(),
        s.skip(from) == whole.push('.') + fraction,
        all_digits(whole),
        all_digits(fraction),
        whole.len() + fraction.len() > 0,
    ensures
        number_at(s, from) == Some(
            Numeral::Finite(whole + fraction, -(fraction.len() as int)),
        ),
        lowered(s.skip(from)) != "nan"@,
        lowered(s.skip(from)) != "inf"@,
        lowered(s.skip(from)) != "infinity"@,
{
    let t = s.skip(from);
    let a = from + whole.len();
    let end = s.len() as int;
    assert(t.len() == end - from);
    assert((whole.push('.') + fraction).len() == whole.len() + 1 + fraction.len());
    assert(end == a + 1 + fraction.len());
    assert forall|j: int| from <= j < a implies is_digit(#[trigger] s[j]) by {
        assert(t[j - from] == s[j]);
        assert(is_digit(whole[j - from]));
    }
    assert(t[whole.len() as int] == '.');
    assert(s[a] == '.');
    lemma_digits_end(s, from, a);
    assert forall|j: int| a + 1 <= j < end implies is_digit(#[trigger] s[j]) by {
        assert(t[j - from] == s[j]);
        assert(is_digit(fraction[j - a - 1]));
    }
    lemma_digits_end(s, a + 1, end);
    assert(s.subrange(from, a) =~= whole) by {
        assert forall|j: int| 0 <= j < whole.len() implies s.subrange(from, a)[j] == whole[j] by {
            assert(t[j] == s[from + j]);
        }
    }
    assert(s.subrange(a + 1, end) =~= fraction) by {
        assert forall|j: int| 0 <= j < fraction.len() implies s.subrange(a + 1, end)[j]
            == fraction[j] by {
            assert(t[whole.len() + 1 + j] == s[a + 1 + j]);
        }
    }
    assert(exponent_at(s, end) == Some(0int));
    reveal_strlit("nan");
    reveal_strlit("inf");
    reveal_strlit("infinity");
    let word = lowered(t);
    assert(word[0] == crate::numeral::lower(t[0]));
    if whole.len() > 0 {
        assert(t[0] == whole[0]);
        assert(is_digit(whole[0]));
    } else {
        assert(t[0] == '.');
    }
}

/// Digits with an exponent behind them are the number that the digits write, times ten for
/// each that the exponent says.
pub proof fn exponents_are_powers_of_ten(digits: Seq<char>, exponent: Seq<char>)
    requires
        all_digits(digits),
        all_digits(exponent),
        digits.len() > 0,
        exponent.len() > 0,
    ensures
        numeral(digits + seq!['e'] + exponent) == Some(
            (false, Numeral::Finite(digits, digits_value(exponent))),
        ),
        numeral(digits + seq!['E'] + exponent) == Some(
            (false, Numeral::Finite(digits, digits_value(exponent))),
        ),
{
    lemma_exponent(digits, seq!['e'], exponent, 1);
    lemma_exponent(digits, seq!['E'], exponent, 1);
}

/// A sign in front of the exponent says whether ten multiplies or divides.
pub proof fn exponents_may_have_a_sign(digits: Seq<char>, exponent: Seq<char>)
    requires
        all_digits(digits),
        all_digits(exponent),
        digits.len() > 0,
        exponent.len() > 0,
    ensures
        numeral(digits + seq!['e', '-'] + exponent) == Some(
            (false, Numeral::Finite(digits, -digits_value(exponent))),
        ),
        numeral(digits + seq!['e', '+'] + exponent) == Some(
            (false, Numeral::Finite(digits, digits_value(exponent))),
        ),
{
    lemma_exponent(digits, seq!['e', '-'], exponent, -1);
    lemma_exponent(digits, seq!['e', '+'], exponent, 1);
}

#[verifier::rlimit(60)]
proof fn lemma_exponent(digits: Seq<char>, mark: Seq<char>, exponent: Seq<char>, sign: int)
    requires
        all_digits(digits),
        all_digits(exponent),
        digits.len() > 0,
        exponent.len() > 0,
        (mark == seq!['e'] && sign == 1) || (mark == seq!['E'] && sign == 1) || (mark == seq![
            'e',
            '-',
        ] && sign == -1) || (mark == seq!['e', '+'] && sign == 1),
    ensures
        numeral(digits + mark + exponent) == Some(
            (false, Numeral::Finite(digits, sign * digits_value(exponent))),
        ),
{
    let s = digits + mark + exponent;
    let a = digits.len() as int;
    let from = a + mark.len();
    let end = s.len() as int;
    assert forall|j: int| 0 <= j < a implies is_digit(#[trigger] s[j]) by {
        assert(is_digit(digits[j]));
    }
    assert(s[a] == mark[0]);
    lemma_digits_end(s, 0, a);
    assert forall|j: int| from <= j < end implies is_digit(#[trigger] s[j]) by {
        assert(is_digit(exponent[j - from]));
    }
    lemma_digits_end(s, from, end);
    assert(s[a + 1] == if mark.len() == 2 {
        mark[1]
    } else {
        exponent[0]
    });
    assert(is_digit(exponent[0]));
    assert(s.subrange(0, a) =~= digits);
    assert(s.subrange(0, a) + Seq::<char>::empty() =~= digits);
    assert(s.subrange(from, end) =~= exponent);
    let v = digits_value(exponent);
    assert(sign * v == if sign == 1 {
        v
    } else {
        -v
    }) by (nonlinear_arith)
        requires
            sign == 1 || sign == -1,
    ;
    assert(from < end && digits_end(s, from) == end);
    assert(mark.len() == 1 ==> s[a + 1] != '+' && s[a + 1] != '-');
    assert(exponent_at(s, a) == Some(sign * v));
    assert(is_digit(digits[0]));
    assert(s[0] == digits[0]);
    reveal_strlit("nan");
    reveal_strlit("inf");
    reveal_strlit("infinity");
    assert(s.skip(0) =~= s);
    let word = lowered(s);
    assert(word[0] == crate::numeral::lower(s[0]));
}


// ---------------------------------------------------------------------------
// Datasets
// ---------------------------------------------------------------------------

/// Lists that hold the same as often hold the same.
pub proof fn lemma_same_contents(a: Seq<Seq<char>>, b: Seq<Seq<char>>, x: Seq<char>)
    requires
        a.to_multiset() == b.to_multiset(),
    ensures
        a.contains(x) <==> b.contains(x),
{
    broadcast use vstd::seq_lib::group_to_multiset_ensures;

    if a.contains(x) {
        assert(a.to_multiset().count(x) > 0);
        assert(b.to_multiset().count(x) > 0);
    }
    if b.contains(x) {
        assert(b.to_multiset().count(x) > 0);
        assert(a.to_multiset().count(x) > 0);
    }
}

/// The keys of a table are the names in it.
pub proof fn lemma_keys<V>(table: Seq<(String, V)>, x: Seq<char>)
    ensures
        keys(table).contains(x) <==> exists|i: int|
            0 <= i < table.len() && (#[trigger] table[i]).0@ == x,
{
    if keys(table).contains(x) {
        let i = choose|i: int| 0 <= i < keys(table).len() && keys(table)[i] == x;
        assert(table[i].0@ == x);
    }
    if exists|i: int| 0 <= i < table.len() && (#[trigger] table[i]).0@ == x {
        let i = choose|i: int| 0 <= i < table.len() && (#[trigger] table[i]).0@ == x;
        assert(keys(table)[i] == x);
    }
}

/// The configured datasets of a source are all that its configuration names, as often as it
/// names them, and in the order of their names.
pub proof fn configured_datasets_are_those_named(
    config: SourceConfig,
    names: Seq<Seq<char>>,
    name: Seq<char>,
)
    requires
        lists_datasets(config, names),
    ensures
        names.contains(name) <==> exists|i: int|
            0 <= i < config.datasets@.len() && (#[trigger] config.datasets@[i]).0@ == name,
        names.len() == config.datasets@.len(),
        forall|i: int, j: int|
            0 <= i < j < names.len() ==> !text_less(#[trigger] names[j], #[trigger] names[i]),
{
    broadcast use vstd::seq_lib::group_to_multiset_ensures;

    lemma_same_contents(names, keys(config.datasets@), name);
    lemma_keys(config.datasets@, name);
    assert(names.to_multiset().len() == keys(config.datasets@).to_multiset().len());
}

/// A server allows a dataset exactly where the list of some client holds it.
pub proof fn allowed_datasets_are_those_of_clients(config: ServerConfig, name: Seq<char>)
    ensures
        config.allows(name) <==> exists|i: int, k: int|
            0 <= i < config.clients@.len() && 0 <= k < (
            #[trigger] config.clients@[i]).1.allow@.len() && (
            #[trigger] config.clients@[i].1.allow@[k])@ == name,
{
    if config.allows(name) {
        let i = choose|i: int|
            0 <= i < config.clients@.len() && texts(
                (#[trigger] config.clients@[i]).1.allow@,
            ).contains(name);
        let all = texts(config.clients@[i].1.allow@);
        let k = choose|k: int| 0 <= k < all.len() && all[k] == name;
        assert(config.clients@[i].1.allow@[k]@ == name);
    }
    if exists|i: int, k: int|
        0 <= i < config.clients@.len() && 0 <= k < (#[trigger] config.clients@[i]).1.allow@.len()
            && (#[trigger] config.clients@[i].1.allow@[k])@ == name {
        let (i, k) = choose|i: int, k: int|
            0 <= i < config.clients@.len() && 0 <= k < (
            #[trigger] config.clients@[i]).1.allow@.len() && (
            #[trigger] config.clients@[i].1.allow@[k])@ == name;
        assert(texts(config.clients@[i].1.allow@)[k] == name);
    }
}

} // verus!
