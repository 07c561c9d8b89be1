//! Numbers with a fraction: sizes, speeds and bandwidths.

use crate::config::{reads_bandwidth, BandwidthError};
use crate::double::{
    double_quotient, exp, lemma_exp_add, lemma_exp_pos, lemma_exponent_from, lemma_half_even_close,
    lemma_nearest_bits, nearest, nearest_is_close_in_parts, reaches, rounded_quotient,
    rounded_quotient_is_close, rounded_times, scaled_double_is_close, whole_of, whole_part, Double,
    BITS_53, BITS_54,
};
use crate::laws::config::{
    bandwidths_are_number_prefix_and_unit, digits_behind_the_point_are_tenths, divides, multiplies,
    stands_alone,
};
use crate::laws::zfs::trimming_leaves_the_text;
use crate::number::{all_digits, decimal_text, digits_value, is_digit, lemma_decimal_text};
use crate::numeral::{
    below_zero, lemma_digit_values, magnitude, numeral, whole_numbers_are_numerals, Numeral,
};
use crate::progress::{bytes_text, duration_text, speed_text, tenths_text};
use crate::text::is_space;
use crate::zfs::estimator::{
    alphabetic, lemma_letter_behind_digits, letters_known, size_value, unit_size,
};
use vstd::prelude::*;
use vstd::string::*;

verus! {

/// A number of tenths is shown with the tenths behind a point.
pub proof fn tenths_stand_behind_the_point(n: int, d: int)
    requires
        n >= 0,
        0 <= d <= 9,
    ensures
        tenths_text(n * 10 + d) == decimal_text(n).push('.') + decimal_text(d),
{
    reveal_strlit(".");
    assert((n * 10 + d) / 10 == n);
    assert((n * 10 + d) % 10 == d);
    assert(tenths_text(n * 10 + d) =~= decimal_text(n).push('.') + decimal_text(d));
}

#[verifier::rlimit(40)]
proof fn lemma_shown(bytes: int, unit: int, mult: int)
    requires
        0 < bytes <= unit * 1_099_511_627_776,
        1 <= unit <= 1_000_000_000,
        mult == 1 || mult == 10,
    ensures
        ({
            let (t, g) = double_quotient(bytes, unit);
            let n = rounded_times(t, g, mult);
            -unit <= n * unit - mult * bytes <= unit
        }),
{
    let (s, e) = nearest(bytes, 1);
    lemma_nearest_bits(bytes, 1);
    assert(exp(2, 52) == BITS_53) by {
        reveal_with_fuel(exp, 53);
    }
    assert(bytes * BITS_53 >= BITS_53) by (nonlinear_arith)
        requires
            bytes >= 1,
            BITS_53 > 0,
    ;
    lemma_exponent_from(bytes, 1, 52);
    nearest_is_close_in_parts(bytes, 1, 52);
    let p = exp(2, 52);
    let v = s * exp(2, e + 52);
    let b = bytes * p;
    let u = unit * p;
    assert(v * 1 == v);
    assert(-v <= BITS_54 * (v - b) <= v);
    assert(b <= 1_099_511_627_776 * u) by (nonlinear_arith)
        requires
            bytes <= unit * 1_099_511_627_776,
            b == bytes * p,
            u == unit * p,
            p > 0,
    ;
    assert(unit * (2_199_023_255_552 * p) == 2_199_023_255_552 * u) by (nonlinear_arith)
        requires
            u == unit * p,
    ;
    assert(u > 0) by (nonlinear_arith)
        requires
            u == unit * p,
            unit > 0,
            p > 0,
    ;
    assert(b > 0) by (nonlinear_arith)
        requires
            b == bytes * p,
            bytes > 0,
            p > 0,
    ;
    assert(v < 2 * b || BITS_54 * (v - b) <= v);
    assert(v < 2_199_023_255_552 * u);
    rounded_quotient_is_close(s, e, 52, unit, mult);
    let n = rounded_quotient((s, e), unit, mult);
    assert(mult * v == if mult == 1 {
        v
    } else {
        10 * v
    });
    assert(mult * b == if mult == 1 {
        b
    } else {
        10 * b
    });
    assert(-u <= n * u - mult * b <= u);
    let off = n * unit - mult * bytes;
    assert(n * u - mult * b == off * p) by (nonlinear_arith)
        requires
            off == n * unit - mult * bytes,
            u == unit * p,
            b == bytes * p,
    ;
    assert(-unit <= off <= unit) by (nonlinear_arith)
        requires
            -u <= off * p <= u,
            u == unit * p,
            p > 0,
    ;
}

/// A number of bytes is shown in the largest unit that it reaches, and to within one of
/// the last place: gigabytes with a decimal, mega- and kilobytes without, and bytes as they
/// are.
pub proof fn sizes_are_shown_in_their_unit(bytes: int)
    requires
        0 <= bytes <= u64::MAX,
    ensures
        bytes < 1_000 ==> bytes_text(bytes) == decimal_text(bytes) + " B"@,
        1_000 <= bytes < 1_000_000 ==> exists|n: int|
            bytes_text(bytes) == #[trigger] decimal_text(n) + " KB"@ && -1_000 <= n * 1_000 - bytes
                <= 1_000,
        1_000_000 <= bytes < 1_000_000_000 ==> exists|n: int|
            bytes_text(bytes) == #[trigger] decimal_text(n) + " MB"@ && -1_000_000 <= n * 1_000_000
                - bytes <= 1_000_000,
        1_000_000_000 <= bytes ==> exists|n: int|
            bytes_text(bytes) == #[trigger] tenths_text(n) + " GB"@ && -1_000_000_000 <= n
                * 1_000_000_000 - 10 * bytes <= 1_000_000_000,
{
    if bytes >= 1_000_000_000 {
        lemma_shown(bytes, 1_000_000_000, 10);
        let (t, g) = double_quotient(bytes, 1_000_000_000);
        let n = rounded_times(t, g, 10);
        assert(bytes_text(bytes) == tenths_text(n) + " GB"@);
    } else if bytes >= 1_000_000 {
        lemma_shown(bytes, 1_000_000, 1);
        let (t, g) = double_quotient(bytes, 1_000_000);
        let n = rounded_times(t, g, 1);
        assert(bytes_text(bytes) == decimal_text(n) + " MB"@);
    } else if bytes >= 1_000 {
        lemma_shown(bytes, 1_000, 1);
        let (t, g) = double_quotient(bytes, 1_000);
        let n = rounded_times(t, g, 1);
        assert(bytes_text(bytes) == decimal_text(n) + " KB"@);
    }
}

proof fn lemma_reaches(m: int, e: int, k: int, n: int)
    requires
        m >= 0,
        k >= 0,
        e + k >= 0,
    ensures
        reaches((m, e), n) <==> m * exp(2, e + k) >= n * exp(2, k),
{
    let p = exp(2, k);
    let x = exp(2, e + k);
    lemma_exp_pos(2, k);
    lemma_exp_pos(2, e + k);
    if e >= 0 {
        lemma_exp_add(2, e, k);
        let b = exp(2, e);
        assert(m * x == (m * b) * p) by (nonlinear_arith)
            requires
                x == b * p,
        ;
        assert((m * b) * p >= n * p <==> m * b >= n) by (nonlinear_arith)
            requires
                p > 0,
        ;
    } else {
        lemma_exp_add(2, -e, e + k);
        let a = exp(2, -e);
        assert(n * p == (n * a) * x) by (nonlinear_arith)
            requires
                p == a * x,
        ;
        assert(m * x >= (n * a) * x <==> m >= n * a) by (nonlinear_arith)
            requires
                x > 0,
        ;
    }
}

/// A speed is shown in the largest unit that it reaches, and to within one of the last
/// place: megabytes with a decimal, kilobytes and bytes without. The speed is counted here
/// in parts of 2 to the power of -200 of a byte in a second.
pub proof fn speeds_are_shown_in_their_unit(bps: Double)
    requires
        bps.valid(),
        bps.mantissa > 0,
        bps.mantissa * exp(2, bps.exponent + 200) <= 1_000_000_000_000_000_000 * exp(2, 200),
    ensures
        ({
            let one = exp(2, 200);
            let speed = bps.mantissa * exp(2, bps.exponent + 200);
            let text = speed_text(bps.parts());
            &&& speed >= 1_000_000 * one ==> exists|n: int|
                text == #[trigger] tenths_text(n) + " MB/s"@ && -(1_000_000 * one) <= n * (1_000_000
                    * one) - 10 * speed <= 1_000_000 * one
            &&& 1_000 * one <= speed < 1_000_000 * one ==> exists|n: int|
                text == #[trigger] decimal_text(n) + " KB/s"@ && -(1_000 * one) <= n * (1_000
                    * one) - speed <= 1_000 * one
            &&& speed < 1_000 * one ==> exists|n: int|
                text == #[trigger] decimal_text(n) + " B/s"@ && -one <= 2 * (n * one - speed)
                    <= one
        }),
{
    let m = bps.mantissa as int;
    let e = bps.exponent as int;
    let one = exp(2, 200);
    let speed = m * exp(2, e + 200);
    lemma_exp_pos(2, 200);
    lemma_reaches(m, e, 200, 1_000_000);
    lemma_reaches(m, e, 200, 1_000);
    if speed >= 1_000_000 * one {
        assert(1_000_000 * (2_199_023_255_552 * one) > speed);
        rounded_quotient_is_close(m, e, 200, 1_000_000, 10);
        let n = rounded_quotient((m, e), 1_000_000, 10);
        assert(speed_text(bps.parts()) == tenths_text(n) + " MB/s"@);
    } else if speed >= 1_000 * one {
        assert(1_000 * (2_199_023_255_552 * one) > speed);
        rounded_quotient_is_close(m, e, 200, 1_000, 1);
        let n = rounded_quotient((m, e), 1_000, 1);
        assert(speed_text(bps.parts()) == decimal_text(n) + " KB/s"@);
    } else {
        let n = rounded_times(m, e, 1);
        let x = exp(2, e + 200);
        lemma_exp_pos(2, e + 200);
        if e >= 0 {
            lemma_exp_add(2, e, 200);
            assert(n * one == speed) by (nonlinear_arith)
                requires
                    n == m * exp(2, e) * 1,
                    speed == m * (exp(2, e) * one),
            ;
        } else {
            let d = exp(2, -e);
            lemma_exp_pos(2, -e);
            lemma_exp_add(2, -e, e + 200);
            lemma_half_even_close(m * 1, d);
            let o = d * n - m;
            assert(n * one - speed == o * x) by (nonlinear_arith)
                requires
                    one == d * x,
                    speed == m * x,
                    o == d * n - m,
            ;
            assert(-one <= 2 * (o * x) <= one) by (nonlinear_arith)
                requires
                    -d <= 2 * o <= d,
                    one == d * x,
                    x > 0,
            ;
        }
        assert(speed_text(bps.parts()) == decimal_text(n) + " B/s"@);
    }
}

/// A time is shown in whole seconds, rounded down, and from a minute on with the minutes
/// in front and two digits of seconds. The time is counted here in parts of 2 to the power
/// of -200 of a second.
pub proof fn times_are_shown_in_minutes_and_seconds(secs: Double, n: int)
    requires
        secs.valid(),
        0 <= n <= u64::MAX,
        n * exp(2, 200) <= secs.mantissa * exp(2, secs.exponent + 200) < (n + 1) * exp(2, 200),
    ensures
        duration_text(secs.parts()) == (if n < 60 {
            decimal_text(n).push('s')
        } else if n % 60 < 10 {
            decimal_text(n / 60) + seq!['m', ' ', '0'] + decimal_text(n % 60).push('s')
        } else {
            decimal_text(n / 60) + seq!['m', ' '] + decimal_text(n % 60).push('s')
        }),
{
    let m = secs.mantissa as int;
    let e = secs.exponent as int;
    let p = exp(2, 200);
    let x = exp(2, e + 200);
    lemma_exp_pos(2, 200);
    lemma_exp_pos(2, e + 200);
    let w = whole_part(m, e, 1);
    if e >= 0 {
        lemma_exp_add(2, e, 200);
        assert(w == m * exp(2, e));
        assert(w * p == m * x) by (nonlinear_arith)
            requires
                w == m * exp(2, e),
                x == exp(2, e) * p,
        ;
    } else {
        let d = exp(2, -e);
        lemma_exp_pos(2, -e);
        lemma_exp_add(2, -e, e + 200);
        assert(d * 1 == d);
        vstd::arithmetic::div_mod::lemma_fundamental_div_mod(m, d);
        vstd::arithmetic::div_mod::lemma_mod_bound(m, d);
        assert(w * p <= m * x && m * x < (w + 1) * p) by (nonlinear_arith)
            requires
                m == d * w + m % d,
                0 <= m % d < d,
                p == d * x,
                x > 0,
        ;
    }
    assert((w + 1) * p == w * p + p) by (nonlinear_arith);
    assert(w == n) by (nonlinear_arith)
        requires
            w * p <= m * x,
            m * x < (w + 1) * p,
            n * p <= m * x,
            m * x < (n + 1) * p,
            p > 0,
    ;
    assert(whole_of(secs.parts()) == n);
    reveal_strlit("m ");
    reveal_strlit("s");
    reveal_strlit("0");
    reveal_strlit("");
    let text = duration_text(secs.parts());
    if n < 60 {
        assert(text =~= decimal_text(n).push('s'));
    } else if n % 60 < 10 {
        assert(text =~= decimal_text(n / 60) + seq!['m', ' ', '0'] + decimal_text(n % 60).push('s'));
    } else {
        assert(text =~= decimal_text(n / 60) + seq!['m', ' '] + decimal_text(n % 60).push('s'));
    }
}

// ---------------------------------------------------------------------------
// Reading
// ---------------------------------------------------------------------------

proof fn lemma_tens(n: int)
    requires
        n >= 0,
    ensures
        exp(2, 4 * n) >= exp(10, n) > 0,
    decreases n,
{
    if n > 0 {
        lemma_tens(n - 1);
        lemma_exp_add(2, 4, 4 * (n - 1));
        assert(4 + 4 * (n - 1) == 4 * n);
        assert(exp(2, 4) == 16) by {
            reveal_with_fuel(exp, 5);
        }
    }
}

proof fn lemma_close(digits: Seq<char>, k: int, scale: int, div: int)
    requires
        all_digits(digits),
        digits_value(digits) > 0,
        k >= 0,
        scale >= 1,
        div >= 1,
    ensures
        ({
            let w = magnitude(Numeral::Finite(digits, -k), scale, div);
            let den = exp(10, k);
            let n = digits_value(digits);
            &&& 2_251_799_813_685_248 * (w * (div * den)) <= 2_251_799_813_685_249 * (n * scale)
            &&& w < u64::MAX ==> 2_251_799_813_685_248 * ((w + 1) * (div * den))
                >= 2_251_799_813_685_247 * (n * scale)
        }),
{
    lemma_digit_values(digits);
    let n = digits_value(digits);
    let den = exp(10, k);
    assert(exp(10, -k) == 1);
    assert(n * 1 == n);
    lemma_tens(k);
    let h = 52 + 4 * k;
    lemma_exp_add(2, 52, 4 * k);
    assert(exp(2, 52) == BITS_53) by {
        reveal_with_fuel(exp, 53);
    }
    assert(n * exp(2, h) >= BITS_53 * den) by (nonlinear_arith)
        requires
            n >= 1,
            exp(2, h) == BITS_53 * exp(2, 4 * k),
            exp(2, 4 * k) >= den,
            den > 0,
            BITS_53 > 0,
    ;
    lemma_exponent_from(n, den, h);
    scaled_double_is_close(n, den, scale, div, h);
}

/// A bandwidth with digits behind a point is that many times what the prefix says, divided
/// by what the unit says: the whole part, but for one part in 2 to the power of 51.
pub proof fn bandwidths_with_a_fraction_are_close(
    whole: Seq<char>,
    fraction: Seq<char>,
    prefix: Seq<char>,
    scale: int,
    unit: Seq<char>,
    div: int,
    r: Result<u64, BandwidthError>,
)
    requires
        all_digits(whole),
        all_digits(fraction),
        whole.len() > 0,
        fraction.len() > 0,
        digits_value(whole + fraction) > 0,
        multiplies(prefix, scale),
        divides(unit, div),
        reads_bandwidth(whole.push('.') + fraction + prefix + unit, r),
    ensures
        r is Ok,
        ({
            let w = r->Ok_0;
            let den = exp(10, fraction.len() as int);
            let n = digits_value(whole + fraction);
            &&& 2_251_799_813_685_248 * (w * (div * den)) <= 2_251_799_813_685_249 * (n * scale)
            &&& w < u64::MAX ==> 2_251_799_813_685_248 * ((w + 1) * (div * den))
                >= 2_251_799_813_685_247 * (n * scale)
        }),
{
    let x = whole.push('.') + fraction;
    let none = Seq::<char>::empty();
    let k = fraction.len() as int;
    assert(is_digit(whole[0]) && is_digit(fraction[k - 1]));
    assert(x[0] == whole[0] && x.last() == fraction[k - 1]);
    assert(stands_alone(x));
    assert(none + (x + prefix + unit) + none =~= x + prefix + unit);
    bandwidths_are_number_prefix_and_unit(none, x, prefix, scale, unit, div, none, r);
    digits_behind_the_point_are_tenths(whole, fraction);
    lemma_all_digits(whole, fraction);
    lemma_close(whole + fraction, k, scale, div);
}

proof fn lemma_all_digits(a: Seq<char>, b: Seq<char>)
    requires
        all_digits(a),
        all_digits(b),
    ensures
        all_digits(a + b),
{
    let s = a + b;
    assert forall|i: int| 0 <= i < s.len() implies is_digit(#[trigger] s[i]) by {
        if i < a.len() {
            assert(is_digit(a[i]));
        } else {
            assert(is_digit(b[i - a.len()]));
        }
    }
}

/// A size with digits behind a point is that many of its unit: the whole part, but for one
/// part in 2 to the power of 51.
#[verifier::rlimit(40)]
pub proof fn sizes_with_a_fraction_are_close(
    whole: Seq<char>,
    fraction: Seq<char>,
    unit: Seq<char>,
)
    requires
        all_digits(whole),
        all_digits(fraction),
        whole.len() > 0,
        fraction.len() > 0,
        digits_value(whole + fraction) > 0,
        unit_size(unit) is Some,
        letters_known(whole.push('.') + fraction + unit),
    ensures
        ({
            let r = size_value(whole.push('.') + fraction + unit);
            let den = exp(10, fraction.len() as int);
            let n = digits_value(whole + fraction);
            let scale = unit_size(unit)->0;
            &&& r is Some
            &&& 2_251_799_813_685_248 * (r->0 * (1 * den)) <= 2_251_799_813_685_249 * (n * scale)
            &&& r->0 < u64::MAX ==> 2_251_799_813_685_248 * ((r->0 + 1) * (1 * den))
                >= 2_251_799_813_685_247 * (n * scale)
        }),
{
    let x = whole.push('.') + fraction;
    let s = x + unit;
    let p = x.len() as int;
    let k = fraction.len() as int;
    reveal_strlit("");
    reveal_strlit("B");
    reveal_strlit("K");
    reveal_strlit("KB");
    reveal_strlit("M");
    reveal_strlit("MB");
    reveal_strlit("G");
    reveal_strlit("GB");
    reveal_strlit("T");
    reveal_strlit("TB");
    assert(forall|j: int| 0 <= j < unit.len() ==> 'A' <= #[trigger] unit[j] <= 'Z');
    assert forall|j: int| 0 <= j < p implies !alphabetic(#[trigger] s[j]) by {
        assert(s[j] == x[j]);
        if j < whole.len() {
            assert(is_digit(whole[j]));
        } else if j > whole.len() {
            assert(is_digit(fraction[j - whole.len() - 1]));
        }
    }
    if p < s.len() {
        assert(s[p] == unit[0]);
    }
    lemma_letter_behind_digits(s, 0, p);
    assert(s.take(p) =~= x);
    assert(s.skip(p) =~= unit);
    assert(is_digit(whole[0]) && is_digit(fraction[k - 1]));
    assert(x[0] == whole[0] && x.last() == fraction[k - 1]);
    let none = Seq::<char>::empty();
    assert(none + x + none =~= x);
    assert(none + unit + none =~= unit);
    trimming_leaves_the_text(none, x, none);
    if unit.len() > 0 {
        assert('A' <= unit[0] <= 'Z' && 'A' <= unit[unit.len() - 1] <= 'Z');
    }
    trimming_leaves_the_text(none, unit, none);
    digits_behind_the_point_are_tenths(whole, fraction);
    lemma_all_digits(whole, fraction);
    lemma_close(whole + fraction, k, unit_size(unit)->0, 1);
}

/// What is below zero is a size of none, and no bandwidth.
pub proof fn nothing_is_below_zero(x: Seq<char>, n: Numeral)
    requires
        numeral(x) == Some((true, n)),
        below_zero(true, n),
        forall|i: int| 0 <= i < x.len() ==> !alphabetic(#[trigger] x[i]),
        x.len() > 0,
        !is_space(x[0]) && !is_space(x.last()),
    ensures
        size_value(x) == Some(0int),
{
    lemma_letter_behind_digits(x, 0, x.len() as int);
    assert(x.take(x.len() as int) =~= x);
    let none = Seq::<char>::empty();
    assert(x.skip(x.len() as int) =~= none);
    assert(none + x + none =~= x);
    trimming_leaves_the_text(none, x, none);
    assert(none + none + none =~= none);
    trimming_leaves_the_text(none, none, none);
    reveal_strlit("");
    assert(""@ =~= none);
}

/// A whole number of any length with a prefix and a unit is read closely: the whole part,
/// but for one part in 2 to the power of 51.
pub proof fn long_bandwidths_are_close(
    n: int,
    prefix: Seq<char>,
    scale: int,
    unit: Seq<char>,
    div: int,
    r: Result<u64, BandwidthError>,
)
    requires
        n > 0,
        multiplies(prefix, scale),
        divides(unit, div),
        reads_bandwidth(decimal_text(n) + prefix + unit, r),
    ensures
        r is Ok,
        2_251_799_813_685_248 * (r->Ok_0 * (div * 1)) <= 2_251_799_813_685_249 * (n * scale),
        r->Ok_0 < u64::MAX ==> 2_251_799_813_685_248 * ((r->Ok_0 + 1) * (div * 1))
            >= 2_251_799_813_685_247 * (n * scale),
{
    let x = decimal_text(n);
    let none = Seq::<char>::empty();
    lemma_decimal_text(n);
    assert(is_digit(x[0]) && is_digit(x[x.len() - 1]));
    assert(none + (x + prefix + unit) + none =~= x + prefix + unit);
    bandwidths_are_number_prefix_and_unit(none, x, prefix, scale, unit, div, none, r);
    whole_numbers_are_numerals(n);
    lemma_close(x, 0, scale, div);
    assert(exp(10, 0) == 1);
}

/// Digits with a minus in front are below zero, unless they write nothing.
pub proof fn minus_is_below_zero(digits: Seq<char>, k: int)
    requires
        all_digits(digits),
        0 <= k <= 200,
    ensures
        digits_value(digits) > 0 ==> below_zero(true, Numeral::Finite(digits, -k)),
        digits_value(digits) == 0 ==> !below_zero(true, Numeral::Finite(digits, -k)),
        !below_zero(false, Numeral::Finite(digits, -k)),
{
    lemma_digit_values(digits);
    let n = digits_value(digits);
    assert(exp(10, -k) == 1);
    assert(n * 1 == n);
    lemma_tens(k);
    lemma_exp_pos(2, 1_075);
    lemma_exp_add(2, 4 * k, 1_075 - 4 * k);
    lemma_exp_pos(2, 1_075 - 4 * k);
    let den = exp(10, k);
    if n > 0 {
        assert(exp(2, 1_075) >= 2 * den) by {
            lemma_exp_add(2, 1, 1_074 - 4 * k);
            lemma_exp_pos(2, 1_074 - 4 * k);
            assert(exp(2, 1) == 2) by {
                reveal_with_fuel(exp, 2);
            }
            let x = exp(2, 4 * k);
            let y = exp(2, 1_075 - 4 * k);
            assert(y >= 2);
            assert(x * y >= 2 * den) by (nonlinear_arith)
                requires
                    x >= den,
                    y >= 2,
                    den > 0,
            ;
        }
        assert(n * exp(2, 1_075) >= exp(2, 1_075)) by (nonlinear_arith)
            requires
                n >= 1,
                exp(2, 1_075) > 0,
        ;
    }
}

} // verus!
