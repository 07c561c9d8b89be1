//! Arithmetic of 64-bit binary floating-point numbers, on whole numbers.
//!
//! A decimal text stands for the number with 53 significant bits that is nearest
//! to it. A product of two such numbers is rounded in the same way. What is kept of
//! a product here is its whole part, so that neither the smallest nor the largest
//! exponents of the format make a difference. Quotients of counts and times stay far
//! inside them.

use vstd::prelude::*;

verus! {

/// 2 to the power of 52: the least number with 53 bits.
pub const BITS_53: u64 = 4_503_599_627_370_496;

/// 2 to the power of 53: the least number with 54 bits.
pub const BITS_54: u64 = 9_007_199_254_740_992;

/// `base` to the power of `n`.
pub open spec fn exp(base: int, n: int) -> int
    decreases n,
{
    if n <= 0 {
        1
    } else {
        base * exp(base, n - 1)
    }
}

/// `n / d` to the nearest whole number; halfway between two, to the even one.
pub open spec fn half_even(n: int, d: int) -> int {
    let q = n / d;
    let r = n % d;
    if 2 * r < d {
        q
    } else if 2 * r > d {
        q + 1
    } else if q % 2 == 0 {
        q
    } else {
        q + 1
    }
}

/// The number with 53 significant bits that is nearest to `num / den`, as a whole
/// number and the power of two it is multiplied with.
pub open spec fn nearest(num: int, den: int) -> (int, int)
    decreases
            (if BITS_53 * den <= num && num < BITS_54 * den {
                0int
            } else {
                1int
            }),
            (if num < BITS_53 * den {
                BITS_53 * den - num
            } else {
                num - den
            }),
{
    if num <= 0 || den <= 0 {
        (0, 0)
    } else if num < BITS_53 * den {
        let (s, e) = nearest(2 * num, den);
        (s, e - 1)
    } else if num >= BITS_54 * den {
        let (s, e) = nearest(num, 2 * den);
        (s, e + 1)
    } else {
        (half_even(num, den), 0)
    }
}

/// The whole part of `s` times 2 to the power of `e`, divided by `div`.
pub open spec fn whole_part(s: int, e: int, div: int) -> int {
    if e >= 0 {
        s * exp(2, e) / div
    } else {
        s / (exp(2, -e) * div)
    }
}

/// The whole part of `num / den * scale / div` in floating-point arithmetic, as far
/// as a `u64` holds it.
pub open spec fn scaled_double(num: int, den: int, scale: int, div: int) -> int {
    let (s, e) = nearest(num, den);
    let (t, f) = nearest(s * scale, 1);
    let whole = whole_part(t, e + f, div);
    if whole > u64::MAX {
        u64::MAX as int
    } else {
        whole
    }
}

// ---------------------------------------------------------------------------
// Powers
// ---------------------------------------------------------------------------

/// A power of a positive number is positive.
pub proof fn lemma_exp_pos(base: int, n: int)
    requires
        base > 0,
    ensures
        exp(base, n) > 0,
    decreases n,
{
    if n > 0 {
        lemma_exp_pos(base, n - 1);
        assert(base * exp(base, n - 1) > 0) by (nonlinear_arith)
            requires
                base > 0,
                exp(base, n - 1) > 0,
        ;
    }
}

/// Powers multiply as their exponents add.
pub proof fn lemma_exp_add(base: int, a: int, b: int)
    requires
        a >= 0,
        b >= 0,
    ensures
        exp(base, a + b) == exp(base, a) * exp(base, b),
    decreases a,
{
    if a > 0 {
        lemma_exp_add(base, a - 1, b);
        let x = exp(base, a - 1);
        let y = exp(base, b);
        assert(base * (x * y) == (base * x) * y) by (nonlinear_arith);
    }
}

proof fn lemma_exp_grows(base: int, a: int, b: int)
    requires
        base >= 1,
        a <= b,
    ensures
        exp(base, a) <= exp(base, b),
    decreases b,
{
    if a < b && b > 0 {
        lemma_exp_grows(base, a, b - 1);
        lemma_exp_pos(base, b - 1);
        let x = exp(base, b - 1);
        assert(base * x >= x) by (nonlinear_arith)
            requires
                base >= 1,
                x > 0,
        ;
    }
}

// ---------------------------------------------------------------------------
// Bounds on the nearest number
// ---------------------------------------------------------------------------

/// The nearest number has its bits.
pub proof fn lemma_nearest_bits(num: int, den: int)
    requires
        num > 0,
        den > 0,
    ensures
        BITS_53 <= nearest(num, den).0 <= BITS_54,
    decreases
            (if BITS_53 * den <= num && num < BITS_54 * den {
                0int
            } else {
                1int
            }),
            (if num < BITS_53 * den {
                BITS_53 * den - num
            } else {
                num - den
            }),
{
    if num < BITS_53 * den {
        lemma_nearest_bits(2 * num, den);
    } else if num >= BITS_54 * den {
        lemma_nearest_bits(num, 2 * den);
    } else {
        let q = num / den;
        let a = BITS_53 as int;
        let b = BITS_54 as int;
        assert(a <= q && q < b) by (nonlinear_arith)
            requires
                q == num / den,
                den > 0,
                a * den <= num,
                num < b * den,
        ;
    }
}

proof fn lemma_exponent_not_negative(num: int, den: int)
    requires
        den > 0,
        num >= BITS_53 * den,
    ensures
        nearest(num, den).1 >= 0,
    decreases num - den,
{
    if num >= BITS_54 * den {
        lemma_exponent_not_negative(num, 2 * den);
    }
}

proof fn lemma_exponent_not_positive(num: int, den: int)
    requires
        den > 0,
        num < BITS_54 * den,
    ensures
        nearest(num, den).1 <= 0,
    decreases BITS_54 * den - num,
{
    if num > 0 && num < BITS_53 * den {
        lemma_exponent_not_positive(2 * num, den);
    }
}

proof fn lemma_exponent_at_least(num: int, den: int, k: int)
    requires
        den > 0,
        k >= 0,
        num >= BITS_53 * exp(2, k) * den,
    ensures
        nearest(num, den).1 >= k,
    decreases k,
{
    lemma_exp_pos(2, k);
    if k == 0 {
        lemma_exponent_not_negative(num, den);
    } else {
        let x = exp(2, k - 1);
        lemma_exp_pos(2, k - 1);
        assert(exp(2, k) == 2 * x);
        assert(BITS_53 * (2 * x) * den == BITS_53 * x * (2 * den)) by (nonlinear_arith);
        assert(BITS_53 * x * (2 * den) >= BITS_54 * den) by (nonlinear_arith)
            requires
                x >= 1,
                den > 0,
                BITS_54 == 2 * BITS_53,
                BITS_53 > 0,
        ;
        lemma_exponent_at_least(num, 2 * den, k - 1);
    }
}

proof fn lemma_exponent_at_most(num: int, den: int, k: int)
    requires
        den > 0,
        k >= 0,
        num < BITS_54 * exp(2, k) * den,
    ensures
        nearest(num, den).1 <= k,
    decreases k,
{
    if k == 0 {
        lemma_exponent_not_positive(num, den);
    } else if num >= BITS_54 * den {
        let x = exp(2, k - 1);
        assert(exp(2, k) == 2 * x);
        assert(BITS_54 * (2 * x) * den == BITS_54 * x * (2 * den)) by (nonlinear_arith);
        lemma_exponent_at_most(num, 2 * den, k - 1);
    } else {
        lemma_exponent_not_positive(num, den);
    }
}

proof fn lemma_exponent_below(num: int, den: int, k: int)
    requires
        num > 0,
        den > 0,
        k >= 0,
        num * exp(2, k) < BITS_53 * den,
    ensures
        nearest(num, den).1 < -k,
    decreases k,
{
    if k == 0 {
        lemma_exponent_not_positive(2 * num, den);
    } else {
        let x = exp(2, k - 1);
        lemma_exp_pos(2, k - 1);
        assert(exp(2, k) == 2 * x);
        assert(num * (2 * x) == (2 * num) * x) by (nonlinear_arith);
        assert((2 * num) * x >= num) by (nonlinear_arith)
            requires
                x >= 1,
                num > 0,
        ;
        lemma_exponent_below(2 * num, den, k - 1);
    }
}

/// From 2 to the power of 68 on, the whole part is beyond a `u64`.
pub proof fn lemma_saturates(num: int, den: int, scale: int, div: int)
    requires
        den > 0,
        num >= 295_147_905_179_352_825_856 * den,
        1 <= scale,
        1 <= div <= 8,
    ensures
        scaled_double(num, den, scale, div) == u64::MAX,
{
    let (s, e) = nearest(num, den);
    assert(exp(2, 16) == 65_536) by {
        reveal_with_fuel(exp, 17);
    }
    assert(num >= BITS_53 * exp(2, 16) * den);
    lemma_exponent_at_least(num, den, 16);
    lemma_nearest_bits(num, den);
    assert(s * scale >= s) by (nonlinear_arith)
        requires
            s > 0,
            scale >= 1,
    ;
    let (t, f) = nearest(s * scale, 1);
    lemma_exponent_not_negative(s * scale, 1);
    lemma_nearest_bits(s * scale, 1);
    let p = exp(2, e + f);
    lemma_exp_grows(2, 16, e + f);
    assert(t * p >= BITS_53 * 65_536) by (nonlinear_arith)
        requires
            t >= BITS_53,
            p >= 65_536,
    ;
    assert(t * p / div >= 0x1_0000_0000_0000_0000) by (nonlinear_arith)
        requires
            t * p >= 295_147_905_179_352_825_856,
            1 <= div <= 8,
    ;
}

/// Below 2 to the power of -48, the whole part is zero.
pub proof fn lemma_vanishes(num: int, den: int, scale: int, div: int)
    requires
        num > 0,
        den > 0,
        num * exp(2, 100) < BITS_53 * den,
        1 <= scale <= 1_099_511_627_776,
        1 <= div,
    ensures
        scaled_double(num, den, scale, div) == 0,
{
    let (s, e) = nearest(num, den);
    lemma_exponent_below(num, den, 100);
    lemma_nearest_bits(num, den);
    let m = s * scale;
    assert(s <= m && m <= BITS_54 * 1_099_511_627_776) by (nonlinear_arith)
        requires
            m == s * scale,
            0 < s <= BITS_54,
            1 <= scale <= 1_099_511_627_776,
    ;
    assert(exp(2, 41) == 2_199_023_255_552) by {
        reveal_with_fuel(exp, 42);
    }
    let (t, f) = nearest(m, 1);
    lemma_exponent_at_most(m, 1, 41);
    lemma_nearest_bits(m, 1);
    let g = -(e + f);
    assert(g >= 60);
    lemma_exp_grows(2, 54, g);
    assert(exp(2, 54) == 2 * BITS_54) by {
        reveal_with_fuel(exp, 55);
    }
    let d = exp(2, g) * div;
    assert(d >= exp(2, g)) by (nonlinear_arith)
        requires
            d == exp(2, g) * div,
            exp(2, g) > 0,
            div >= 1,
    ;
    assert(t / d == 0) by (nonlinear_arith)
        requires
            0 <= t < d,
    ;
}

// ---------------------------------------------------------------------------
// Rounding
// ---------------------------------------------------------------------------

/// Rounds `whole` and a fraction `part / den` behind it to 53 bits.
fn round_bits(whole: u128, Ghost(part): Ghost<int>, Ghost(den): Ghost<int>, sticky: bool) -> (r: (
    u64,
    u32,
))
    requires
        whole >= BITS_53,
        0 <= part < den,
        sticky == (part > 0),
        sticky ==> whole >= BITS_54,
    ensures
        nearest(whole * den + part, den) == (r.0 as int, r.1 as int),
        r.1 < 128,
{
    let ghost num = whole * den + part;
    let mut q: u128 = whole;
    let mut t: u32 = 0;
    let mut last = false;
    let mut below = false;
    let mut rest = sticky;
    let ghost mut d: int = den;
    let ghost mut rem: int = part;
    proof {
        assert(whole * den >= BITS_53 * den) by (nonlinear_arith)
            requires
                whole >= BITS_53,
                den > 0,
        ;
    }
    while q >= BITS_54 as u128
        invariant
            num == q * d + rem,
            num >= BITS_53 * den,
            0 <= rem < d,
            0 < den <= d,
            rest == (rem > 0),
            q >= BITS_53,
            sticky == (part > 0),
            sticky ==> whole >= BITS_54,
            t == 0 ==> whole == q && rem == part && !last,
            t > 0 ==> last == (2 * rem >= d) && (last ==> below == (2 * rem > d)),
            nearest(num, den) == (nearest(num, d).0, nearest(num, d).1 + t),
            q * exp(2, t as int) <= whole,
            t < 128,
        decreases q,
    {
        let bit: u128 = q % 2;
        let half: u128 = q / 2;
        proof {
            let q0 = q as int;
            let d0 = d;
            let h = half as int;
            let b = bit as int;
            assert(q0 == 2 * h + b);
            assert(q0 * d0 == h * (2 * d0) + b * d0) by (nonlinear_arith)
                requires
                    q0 == 2 * h + b,
            ;
            assert(b * d0 == if b == 1 {
                d0
            } else {
                0
            }) by (nonlinear_arith)
                requires
                    b == 0 || b == 1,
            ;
            assert(num >= BITS_54 * d0) by (nonlinear_arith)
                requires
                    num == q0 * d0 + rem,
                    q0 >= BITS_54,
                    d0 > 0,
                    rem >= 0,
            ;
            assert(nearest(num, d0) == (nearest(num, 2 * d0).0, nearest(num, 2 * d0).1 + 1));
            let x = exp(2, t as int);
            lemma_exp_pos(2, t as int);
            assert(exp(2, t + 1) == 2 * x);
            assert(h * (2 * x) <= q0 * x) by (nonlinear_arith)
                requires
                    q0 == 2 * h + b,
                    b >= 0,
                    x > 0,
            ;
            if t >= 126 {
                lemma_exp_grows(2, 75, t as int);
                assert(exp(2, 75) == 37_778_931_862_957_161_709_568) by {
                    reveal_with_fuel(exp, 76);
                }
                assert(q0 * x >= 9_007_199_254_740_992 * 37_778_931_862_957_161_709_568)
                    by (nonlinear_arith)
                    requires
                        q0 >= 9_007_199_254_740_992,
                        x >= 37_778_931_862_957_161_709_568,
                ;
                assert(false);
            }
            rem = b * d0 + rem;
            d = 2 * d0;
        }
        last = bit == 1;
        below = rest;
        rest = last || rest;
        q = half;
        t = t + 1;
    }
    proof {
        assert(num >= BITS_53 * d && num < BITS_54 * d) by (nonlinear_arith)
            requires
                num == q * d + rem,
                BITS_53 <= q < BITS_54,
                0 <= rem < d,
                BITS_54 == 2 * BITS_53,
        ;
        assert(num / d == q && num % d == rem) by {
            vstd::arithmetic::div_mod::lemma_fundamental_div_mod_converse(
                num,
                d,
                q as int,
                rem,
            );
        }
        assert(nearest(num, d) == (half_even(num, d), 0int));
    }
    let s: u64 = q as u64;
    if last && (below || s % 2 == 1) {
        (s + 1, t)
    } else {
        (s, t)
    }
}

fn power_of_two(n: u32) -> (r: u128)
    requires
        n < 128,
    ensures
        r == exp(2, n as int),
{
    let mut r: u128 = 1;
    let mut i: u32 = 0;
    while i < n
        invariant
            i <= n < 128,
            r == exp(2, i as int),
        decreases n - i,
    {
        proof {
            lemma_exp_grows(2, i + 1, 127);
            assert(exp(2, 127) == 170_141_183_460_469_231_731_687_303_715_884_105_728) by {
                lemma_exp_add(2, 64, 63);
                assert(exp(2, 64) == 18_446_744_073_709_551_616) by {
                    reveal_with_fuel(exp, 65);
                }
                assert(exp(2, 63) == 9_223_372_036_854_775_808) by {
                    reveal_with_fuel(exp, 64);
                }
            }
        }
        r = r * 2;
        i = i + 1;
    }
    r
}

/// The whole part of `t` times 2 to the power of `g`, divided by `div`.
fn take_whole(t: u64, g: i64, div: u64) -> (r: u128)
    requires
        t <= BITS_54,
        -1_000 <= g <= 60,
        1 <= div <= 8,
    ensures
        r == whole_part(t as int, g as int, div as int),
{
    if g >= 0 {
        let p = power_of_two(g as u32);
        proof {
            lemma_exp_grows(2, g as int, 60);
            assert(exp(2, 60) == 1_152_921_504_606_846_976) by {
                reveal_with_fuel(exp, 61);
            }
            assert(0 <= t * p <= BITS_54 * 1_152_921_504_606_846_976) by (nonlinear_arith)
                requires
                    0 <= t <= BITS_54,
                    0 <= p <= 1_152_921_504_606_846_976,
            ;
        }
        t as u128 * p / div as u128
    } else if g < -60 {
        proof {
            let x = exp(2, -(g as int));
            lemma_exp_grows(2, 60, -(g as int));
            assert(exp(2, 60) == 1_152_921_504_606_846_976) by {
                reveal_with_fuel(exp, 61);
            }
            assert(x * div >= x) by (nonlinear_arith)
                requires
                    x >= 0,
                    div >= 1,
            ;
            vstd::arithmetic::div_mod::lemma_basic_div(t as int, x * div);
        }
        0
    } else {
        let p = power_of_two((-g) as u32);
        proof {
            lemma_exp_pos(2, -(g as int));
            lemma_exp_grows(2, -(g as int), 60);
            assert(exp(2, 60) == 1_152_921_504_606_846_976) by {
                reveal_with_fuel(exp, 61);
            }
            assert(0 < p * div <= 1_152_921_504_606_846_976 * 8) by (nonlinear_arith)
                requires
                    0 < p <= 1_152_921_504_606_846_976,
                    1 <= div <= 8,
            ;
        }
        t as u128 / (p * div as u128)
    }
}

/// Multiplies `s` times 2 to the power of `e` with `scale`, divides by `div`, and
/// takes the whole part.
fn finish(s: u64, e: i64, scale: u64, div: u64) -> (r: u64)
    requires
        BITS_53 <= s <= BITS_54,
        -100 <= e <= 16,
        1 <= scale <= 1_099_511_627_776,
        1 <= div <= 8,
    ensures
        r == ({
            let (t, f) = nearest(s * scale, 1);
            let whole = whole_part(t, e + f, div as int);
            if whole > u64::MAX {
                u64::MAX as int
            } else {
                whole
            }
        }),
{
    proof {
        assert(s <= s * scale && s * scale <= BITS_54 * 1_099_511_627_776) by (nonlinear_arith)
            requires
                0 < s <= BITS_54,
                1 <= scale <= 1_099_511_627_776,
        ;
    }
    let m: u128 = s as u128 * scale as u128;
    let (t, f) = round_bits(m, Ghost(0), Ghost(1), false);
    proof {
        assert(m * 1 + 0 == s * scale);
        assert(exp(2, 41) == 2_199_023_255_552) by {
            reveal_with_fuel(exp, 42);
        }
        lemma_exponent_at_most(s * scale, 1, 41);
        lemma_nearest_bits(s * scale, 1);
        assert(t <= BITS_54 && f <= 41);
    }
    let whole: u128 = take_whole(t, e + f as i64, div);
    if whole > u64::MAX as u128 {
        u64::MAX
    } else {
        whole as u64
    }
}

// ---------------------------------------------------------------------------
// Decimal digits
// ---------------------------------------------------------------------------

/// The number that digits write, the most significant first.
pub open spec fn value(digits: Seq<u8>) -> int
    decreases digits.len(),
{
    if digits.len() == 0 {
        0
    } else {
        value(digits.drop_last()) * 10 + digits.last()
    }
}

/// Whether each is a digit.
pub open spec fn are_digits(digits: Seq<u8>) -> bool {
    forall|i: int| 0 <= i < digits.len() ==> #[trigger] digits[i] <= 9
}

proof fn lemma_value_bound(digits: Seq<u8>)
    requires
        are_digits(digits),
    ensures
        0 <= value(digits) < exp(10, digits.len() as int),
    decreases digits.len(),
{
    if digits.len() > 0 {
        lemma_value_bound(digits.drop_last());
    }
}

proof fn lemma_value_add(a: Seq<u8>, b: Seq<u8>)
    ensures
        value(a + b) == value(a) * exp(10, b.len() as int) + value(b),
    decreases b.len(),
{
    if b.len() == 0 {
        assert(a + b =~= a);
    } else {
        lemma_value_add(a, b.drop_last());
        assert((a + b).drop_last() =~= a + b.drop_last());
        let x = value(a);
        let y = exp(10, b.len() - 1);
        assert((x * y) * 10 == x * (10 * y)) by (nonlinear_arith);
    }
}

proof fn lemma_value_zeros(zeros: Seq<u8>)
    requires
        forall|i: int| 0 <= i < zeros.len() ==> #[trigger] zeros[i] == 0,
    ensures
        value(zeros) == 0,
    decreases zeros.len(),
{
    if zeros.len() > 0 {
        lemma_value_zeros(zeros.drop_last());
    }
}

fn is_zero(digits: &Vec<u8>) -> (r: bool)
    requires
        are_digits(digits@),
    ensures
        r == (value(digits@) == 0),
{
    let mut i: usize = 0;
    assert(digits@.take(0) =~= seq![]);
    while i < digits.len()
        invariant
            i <= digits@.len(),
            are_digits(digits@),
            value(digits@.take(i as int)) == 0,
        decreases digits@.len() - i,
    {
        let ghost head = digits@.take(i + 1);
        assert(head.drop_last() =~= digits@.take(i as int));
        if digits[i] != 0 {
            proof {
                let tail = digits@.skip(i + 1);
                assert(digits@ =~= head + tail);
                lemma_value_add(head, tail);
                lemma_value_bound(tail);
                lemma_exp_pos(10, tail.len() as int);
                assert(value(head) * exp(10, tail.len() as int) > 0) by (nonlinear_arith)
                    requires
                        value(head) > 0,
                        exp(10, tail.len() as int) > 0,
                ;
            }
            return false;
        }
        i = i + 1;
    }
    assert(digits@.take(digits@.len() as int) =~= digits@);
    true
}

/// Doubles the number that `digits` write, and returns what does not fit.
fn double_digits(digits: &mut Vec<u8>) -> (carry: u8)
    requires
        are_digits(old(digits)@),
    ensures
        are_digits(final(digits)@),
        final(digits)@.len() == old(digits)@.len(),
        carry <= 1,
        2 * value(old(digits)@) == carry * exp(10, old(digits)@.len() as int) + value(
            final(digits)@,
        ),
{
    let n: usize = digits.len();
    let mut i: usize = n;
    let mut carry: u8 = 0;
    let ghost before = digits@;
    proof {
        assert(before.skip(n as int) =~= seq![]);
    }
    while i > 0
        invariant
            i <= n,
            n == before.len(),
            digits@.len() == n,
            are_digits(before),
            are_digits(digits@),
            carry <= 1,
            digits@.take(i as int) == before.take(i as int),
            2 * value(before.skip(i as int)) == carry * exp(10, n - i) + value(
                digits@.skip(i as int),
            ),
        decreases i,
    {
        i = i - 1;
        let ghost was = digits@;
        let ghost c = carry as int;
        assert(digits@[i as int] == digits@.take(i + 1)[i as int]);
        assert(before[i as int] == before.take(i + 1)[i as int]);
        let d: u8 = digits[i] * 2 + carry;
        let low: u8 = d % 10;
        digits.set(i, low);
        carry = d / 10;
        proof {
            let a = before[i as int] as int;
            let old_tail = before.skip(i + 1);
            let new_tail = was.skip(i + 1);
            assert(before.skip(i as int) =~= seq![before[i as int]] + old_tail);
            assert(digits@.skip(i as int) =~= seq![low] + new_tail);
            lemma_value_add(seq![before[i as int]], old_tail);
            lemma_value_add(seq![low], new_tail);
            assert(value(seq![before[i as int]]) == a) by {
                reveal_with_fuel(value, 2);
                assert(seq![before[i as int]].drop_last() =~= seq![]);
            }
            assert(value(seq![low]) == low) by {
                reveal_with_fuel(value, 2);
                assert(seq![low].drop_last() =~= seq![]);
            }
            let x = exp(10, n - i - 1);
            assert(exp(10, n - i) == 10 * x);
            assert(2 * a + c == 10 * carry + low);
            assert(2 * (a * x + value(old_tail)) == carry * (10 * x) + (low * x + value(new_tail)))
                by (nonlinear_arith)
                requires
                    2 * a + c == 10 * carry + low,
                    2 * value(old_tail) == c * x + value(new_tail),
            ;
            assert(digits@.take(i as int) =~= before.take(i as int));
        }
    }
    assert(before.skip(0) =~= before);
    assert(digits@.skip(0) =~= digits@);
    carry
}

/// The numerator of a number written by `digits` and a power of ten.
pub open spec fn decimal_num(digits: Seq<u8>, power: int) -> int {
    value(digits) * exp(10, power)
}

/// The denominator of a number written by digits and a power of ten.
pub open spec fn decimal_den(power: int) -> int {
    exp(10, -power)
}

/// Rounds a whole number below 2 to the power of 53 and the decimal fraction behind
/// it to 53 bits; nothing where they are below 2 to the power of -48.
fn round_fraction(whole: u64, fraction: Vec<u8>) -> (r: Option<(u64, u32)>)
    requires
        whole < BITS_54,
        are_digits(fraction@),
        whole > 0 || value(fraction@) > 0,
    ensures
        ({
            let den = exp(10, fraction@.len() as int);
            let num = whole * den + value(fraction@);
            match r {
                Some((s, k)) => nearest(num, den) == (s as int, -(k as int)) && k <= 100,
                None => num > 0 && num * exp(2, 100) < BITS_53 * den,
            }
        }),
{
    let ghost den = exp(10, fraction@.len() as int);
    let ghost num = whole * den + value(fraction@);
    let ghost n = fraction@.len() as int;
    let mut acc: u64 = whole;
    let mut frac = fraction;
    let mut k: u32 = 0;
    proof {
        lemma_exp_pos(10, n);
        lemma_value_bound(frac@);
        assert(whole * den + value(fraction@) > 0) by (nonlinear_arith)
            requires
                whole > 0 || value(fraction@) > 0,
                whole >= 0,
                value(fraction@) >= 0,
                den > 0,
        ;
    }
    while acc < BITS_53 && k < 100
        invariant
            acc < BITS_54,
            k <= 100,
            are_digits(frac@),
            frac@.len() == n,
            den == exp(10, n),
            den > 0,
            num > 0,
            num * exp(2, k as int) == acc * den + value(frac@),
            0 <= value(frac@) < den,
            nearest(num, den) == (
                nearest(num * exp(2, k as int), den).0,
                nearest(num * exp(2, k as int), den).1 - k,
            ),
        decreases 100 - k,
    {
        let ghost frac0 = frac@;
        let ghost acc0 = acc as int;
        let ghost m = num * exp(2, k as int);
        let carry = double_digits(&mut frac);
        acc = acc * 2 + carry as u64;
        proof {
            lemma_value_bound(frac@);
            lemma_exp_pos(2, k as int);
            let x = exp(2, k as int);
            assert(exp(2, k + 1) == 2 * x);
            assert(num * (2 * x) == 2 * (num * x)) by (nonlinear_arith);
            assert(acc * den == 2 * (acc0 * den) + carry * den) by (nonlinear_arith)
                requires
                    acc == 2 * acc0 + carry,
            ;
            assert(m > 0) by (nonlinear_arith)
                requires
                    m == num * x,
                    num > 0,
                    x > 0,
            ;
            assert(m < BITS_53 * den) by (nonlinear_arith)
                requires
                    m == acc0 * den + value(frac0),
                    acc0 < BITS_53,
                    value(frac0) < den,
                    den > 0,
            ;
            assert(nearest(m, den) == (nearest(2 * m, den).0, nearest(2 * m, den).1 - 1));
        }
        k = k + 1;
    }
    if acc < BITS_53 {
        proof {
            assert(acc * den + value(frac@) < BITS_53 * den) by (nonlinear_arith)
                requires
                    acc < BITS_53,
                    value(frac@) < den,
                    den > 0,
            ;
        }
        return None;
    }
    let ghost m = num * exp(2, k as int);
    let ghost rem = value(frac@);
    let last = double_digits(&mut frac);
    let below = !is_zero(&frac);
    proof {
        lemma_value_bound(frac@);
        assert(m >= BITS_53 * den && m < BITS_54 * den) by (nonlinear_arith)
            requires
                m == acc * den + rem,
                BITS_53 <= acc < BITS_54,
                0 <= rem < den,
                BITS_54 == 2 * BITS_53,
        ;
        vstd::arithmetic::div_mod::lemma_fundamental_div_mod_converse(m, den, acc as int, rem);
        assert(nearest(m, den) == (half_even(m, den), 0int));
        assert(last * den == if last == 1 {
            den
        } else {
            0
        }) by (nonlinear_arith)
            requires
                last == 0 || last == 1,
        ;
    }
    if last == 1 && (below || acc % 2 == 1) {
        Some((acc + 1, k))
    } else {
        Some((acc, k))
    }
}

/// Whether `power` stands for `exact`: it is the same, or both are far out on the
/// same side.
pub open spec fn stands_for(power: i128, exact: int) -> bool {
    ||| power == exact
    ||| power >= 0x1_0000_0000_0000_0000_0000_0000 && exact >= 0x1_0000_0000_0000_0000_0000_0000
    ||| power <= -0x1_0000_0000_0000_0000_0000_0000 && exact <= -0x1_0000_0000_0000_0000_0000_0000
}

/// The digits before and behind the point of the number that `digits` and a power
/// of ten write.
fn place_point(digits: &Vec<u8>, power: i128) -> (r: (Vec<u8>, Vec<u8>))
    requires
        are_digits(digits@),
        -400 - digits@.len() <= power <= 400,
    ensures
        are_digits(r.0@),
        are_digits(r.1@),
        exp(10, r.1@.len() as int) == decimal_den(power as int),
        value(r.0@) * exp(10, r.1@.len() as int) + value(r.1@) == decimal_num(
            digits@,
            power as int,
        ),
{
    let n: usize = digits.len();
    let mut head: Vec<u8> = Vec::new();
    let mut tail: Vec<u8> = Vec::new();
    proof {
        assert(digits@.subrange(0, n as int) =~= digits@);
    }
    if power >= 0 {
        head = copy_digits(digits, 0, n);
        push_zeros(&mut head, power as usize);
        assert(exp(10, tail@.len() as int) == 1 && value(tail@) == 0);
    } else if -power >= n as i128 {
        push_zeros(&mut tail, (-power - n as i128) as usize);
        let mut all = copy_digits(digits, 0, n);
        let ghost zeros = tail@;
        tail.append(&mut all);
        proof {
            lemma_value_add(zeros, digits@);
            assert(value(zeros) * exp(10, n as int) == 0) by (nonlinear_arith)
                requires
                    value(zeros) == 0,
            ;
            assert(value(head@) == 0);
            assert(value(head@) * exp(10, tail@.len() as int) == 0) by (nonlinear_arith)
                requires
                    value(head@) == 0,
            ;
        }
    } else {
        let split: usize = n - (-power) as usize;
        head = copy_digits(digits, 0, split);
        tail = copy_digits(digits, split, n);
        proof {
            assert(digits@ =~= head@ + tail@);
            lemma_value_add(head@, tail@);
        }
    }
    proof {
        if power < 0 {
            assert(exp(10, power as int) == 1);
            assert(tail@.len() == -power);
            assert(value(digits@) == value(head@) * exp(10, tail@.len() as int) + value(tail@));
        }
    }
    (head, tail)
}

/// The whole part of the number that `digits` and a power of ten write, times
/// `scale` and divided by `div`, in floating-point arithmetic.
pub fn scale_decimal(
    digits: &Vec<u8>,
    power: i128,
    Ghost(exact): Ghost<int>,
    scale: u64,
    div: u64,
) -> (r: u64)
    requires
        are_digits(digits@),
        stands_for(power, exact),
        1 <= scale <= 1_099_511_627_776,
        1 <= div <= 8,
    ensures
        r == scaled_double(
            decimal_num(digits@, exact),
            decimal_den(exact),
            scale as int,
            div as int,
        ),
{
    let ghost num = decimal_num(digits@, exact);
    let ghost den = decimal_den(exact);
    if is_zero(digits) {
        assert(num == 0);
        assert(nearest(0, den) == (0int, 0int));
        assert(0 * scale == 0);
        assert(nearest(0, 1) == (0int, 0int));
        assert(whole_part(0, 0, div as int) == 0) by {
            assert(0 * exp(2, 0) == 0);
            assert(0int / (div as int) == 0) by (nonlinear_arith)
                requires
                    div > 0,
            ;
        }
        return 0;
    }
    proof {
        lemma_value_bound(digits@);
        lemma_exp_pos(10, exact);
        lemma_exp_pos(10, -exact);
    }
    let n: usize = digits.len();
    if power >= 21 {
        proof {
            assert(exp(10, 21) == 1_000_000_000_000_000_000_000) by {
                reveal_with_fuel(exp, 22);
            }
            lemma_exp_grows(10, 21, exact);
            assert(num >= 1_000_000_000_000_000_000_000) by (nonlinear_arith)
                requires
                    num == value(digits@) * exp(10, exact),
                    value(digits@) >= 1,
                    exp(10, exact) >= 1_000_000_000_000_000_000_000,
            ;
            assert(den == 1);
            lemma_saturates(num, den, scale as int, div as int);
        }
        return u64::MAX;
    }
    if power <= -21 - n as i128 {
        proof {
            assert(exp(10, exact) == 1);
            assert(num == value(digits@));
            lemma_exp_grows(10, n + 21, -exact);
            lemma_exp_add(10, n as int, 21);
            assert(exp(10, 21) == 1_000_000_000_000_000_000_000) by {
                reveal_with_fuel(exp, 22);
            }
            lemma_exp_add(2, 50, 50);
            assert(exp(2, 50) == 1_125_899_906_842_624) by {
                reveal_with_fuel(exp, 51);
            }
            let ten_n = exp(10, n as int);
            let big = exp(2, 100);
            assert(num * big < BITS_53 * den) by (nonlinear_arith)
                requires
                    0 < num < ten_n,
                    big == 1_125_899_906_842_624 * 1_125_899_906_842_624,
                    den >= ten_n * 1_000_000_000_000_000_000_000,
                    BITS_53 == 4_503_599_627_370_496,
            ;
            lemma_vanishes(num, den, scale as int, div as int);
        }
        return 0;
    }
    let (head, tail) = place_point(digits, power);
    assert(den == exp(10, tail@.len() as int));
    assert(num == value(head@) * den + value(tail@));
    match whole_number(&head) {
        None => {
            proof {
                lemma_value_bound(tail@);
                assert(num >= 295_147_905_179_352_825_856 * den) by (nonlinear_arith)
                    requires
                        num == value(head@) * den + value(tail@),
                        value(head@) >= 295_147_905_179_352_825_856,
                        value(tail@) >= 0,
                        den > 0,
                ;
                lemma_saturates(num, den, scale as int, div as int);
            }
            u64::MAX
        },
        Some(whole) => {
            proof {
                lemma_value_bound(tail@);
            }
            if whole >= BITS_54 as u128 {
                let sticky = !is_zero(&tail);
                let (s, e) = round_bits(whole, Ghost(value(tail@)), Ghost(den), sticky);
                proof {
                    assert(exp(2, 15) == 32_768) by {
                        reveal_with_fuel(exp, 16);
                    }
                    assert(num < BITS_54 * exp(2, 15) * den) by (nonlinear_arith)
                        requires
                            num == whole * den + value(tail@),
                            whole < 295_147_905_179_352_825_856,
                            value(tail@) < den,
                            den > 0,
                            exp(2, 15) == 32_768,
                            BITS_54 == 9_007_199_254_740_992,
                    ;
                    lemma_exponent_at_most(num, den, 15);
                    assert(num > 0) by (nonlinear_arith)
                        requires
                            num == whole * den + value(tail@),
                            whole > 0,
                            value(tail@) >= 0,
                            den > 0,
                    ;
                    lemma_nearest_bits(num, den);
                }
                finish(s, e as i64, scale, div)
            } else {
                proof {
                    if whole == 0 && value(tail@) == 0 {
                        assert(0 * den == 0);
                        assert(num == 0);
                        assert(value(digits@) * exp(10, exact) > 0) by (nonlinear_arith)
                            requires
                                value(digits@) > 0,
                                exp(10, exact) > 0,
                        ;
                    }
                }
                match round_fraction(whole as u64, tail) {
                    Some((s, k)) => {
                        proof {
                            assert(num > 0) by (nonlinear_arith)
                                requires
                                    num == value(digits@) * exp(10, exact),
                                    value(digits@) > 0,
                                    exp(10, exact) > 0,
                            ;
                            lemma_nearest_bits(num, den);
                        }
                        finish(s, -(k as i64), scale, div)
                    },
                    None => {
                        proof {
                            lemma_vanishes(num, den, scale as int, div as int);
                        }
                        0
                    },
                }
            }
        },
    }
}

/// Whether a number is so far from zero that the format tells it apart from zero.
pub open spec fn not_rounded_to_zero(num: int, den: int) -> bool {
    num * exp(2, 1075) > den
}

proof fn lemma_thirteen_bits(j: int)
    requires
        j >= 0,
    ensures
        exp(2, 13 * j) <= exp(10, 4 * j),
    decreases j,
{
    if j > 0 {
        lemma_thirteen_bits(j - 1);
        lemma_exp_add(2, 13, 13 * (j - 1));
        lemma_exp_add(10, 4, 4 * (j - 1));
        assert(exp(2, 13) == 8_192) by {
            reveal_with_fuel(exp, 14);
        }
        assert(exp(10, 4) == 10_000) by {
            reveal_with_fuel(exp, 5);
        }
        lemma_exp_pos(2, 13 * (j - 1));
    }
}

/// Whether the number that `digits` and a power of ten write is told apart from
/// zero.
pub fn differs_from_zero(digits: &Vec<u8>, power: i128, Ghost(exact): Ghost<int>) -> (r: bool)
    requires
        are_digits(digits@),
        stands_for(power, exact),
    ensures
        r == not_rounded_to_zero(decimal_num(digits@, exact), decimal_den(exact)),
{
    let ghost num = decimal_num(digits@, exact);
    let ghost den = decimal_den(exact);
    let n: usize = digits.len();
    proof {
        lemma_exp_pos(10, exact);
        lemma_exp_pos(10, -exact);
        lemma_exp_pos(2, 1075);
        lemma_value_bound(digits@);
    }
    if is_zero(digits) {
        assert(num == 0);
        assert(0 * exp(2, 1075) == 0);
        return false;
    }
    proof {
        assert(num > 0) by (nonlinear_arith)
            requires
                num == value(digits@) * exp(10, exact),
                value(digits@) > 0,
                exp(10, exact) > 0,
        ;
    }
    if power >= 0 {
        proof {
            assert(den == 1);
            lemma_exp_grows(2, 1, 1075);
            reveal_with_fuel(exp, 2);
            let big = exp(2, 1075);
            assert(num * big > 1) by (nonlinear_arith)
                requires
                    num >= 1,
                    big >= 2,
            ;
        }
        return true;
    }
    if power <= -340 - n as i128 {
        proof {
            assert(exp(10, exact) == 1);
            lemma_thirteen_bits(83);
            lemma_exp_grows(2, 1075, 1079);
            lemma_exp_grows(10, 332, 340);
            lemma_exp_grows(10, n + 340, -exact);
            lemma_exp_add(10, n as int, 340);
            let a = exp(10, n as int);
            let b = exp(10, 340);
            let big = exp(2, 1075);
            assert(num * big <= a * b) by (nonlinear_arith)
                requires
                    0 < num < a,
                    0 < big <= b,
            ;
        }
        return false;
    }
    let (head, mut tail) = place_point(digits, power);
    let ghost len = tail@.len() as int;
    assert(den == exp(10, len));
    assert(num == value(head@) * den + value(tail@));
    proof {
        lemma_value_bound(head@);
        lemma_value_bound(tail@);
    }
    if !is_zero(&head) {
        proof {
            lemma_exp_grows(2, 1, 1075);
            reveal_with_fuel(exp, 2);
            let big = exp(2, 1075);
            assert(num >= den) by (nonlinear_arith)
                requires
                    num == value(head@) * den + value(tail@),
                    value(head@) >= 1,
                    value(tail@) >= 0,
                    den > 0,
            ;
            assert(num * big > den) by (nonlinear_arith)
                requires
                    num >= den,
                    den > 0,
                    big >= 2,
            ;
        }
        return true;
    }
    assert(0 * den == 0);
    let mut one = false;
    let mut k: u32 = 0;
    while k < 1075
        invariant
            k <= 1075,
            num == decimal_num(digits@, exact),
            den == decimal_den(exact),
            den > 0,
            den == exp(10, len),
            num > 0,
            are_digits(tail@),
            tail@.len() == len,
            0 <= value(tail@) < den,
            num * exp(2, k as int) == (if one {
                den
            } else {
                0
            }) + value(tail@),
        decreases 1075 - k,
    {
        let carry = double_digits(&mut tail);
        proof {
            lemma_value_bound(tail@);
            let x = exp(2, k as int);
            assert(exp(2, k + 1) == 2 * x);
            assert(num * (2 * x) == 2 * (num * x)) by (nonlinear_arith);
            assert(carry * den == if carry == 1 {
                den
            } else {
                0
            }) by (nonlinear_arith)
                requires
                    carry == 0 || carry == 1,
            ;
        }
        k = k + 1;
        if one {
            proof {
                lemma_exp_grows(2, k as int, 1075);
                let big = exp(2, 1075);
                let x = exp(2, k as int);
                assert(num * big >= num * x) by (nonlinear_arith)
                    requires
                        big >= x,
                        num > 0,
                ;
            }
            return true;
        }
        one = carry == 1;
    }
    one && !is_zero(&tail)
}

fn copy_digits(digits: &Vec<u8>, from: usize, to: usize) -> (r: Vec<u8>)
    requires
        from <= to <= digits@.len(),
        are_digits(digits@),
    ensures
        r@ == digits@.subrange(from as int, to as int),
        are_digits(r@),
{
    let mut out: Vec<u8> = Vec::new();
    let mut i: usize = from;
    assert(out@ =~= digits@.subrange(from as int, from as int));
    while i < to
        invariant
            from <= i <= to <= digits@.len(),
            out@ == digits@.subrange(from as int, i as int),
        decreases to - i,
    {
        out.push(digits[i]);
        i = i + 1;
        assert(out@ =~= digits@.subrange(from as int, i as int));
    }
    out
}

fn push_zeros(digits: &mut Vec<u8>, count: usize)
    requires
        are_digits(old(digits)@),
    ensures
        are_digits(final(digits)@),
        final(digits)@.len() == old(digits)@.len() + count,
        value(final(digits)@) == value(old(digits)@) * exp(10, count as int),
        old(digits)@.len() == 0 ==> value(final(digits)@) == 0,
{
    let mut i: usize = 0;
    while i < count
        invariant
            i <= count,
            are_digits(digits@),
            digits@.len() == old(digits)@.len() + i,
            value(digits@) == value(old(digits)@) * exp(10, i as int),
        decreases count - i,
    {
        let ghost before = digits@;
        digits.push(0);
        proof {
            assert(digits@.drop_last() =~= before);
            let v = value(old(digits)@);
            let x = exp(10, i as int);
            assert((v * x) * 10 == v * (10 * x)) by (nonlinear_arith);
        }
        i = i + 1;
    }
    proof {
        if old(digits)@.len() == 0 {
            assert(value(old(digits)@) == 0);
            assert(0 * exp(10, count as int) == 0);
        }
    }
}

/// The number that digits write, where it is below 2 to the power of 68.
fn whole_number(digits: &Vec<u8>) -> (r: Option<u128>)
    requires
        are_digits(digits@),
    ensures
        match r {
            Some(w) => w == value(digits@) && w < 295_147_905_179_352_825_856,
            None => value(digits@) >= 295_147_905_179_352_825_856,
        },
{
    let mut acc: u128 = 0;
    let mut i: usize = 0;
    assert(digits@.take(0) =~= seq![]);
    while i < digits.len()
        invariant
            i <= digits@.len(),
            are_digits(digits@),
            acc == value(digits@.take(i as int)),
            acc < 295_147_905_179_352_825_856,
        decreases digits@.len() - i,
    {
        let ghost head = digits@.take(i + 1);
        assert(head.drop_last() =~= digits@.take(i as int));
        acc = acc * 10 + digits[i] as u128;
        if acc >= 295_147_905_179_352_825_856 {
            proof {
                let tail = digits@.skip(i + 1);
                assert(digits@ =~= head + tail);
                lemma_value_add(head, tail);
                lemma_value_bound(tail);
                lemma_exp_pos(10, tail.len() as int);
                assert(acc * exp(10, tail.len() as int) >= acc) by (nonlinear_arith)
                    requires
                        acc >= 0,
                        exp(10, tail.len() as int) >= 1,
                ;
            }
            return None;
        }
        i = i + 1;
    }
    assert(digits@.take(digits@.len() as int) =~= digits@);
    Some(acc)
}

// ---------------------------------------------------------------------------
// Quotients
// ---------------------------------------------------------------------------

/// `n / unit` in floating-point arithmetic: both are rounded, and so is the
/// quotient.
pub open spec fn double_quotient(n: int, unit: int) -> (int, int) {
    let (s, e) = nearest(n, 1);
    let (t, f) = nearest(s, unit);
    (t, e + f)
}

/// `t` times 2 to the power of `g`, times `mult`, to the nearest whole number;
/// halfway between two, to the even one.
pub open spec fn rounded_times(t: int, g: int, mult: int) -> int {
    if g >= 0 {
        t * exp(2, g) * mult
    } else {
        half_even(t * mult, exp(2, -g))
    }
}

/// Rounds `num / den` to 53 bits.
fn round_ratio(num: u64, den: u64) -> (r: (u64, u32))
    requires
        num > 0,
        0 < den <= 0x4000_0000_0000_0000,
        num < BITS_54 * den,
        num * 1_073_741_824 >= den,
    ensures
        nearest(num as int, den as int) == (r.0 as int, -(r.1 as int)),
        r.0 == half_even(num * exp(2, r.1 as int), den as int),
        r.1 <= 83,
        BITS_53 <= r.0 <= BITS_54,
{
    let ghost n = num as int;
    let ghost d = den as int;
    let mut acc: u64 = num / den;
    let mut left: u64 = num % den;
    let mut k: u32 = 0;
    proof {
        vstd::arithmetic::div_mod::lemma_fundamental_div_mod(n, d);
        assert(d * acc == acc * d) by (nonlinear_arith);
        assert(acc < BITS_54) by (nonlinear_arith)
            requires
                n == acc * d + left,
                n < BITS_54 * d,
                left >= 0,
                d > 0,
        ;
        assert(n * 1 == n);
    }
    while acc < BITS_53
        invariant
            acc < BITS_54,
            left < den,
            n == num,
            d == den,
            n > 0,
            n * 1_073_741_824 >= d,
            0 < den <= 0x4000_0000_0000_0000,
            n * exp(2, k as int) == acc * d + left,
            nearest(n, d) == (
                nearest(n * exp(2, k as int), d).0,
                nearest(n * exp(2, k as int), d).1 - k,
            ),
            k <= 83,
        decreases 83 - k,
    {
        let ghost acc0 = acc as int;
        let ghost left0 = left as int;
        let ghost m = n * exp(2, k as int);
        let twice: u64 = left * 2;
        let carry: u64 = if twice >= den {
            1
        } else {
            0
        };
        left = if twice >= den {
            twice - den
        } else {
            twice
        };
        acc = acc * 2 + carry;
        proof {
            let x = exp(2, k as int);
            lemma_exp_pos(2, k as int);
            assert(exp(2, k + 1) == 2 * x);
            assert(n * (2 * x) == 2 * (n * x)) by (nonlinear_arith);
            assert(carry * d == if carry == 1 {
                d
            } else {
                0
            }) by (nonlinear_arith)
                requires
                    carry == 0 || carry == 1,
            ;
            assert(acc * d == 2 * (acc0 * d) + carry * d) by (nonlinear_arith)
                requires
                    acc == 2 * acc0 + carry,
            ;
            assert(m > 0) by (nonlinear_arith)
                requires
                    m == n * x,
                    n > 0,
                    x > 0,
            ;
            assert(m < BITS_53 * d) by (nonlinear_arith)
                requires
                    m == acc0 * d + left0,
                    acc0 < BITS_53,
                    left0 < d,
                    d > 0,
            ;
            assert(nearest(m, d) == (nearest(2 * m, d).0, nearest(2 * m, d).1 - 1));
            if k >= 83 {
                lemma_exp_add(2, 30, 53);
                assert(exp(2, 30) == 1_073_741_824) by {
                    reveal_with_fuel(exp, 31);
                }
                assert(exp(2, 53) == BITS_54) by {
                    reveal_with_fuel(exp, 54);
                }
                assert(n * (1_073_741_824 * BITS_54) >= d * BITS_54) by (nonlinear_arith)
                    requires
                        n * 1_073_741_824 >= d,
                        BITS_54 > 0,
                ;
            }
        }
        k = k + 1;
    }
    let ghost m = n * exp(2, k as int);
    proof {
        assert(m >= BITS_53 * d && m < BITS_54 * d) by (nonlinear_arith)
            requires
                m == acc * d + left,
                BITS_53 <= acc < BITS_54,
                0 <= left < d,
                BITS_54 == 2 * BITS_53,
        ;
        vstd::arithmetic::div_mod::lemma_fundamental_div_mod_converse(
            m,
            d,
            acc as int,
            left as int,
        );
        assert(nearest(m, d) == (half_even(m, d), 0int));
    }
    let twice: u64 = left * 2;
    if twice > den || (twice == den && acc % 2 == 1) {
        (acc + 1, k)
    } else {
        (acc, k)
    }
}

/// `n / unit` in floating-point arithmetic, times `mult`, to the nearest whole
/// number.
pub fn quotient_rounded(n: u64, unit: u64, mult: u64) -> (r: u128)
    requires
        n > 0,
        1_000 <= unit <= 1_000_000_000,
        1 <= mult <= 10,
    ensures
        ({
            let (t, g) = double_quotient(n as int, unit as int);
            r == rounded_times(t, g, mult as int)
        }),
{
    let d = Double::from_u64(n);
    let (t, k) = round_ratio(d.mantissa, unit);
    times_rounded(t, d.exponent - k as i64, mult)
}

/// `t` times 2 to the power of `g`, times `mult`, to the nearest whole number.
fn times_rounded(t: u64, g: i64, mult: u64) -> (r: u128)
    requires
        t <= BITS_54,
        -1_000 <= g <= 60,
        1 <= mult <= 1_000_000_000,
        g <= 30 || mult <= 10,
    ensures
        r == rounded_times(t as int, g as int, mult as int),
{
    if g >= 0 {
        let p = power_of_two(g as u32);
        proof {
            lemma_exp_grows(2, g as int, 60);
            assert(exp(2, 60) == 1_152_921_504_606_846_976) by {
                reveal_with_fuel(exp, 61);
            }
            if g <= 30 {
                lemma_exp_grows(2, g as int, 30);
                assert(exp(2, 30) == 1_073_741_824) by {
                    reveal_with_fuel(exp, 31);
                }
            }
            assert(0 <= p * mult <= 1_152_921_504_606_846_976 * 10) by (nonlinear_arith)
                requires
                    0 <= p <= 1_152_921_504_606_846_976,
                    1 <= mult <= 1_000_000_000,
                    p <= 1_073_741_824 || mult <= 10,
            ;
            assert(0 <= t * p <= BITS_54 * 1_152_921_504_606_846_976) by (nonlinear_arith)
                requires
                    0 <= t <= BITS_54,
                    0 <= p <= 1_152_921_504_606_846_976,
            ;
            assert(t * p * mult <= BITS_54 * (1_152_921_504_606_846_976 * 10)) by (nonlinear_arith)
                requires
                    0 <= t <= BITS_54,
                    0 <= p * mult <= 1_152_921_504_606_846_976 * 10,
            ;
        }
        t as u128 * p * mult as u128
    } else {
        proof {
            assert(t * mult <= BITS_54 * 1_000_000_000) by (nonlinear_arith)
                requires
                    0 <= t <= BITS_54,
                    1 <= mult <= 1_000_000_000,
            ;
        }
        half_even_shifted(t as u128 * mult as u128, (-g) as u32)
    }
}

/// `n` divided by 2 to the power of `k`, to the nearest whole number.
fn half_even_shifted(n: u128, k: u32) -> (r: u128)
    requires
        n <= BITS_54 * 1_000_000_000,
    ensures
        r == half_even(n as int, exp(2, k as int)),
{
    if k > 100 {
        proof {
            let d = exp(2, k as int);
            lemma_exp_grows(2, 88, k as int);
            lemma_exp_add(2, 44, 44);
            assert(exp(2, 44) == 17_592_186_044_416) by {
                reveal_with_fuel(exp, 45);
            }
            let x = exp(2, 44);
            assert(x * x == 309_485_009_821_345_068_724_781_056) by (nonlinear_arith)
                requires
                    x == 17_592_186_044_416,
            ;
            assert(n as int / d == 0 && n as int % d == n) by {
                vstd::arithmetic::div_mod::lemma_fundamental_div_mod_converse(
                    n as int,
                    d,
                    0,
                    n as int,
                );
            }
        }
        return 0;
    }
    let d = power_of_two(k);
    proof {
        lemma_exp_pos(2, k as int);
        lemma_exp_grows(2, k as int, 100);
        lemma_exp_add(2, 50, 50);
        assert(exp(2, 50) == 1_125_899_906_842_624) by {
            reveal_with_fuel(exp, 51);
        }
        let x = exp(2, 50);
        assert(x * x == 1_267_650_600_228_229_401_496_703_205_376) by (nonlinear_arith)
            requires
                x == 1_125_899_906_842_624,
        ;
    }
    half_even_of(n, d)
}

/// `n / d` to the nearest whole number; halfway between two, to the even one.
fn half_even_of(n: u128, d: u128) -> (r: u128)
    requires
        0 < d <= 0x1000_0000_0000_0000_0000_0000_0000_0000,
        n <= 0x1000_0000_0000_0000_0000_0000_0000_0000,
    ensures
        r == half_even(n as int, d as int),
{
    let q: u128 = n / d;
    let rem: u128 = n % d;
    proof {
        assert(q <= n) by (nonlinear_arith)
            requires
                q == n as int / d as int,
                d >= 1,
                n >= 0,
        ;
    }
    if 2 * rem < d {
        q
    } else if 2 * rem > d {
        q + 1
    } else if q % 2 == 0 {
        q
    } else {
        q + 1
    }
}

// ---------------------------------------------------------------------------
// Numbers
// ---------------------------------------------------------------------------

/// Seconds of so many nanoseconds: the whole seconds, plus the quotient of the rest.
pub open spec fn seconds_of(nanos: int) -> (int, int) {
    let (t, f) = nearest(nanos % 1_000_000_000, 1_000_000_000);
    nearest(nanos / 1_000_000_000 * exp(2, -f) + t, exp(2, -f))
}

/// The quotient of two numbers.
pub open spec fn divided(a: (int, int), b: (int, int)) -> (int, int) {
    if a.0 == 0 {
        (0, 0)
    } else {
        let (s, e) = nearest(a.0, b.0);
        (s, e + a.1 - b.1)
    }
}

/// Whether a number is at least `n`.
pub open spec fn reaches(a: (int, int), n: int) -> bool {
    if a.1 >= 0 {
        a.0 * exp(2, a.1) >= n
    } else {
        a.0 >= n * exp(2, -a.1)
    }
}

/// The whole part of a number, as far as a `u64` holds it.
pub open spec fn whole_of(a: (int, int)) -> int {
    let whole = whole_part(a.0, a.1, 1);
    if whole > u64::MAX {
        u64::MAX as int
    } else {
        whole
    }
}

/// A quotient of a number, times `mult`, to the nearest whole number.
pub open spec fn rounded_quotient(a: (int, int), unit: int, mult: int) -> int {
    let (t, f) = nearest(a.0, unit);
    rounded_times(t, a.1 + f, mult)
}

/// Half the value has the same bits.
proof fn lemma_nearest_halved(num: int, den: int)
    requires
        num > 0,
        den > 0,
    ensures
        nearest(num, 2 * den) == (nearest(num, den).0, nearest(num, den).1 - 1),
    decreases
            (if BITS_53 * den <= num && num < BITS_54 * den {
                0int
            } else {
                1int
            }),
            (if num < BITS_53 * den {
                BITS_53 * den - num
            } else {
                num - den
            }),
{
    if num < BITS_53 * den {
        lemma_nearest_halved(2 * num, den);
        assert(nearest(num, 2 * den) == (
            nearest(2 * num, 2 * den).0,
            nearest(2 * num, 2 * den).1 - 1,
        ));
    } else if num >= BITS_54 * den {
        assert(nearest(num, den) == (nearest(num, 2 * den).0, nearest(num, 2 * den).1 + 1));
    } else {
        let q = num / den;
        let r = num % den;
        vstd::arithmetic::div_mod::lemma_fundamental_div_mod(num, den);
        assert(2 * num == q * (2 * den) + 2 * r) by (nonlinear_arith)
            requires
                num == den * q + r,
        ;
        vstd::arithmetic::div_mod::lemma_fundamental_div_mod_converse(2 * num, 2 * den, q, 2 * r);
        assert(half_even(2 * num, 2 * den) == half_even(num, den));
        assert(nearest(num, 2 * den) == (
            nearest(2 * num, 2 * den).0,
            nearest(2 * num, 2 * den).1 - 1,
        ));
        assert(nearest(2 * num, 2 * den) == (half_even(2 * num, 2 * den), 0int));
    }
}

/// Division by a power of two keeps the bits.
proof fn lemma_nearest_shifted(num: int, k: int)
    requires
        num > 0,
        k >= 0,
    ensures
        nearest(num, exp(2, k)) == (nearest(num, 1).0, nearest(num, 1).1 - k),
    decreases k,
{
    if k > 0 {
        lemma_nearest_shifted(num, k - 1);
        lemma_exp_pos(2, k - 1);
        lemma_nearest_halved(num, exp(2, k - 1));
    }
}

/// A bound on the exponent from below.
pub proof fn lemma_exponent_from(num: int, den: int, k: int)
    requires
        num > 0,
        den > 0,
        k >= 0,
        num * exp(2, k) >= BITS_53 * den,
    ensures
        nearest(num, den).1 >= -k,
    decreases k,
{
    if num >= BITS_53 * den {
        lemma_exponent_not_negative(num, den);
    } else if k > 0 {
        let x = exp(2, k - 1);
        assert(exp(2, k) == 2 * x);
        assert(num * (2 * x) == (2 * num) * x) by (nonlinear_arith);
        lemma_exponent_from(2 * num, den, k - 1);
    } else {
        assert(num * 1 == num);
    }
}

/// The nearest number is at most half a unit of its last bit away.
pub proof fn nearest_is_close(num: int, den: int)
    requires
        num > 0,
        den > 0,
    ensures
        ({
            let (s, e) = nearest(num, den);
            let off = s * exp(2, e) * den - num * exp(2, -e);
            -(exp(2, e) * den) <= 2 * off <= exp(2, e) * den
        }),
    decreases
            (if BITS_53 * den <= num && num < BITS_54 * den {
                0int
            } else {
                1int
            }),
            (if num < BITS_53 * den {
                BITS_53 * den - num
            } else {
                num - den
            }),
{
    let (s, e) = nearest(num, den);
    if num < BITS_53 * den {
        nearest_is_close(2 * num, den);
        lemma_exponent_not_positive(2 * num, den);
        let x = exp(2, -(e + 1));
        assert(exp(2, -e) == 2 * x);
        assert(num * (2 * x) == (2 * num) * x) by (nonlinear_arith);
    } else if num >= BITS_54 * den {
        nearest_is_close(num, 2 * den);
        lemma_exponent_not_negative(num, 2 * den);
        let x = exp(2, e - 1);
        assert(exp(2, e) == 2 * x);
        assert(s * (2 * x) * den == s * x * (2 * den)) by (nonlinear_arith);
        assert((2 * x) * den == x * (2 * den)) by (nonlinear_arith);
    } else {
        lemma_half_even_close(num, den);
        assert(s * 1 * den == den * s) by (nonlinear_arith);
        assert(num * 1 == num);
    }
}

/// Rounding is off by half at most.
pub proof fn lemma_half_even_close(n: int, d: int)
    requires
        d > 0,
    ensures
        -d <= 2 * (d * half_even(n, d) - n) <= d,
{
    vstd::arithmetic::div_mod::lemma_fundamental_div_mod(n, d);
    let q = n / d;
    assert(d * (q + 1) == d * q + d) by (nonlinear_arith);
}

/// The nearest number, as a multiple of a power of two below it, is off by one part in 2
/// to the power of 53 at most.
pub proof fn nearest_is_close_in_parts(num: int, den: int, k: int)
    requires
        num > 0,
        den > 0,
        k >= 0,
        nearest(num, den).1 + k >= 0,
    ensures
        ({
            let (s, e) = nearest(num, den);
            let v = s * exp(2, e + k) * den;
            let off = v - num * exp(2, k);
            v > 0 && -v <= BITS_54 * off <= v
        }),
{
    let (s, e) = nearest(num, den);
    nearest_is_close(num, den);
    lemma_nearest_bits(num, den);
    let p = exp(2, k);
    let r = exp(2, e + k);
    lemma_exp_pos(2, k);
    lemma_exp_pos(2, e + k);
    // Either way, `off` is a multiple of what the nearest number is off by.
    let (unit, off) = if e >= 0 {
        lemma_exp_add(2, e, k);
        let b = exp(2, e);
        lemma_exp_pos(2, e);
        assert(s * (b * p) * den - num * p == (s * b * den - num * 1) * p) by (nonlinear_arith);
        (b * p, s * b * den - num * 1)
    } else {
        lemma_exp_add(2, -e, e + k);
        let a = exp(2, -e);
        lemma_exp_pos(2, -e);
        assert(s * r * den - num * (a * r) == (s * 1 * den - num * a) * r) by (nonlinear_arith);
        (r, s * 1 * den - num * a)
    };
    let m = if e >= 0 {
        p
    } else {
        r
    };
    let step = exp(2, e) * den;
    lemma_exp_pos(2, e);
    assert(unit == r);
    assert(step * m == r * den) by (nonlinear_arith)
        requires
            step == exp(2, e) * den,
            r == exp(2, e) * m,
    ;
    assert(-(step * m) <= 2 * (off * m) <= step * m) by (nonlinear_arith)
        requires
            -step <= 2 * off <= step,
            m > 0,
    ;
    let v = s * r * den;
    assert(v >= BITS_53 * (r * den)) by (nonlinear_arith)
        requires
            v == s * r * den,
            s >= BITS_53,
            r > 0,
            den > 0,
    ;
    assert(r * den > 0) by (nonlinear_arith)
        requires
            r > 0,
            den > 0,
    ;
    assert(v - num * p == off * m);
}

/// A quotient of a number, times one or ten and rounded, is less than one away from what
/// it should be. The number is `m` times 2 to the power of `e`, here counted in parts of 2
/// to the power of `-k`.
#[verifier::rlimit(40)]
pub proof fn rounded_quotient_is_close(m: int, e: int, k: int, unit: int, mult: int)
    requires
        BITS_53 <= m <= BITS_54,
        k >= 0,
        e + k >= 0,
        1 <= unit <= 1_000_000_000,
        mult == 1 || mult == 10,
        m * exp(2, e + k) < unit * (2_199_023_255_552 * exp(2, k)),
    ensures
        ({
            let n = rounded_quotient((m, e), unit, mult);
            let off = n * (unit * exp(2, k)) - mult * (m * exp(2, e + k));
            -(3 * (unit * exp(2, k))) <= 4 * off <= 3 * (unit * exp(2, k))
        }),
{
    let (t, f) = nearest(m, unit);
    lemma_nearest_bits(m, unit);
    assert(exp(2, 60) == 1_152_921_504_606_846_976) by {
        reveal_with_fuel(exp, 61);
    }
    assert(m * 1_152_921_504_606_846_976 >= BITS_53 * unit) by (nonlinear_arith)
        requires
            m >= BITS_53,
            1 <= unit <= 1_000_000_000,
            BITS_53 > 0,
    ;
    lemma_exponent_from(m, unit, 60);
    nearest_is_close_in_parts(m, unit, 60);
    let p1 = exp(2, k);
    let p2 = exp(2, 60);
    let r = exp(2, e + k);
    let h = exp(2, f + 60);
    lemma_exp_pos(2, k);
    lemma_exp_pos(2, e + k);
    lemma_exp_pos(2, f + 60);
    let v = m * r;
    let g = e + f;
    let big = k + 60;
    lemma_exp_add(2, e + k, f + 60);
    lemma_exp_add(2, k, 60);
    let w = t * exp(2, g + big);
    let x = exp(2, g + big);
    let p = exp(2, big);
    lemma_exp_pos(2, g + big);
    assert(g + big == (e + k) + (f + 60));
    assert(x == r * h);
    // The quotient against the number.
    let y = w * unit;
    let z = v * p2;
    assert(y == (t * h * unit) * r) by (nonlinear_arith)
        requires
            y == t * (r * h) * unit,
    ;
    assert(z == (m * p2) * r) by (nonlinear_arith)
        requires
            z == m * r * p2,
    ;
    let q = t * h * unit;
    assert(-y <= BITS_54 * (y - z) <= y) by (nonlinear_arith)
        requires
            y == q * r,
            z == (m * p2) * r,
            r > 0,
            -q <= BITS_54 * (q - m * p2) <= q,
    ;
    assert(y > 0) by (nonlinear_arith)
        requires
            y == q * r,
            q > 0,
            r > 0,
    ;
    let u1 = unit * p1;
    let u = unit * p;
    assert(u == u1 * p2) by (nonlinear_arith)
        requires
            u == unit * p,
            u1 == unit * p1,
            p == p1 * p2,
    ;
    assert(unit * (2_199_023_255_552 * p1) == 2_199_023_255_552 * u1) by (nonlinear_arith)
        requires
            u1 == unit * p1,
    ;
    assert(z < 2_199_023_255_552 * u) by (nonlinear_arith)
        requires
            z == v * p2,
            v < 2_199_023_255_552 * u1,
            u == u1 * p2,
            p2 > 0,
    ;
    // It is below 2 to the power of 42, so that there are bits behind the point.
    assert(y <= 2 * z);
    if g >= 0 {
        lemma_exp_add(2, g, big);
        lemma_exp_pos(2, g);
        assert(x >= p) by (nonlinear_arith)
            requires
                x == exp(2, g) * p,
                exp(2, g) >= 1,
                p > 0,
        ;
        assert(y >= BITS_53 * u) by (nonlinear_arith)
            requires
                y == t * x * unit,
                t >= BITS_53,
                x >= p,
                u == unit * p,
                unit > 0,
                p > 0,
        ;
        assert(u > 0) by (nonlinear_arith)
            requires
                u == unit * p,
                unit > 0,
                p > 0,
        ;
        assert(false);
    }
    let d = exp(2, -g);
    lemma_exp_pos(2, -g);
    lemma_exp_add(2, -g, g + big);
    let n = rounded_times(t, g, mult);
    lemma_half_even_close(t * mult, d);
    assert(n == half_even(t * mult, d));
    let o = d * n - t * mult;
    let c = x * unit;
    assert(c > 0) by (nonlinear_arith)
        requires
            c == x * unit,
            x > 0,
            unit > 0,
    ;
    assert(d * c == u) by (nonlinear_arith)
        requires
            c == x * unit,
            u == unit * (d * x),
    ;
    assert(y == t * c) by (nonlinear_arith)
        requires
            y == t * x * unit,
            c == x * unit,
    ;
    assert(n * u == (d * n) * c) by (nonlinear_arith)
        requires
            d * c == u,
    ;
    assert(mult * y == (t * mult) * c) by (nonlinear_arith)
        requires
            y == t * c,
    ;
    assert((d * n) * c - (t * mult) * c == o * c) by (nonlinear_arith)
        requires
            o == d * n - t * mult,
    ;
    assert(2 * (n * u - mult * y) == (2 * o) * c) by (nonlinear_arith)
        requires
            n * u - mult * y == o * c,
    ;
    assert(-u <= 2 * (n * u - mult * y) <= u) by (nonlinear_arith)
        requires
            -d <= 2 * o <= d,
            c > 0,
            d * c == u,
            2 * (n * u - mult * y) == (2 * o) * c,
    ;
    assert(mult * y == if mult == 1 {
        y
    } else {
        10 * y
    });
    assert(mult * z == if mult == 1 {
        z
    } else {
        10 * z
    });
    assert(-(3 * u) <= 4 * (n * u - mult * z) <= 3 * u);
    let off = n * u1 - mult * v;
    assert(n * u - mult * z == off * p2) by (nonlinear_arith)
        requires
            off == n * u1 - mult * v,
            u == u1 * p2,
            z == v * p2,
    ;
    assert(-(3 * u1) <= 4 * off <= 3 * u1) by (nonlinear_arith)
        requires
            -(3 * u) <= 4 * (off * p2) <= 3 * u,
            u == u1 * p2,
            p2 > 0,
    ;
}

/// The whole part of a product of a number with `scale`, divided by `div`, is what it
/// should be but for one part in 2 to the power of 51.
#[verifier::rlimit(40)]
pub proof fn scaled_double_is_close(num: int, den: int, scale: int, div: int, k: int)
    requires
        num > 0,
        den > 0,
        scale >= 1,
        div >= 1,
        k >= 0,
        nearest(num, den).1 + k >= 0,
    ensures
        ({
            let w = scaled_double(num, den, scale, div);
            &&& 2_251_799_813_685_248 * (w * (div * den)) <= 2_251_799_813_685_249 * (num * scale)
            &&& w < u64::MAX ==> 2_251_799_813_685_248 * ((w + 1) * (div * den))
                >= 2_251_799_813_685_247 * (num * scale)
        }),
{
    let (s, e) = nearest(num, den);
    lemma_nearest_bits(num, den);
    let a = s * scale;
    assert(a >= s) by (nonlinear_arith)
        requires
            a == s * scale,
            s > 0,
            scale >= 1,
    ;
    let (t, f) = nearest(a, 1);
    lemma_nearest_bits(a, 1);
    lemma_exponent_not_negative(a, 1);
    nearest_is_close_in_parts(num, den, k);
    nearest_is_close_in_parts(a, 1, 0);
    let p = exp(2, k);
    let r = exp(2, e + k);
    let h = exp(2, f);
    lemma_exp_pos(2, k);
    lemma_exp_pos(2, e + k);
    lemma_exp_pos(2, f);
    let g = e + f;
    lemma_exp_add(2, e + k, f);
    let x = exp(2, g + k);
    lemma_exp_pos(2, g + k);
    assert(x == r * h);
    let w = t * x;
    // The product against the true one.
    let y = w * den;
    let z = a * r * den;
    let q = t * h;
    assert(t * exp(2, f + 0) * 1 == q);
    assert(a * exp(2, 0) == a);
    assert(-q <= BITS_54 * (q - a) <= q);
    let c = r * den;
    assert(c > 0) by (nonlinear_arith)
        requires
            c == r * den,
            r > 0,
            den > 0,
    ;
    assert(y == q * c) by (nonlinear_arith)
        requires
            y == t * (r * h) * den,
            q == t * h,
            c == r * den,
    ;
    assert(z == a * c) by (nonlinear_arith)
        requires
            z == a * r * den,
            c == r * den,
    ;
    assert(-y <= BITS_54 * (y - z) <= y) by (nonlinear_arith)
        requires
            y == q * c,
            z == a * c,
            c > 0,
            -q <= BITS_54 * (q - a) <= q,
    ;
    let v = s * r * den;
    let b = num * scale;
    let true_product = b * p;
    assert(z == v * scale) by (nonlinear_arith)
        requires
            z == (s * scale) * r * den,
            v == s * r * den,
    ;
    assert(true_product == (num * p) * scale) by (nonlinear_arith)
        requires
            true_product == num * scale * p,
    ;
    assert(-z <= BITS_54 * (z - true_product) <= z) by (nonlinear_arith)
        requires
            z == v * scale,
            true_product == (num * p) * scale,
            scale >= 1,
            -v <= BITS_54 * (v - num * p) <= v,
    ;
    assert(z > 0) by (nonlinear_arith)
        requires
            z == v * scale,
            v > 0,
            scale >= 1,
    ;
    assert(2_251_799_813_685_248 * y <= 2_251_799_813_685_249 * true_product);
    assert(2_251_799_813_685_248 * y >= 2_251_799_813_685_247 * true_product);
    // The whole part.
    let whole = whole_part(t, g, div);
    let dd = div * den;
    assert(whole * div * p <= w && w < (whole + 1) * div * p && whole >= 0) by {
        if g >= 0 {
            lemma_exp_add(2, g, k);
            lemma_exp_pos(2, g);
            let n = t * exp(2, g);
            vstd::arithmetic::div_mod::lemma_fundamental_div_mod(n, div);
            vstd::arithmetic::div_mod::lemma_mod_bound(n, div);
            assert(n >= 0) by (nonlinear_arith)
                requires
                    n == t * exp(2, g),
                    t >= 0,
                    exp(2, g) > 0,
            ;
            vstd::arithmetic::div_mod::lemma_div_pos_is_pos(n, div);
            assert(w == n * p) by (nonlinear_arith)
                requires
                    w == t * (exp(2, g) * p),
                    n == t * exp(2, g),
            ;
            assert(whole * div * p <= w && w < (whole + 1) * div * p) by (nonlinear_arith)
                requires
                    w == n * p,
                    n == div * whole + n % div,
                    0 <= n % div < div,
                    p > 0,
            ;
        } else {
            let d = exp(2, -g);
            lemma_exp_pos(2, -g);
            lemma_exp_add(2, -g, g + k);
            let m = d * div;
            assert(m > 0) by (nonlinear_arith)
                requires
                    m == d * div,
                    d > 0,
                    div >= 1,
            ;
            vstd::arithmetic::div_mod::lemma_fundamental_div_mod(t, m);
            vstd::arithmetic::div_mod::lemma_mod_bound(t, m);
            vstd::arithmetic::div_mod::lemma_div_pos_is_pos(t, m);
            assert(whole * div * p == (whole * m) * x) by (nonlinear_arith)
                requires
                    p == d * x,
                    m == d * div,
            ;
            assert((whole + 1) * div * p == ((whole + 1) * m) * x) by (nonlinear_arith)
                requires
                    p == d * x,
                    m == d * div,
            ;
            assert(whole * m <= t && t < (whole + 1) * m) by (nonlinear_arith)
                requires
                    t == m * whole + t % m,
                    0 <= t % m < m,
            ;
            assert((whole * m) * x <= t * x && t * x < ((whole + 1) * m) * x) by (nonlinear_arith)
                requires
                    whole * m <= t,
                    t < (whole + 1) * m,
                    x > 0,
            ;
        }
    }
    assert(whole * dd * p == whole * div * p * den) by (nonlinear_arith)
        requires
            dd == div * den,
    ;
    assert((whole + 1) * dd * p == (whole + 1) * div * p * den) by (nonlinear_arith)
        requires
            dd == div * den,
    ;
    assert(whole * dd * p <= y && y < (whole + 1) * dd * p) by (nonlinear_arith)
        requires
            whole * dd * p == whole * div * p * den,
            (whole + 1) * dd * p == (whole + 1) * div * p * den,
            whole * div * p <= w,
            w < (whole + 1) * div * p,
            y == w * den,
            den > 0,
    ;
    let lo = whole * dd;
    let hi = (whole + 1) * dd;
    assert(2_251_799_813_685_248 * lo <= 2_251_799_813_685_249 * b) by (nonlinear_arith)
        requires
            2_251_799_813_685_248 * (lo * p) <= 2_251_799_813_685_249 * (b * p),
            p > 0,
    ;
    assert(2_251_799_813_685_248 * hi >= 2_251_799_813_685_247 * b) by (nonlinear_arith)
        requires
            2_251_799_813_685_248 * (hi * p) >= 2_251_799_813_685_247 * (b * p),
            p > 0,
    ;
    let r0 = scaled_double(num, den, scale, div);
    assert(dd > 0) by (nonlinear_arith)
        requires
            dd == div * den,
            div >= 1,
            den > 0,
    ;
    assert(r0 * dd <= lo) by (nonlinear_arith)
        requires
            r0 <= whole,
            lo == whole * dd,
            dd > 0,
    ;
}

/// Powers of two with opposite exponents.
proof fn lemma_exp_balance(m: int, k: int, e1: int, e2: int)
    requires
        m >= 0,
        k >= 0,
        m == k - e1 + e2,
    ensures
        exp(2, m) * exp(2, e1) * exp(2, -e2) == exp(2, k) * exp(2, -e1) * exp(2, e2),
{
    let p1 = if e1 > 0 {
        e1
    } else {
        0
    };
    let n1 = if e1 < 0 {
        -e1
    } else {
        0
    };
    let p2 = if e2 > 0 {
        e2
    } else {
        0
    };
    let n2 = if e2 < 0 {
        -e2
    } else {
        0
    };
    lemma_exp_add(2, m, p1);
    lemma_exp_add(2, m + p1, n2);
    lemma_exp_add(2, k, n1);
    lemma_exp_add(2, k + n1, p2);
    assert(m + p1 + n2 == k + n1 + p2);
    assert(exp(2, e1) == exp(2, p1) && exp(2, -e1) == exp(2, n1));
    assert(exp(2, e2) == exp(2, p2) && exp(2, -e2) == exp(2, n2));
}

/// A quotient of whole numbers that is below 2 to the power of 38, counted in
/// billionths, is less than a million of these too small.
#[verifier::rlimit(40)]
pub proof fn quotient_in_nanos_is_close(a: int, b: int)
    requires
        a > 0,
        b > 0,
        a <= b * 274_877_906_944,
    ensures
        ({
            let (s, e) = divided(nearest(a, 1), nearest(b, 1));
            a * 1_000_000_000 <= b * (rounded_times(s, e, 1_000_000_000) + 1_000_000)
        }),
{
    let (s1, e1) = nearest(a, 1);
    let (s2, e2) = nearest(b, 1);
    let (s, e0) = nearest(s1, s2);
    lemma_nearest_bits(a, 1);
    lemma_nearest_bits(b, 1);
    lemma_nearest_bits(s1, s2);
    nearest_is_close(a, 1);
    nearest_is_close(b, 1);
    nearest_is_close(s1, s2);
    lemma_quotient_exponent(s1, s2);
    let k = -e0;
    let m = k - e1 + e2;
    let a1 = exp(2, -e1);
    let b1 = exp(2, e1);
    let a2 = exp(2, -e2);
    let b2 = exp(2, e2);
    let x = exp(2, k);
    lemma_exp_pos(2, -e1);
    lemma_exp_pos(2, e1);
    lemma_exp_pos(2, -e2);
    lemma_exp_pos(2, e2);
    lemma_exp_pos(2, k);
    assert(exp(2, e0) == 1);
    // The operands.
    assert(2 * (a * a1) <= (2 * s1 + 1) * b1) by (nonlinear_arith)
        requires
            -(b1 * 1) <= 2 * (s1 * b1 * 1 - a * a1),
    ;
    assert(2 * (b * a2) >= (2 * s2 - 1) * b2) by (nonlinear_arith)
        requires
            2 * (s2 * b2 * 1 - b * a2) <= b2 * 1,
    ;
    // The quotient.
    assert(2 * (s * s2) >= 2 * (s1 * x) - s2) by (nonlinear_arith)
        requires
            -(1 * s2) <= 2 * (s * 1 * s2 - s1 * x),
    ;
    lemma_time_exponent(a, b, s1, e1, s2, e2, k);
    let y = exp(2, m);
    lemma_exp_balance(m, k, e1, e2);
    lemma_exp_grows(2, 12, m);
    assert(exp(2, 12) == 4_096) by {
        reveal_with_fuel(exp, 13);
    }
    lemma_half_even_close(s * 1_000_000_000, y);
    let n = rounded_times(s, -m, 1_000_000_000);
    assert(e0 + e1 - e2 == -m);
    assert(n == half_even(s * 1_000_000_000, y));
    assert(2 * (y * n) >= 2 * (s * 1_000_000_000) - y);
    lemma_exp_grows(2, k, 54);
    assert(exp(2, 54) == 18_014_398_509_481_984) by {
        reveal_with_fuel(exp, 55);
    }
    lemma_close_core(s1, s2, s, x, y, n);
    // y * b1 * a2 == x * a1 * b2
    let l = n + 1_000_000;
    assert(n >= 0) by {
        assert(s * 1_000_000_000 / y >= 0) by (nonlinear_arith)
            requires
                s >= 0,
                y > 0,
        ;
    }
    lemma_close_scale(a, b, s1, s2, a1, b1, a2, b2, x, y, l);
}

/// The parts of a quotient, put together.
proof fn lemma_close_core(s1: int, s2: int, s: int, x: int, y: int, n: int)
    requires
        BITS_53 <= s1 <= BITS_54,
        BITS_53 <= s2 <= BITS_54,
        BITS_53 <= s <= BITS_54,
        0 < x <= 2 * BITS_54,
        y >= 4_096,
        2 * (s * s2) >= 2 * (s1 * x) - s2,
        2 * (y * n) >= 2 * (s * 1_000_000_000) - y,
    ensures
        y * (2 * s2 - 1) * (n + 1_000_000) >= x * (2 * s1 + 1) * 1_000_000_000,
{
    let g = 1_000_000_000int;
    let w = 2 * s2 - 1;
    // y * (n + 1_000_000) >= s * g + y * 999_999
    let u = y * (n + 1_000_000);
    assert(u == y * n + y * 1_000_000) by (nonlinear_arith)
        requires
            u == y * (n + 1_000_000),
    ;
    assert(u >= s * g + y * 999_999);
    assert(w * u >= w * (s * g + y * 999_999)) by (nonlinear_arith)
        requires
            w >= 0,
            u >= s * g + y * 999_999,
    ;
    assert(y * w * (n + 1_000_000) == w * u) by (nonlinear_arith)
        requires
            u == y * (n + 1_000_000),
    ;
    assert(w * (s * g + y * 999_999) == g * (2 * (s * s2) - s) + 999_999 * (w * y))
        by (nonlinear_arith)
        requires
            w == 2 * s2 - 1,
    ;
    assert(w * y >= w * 4_096) by (nonlinear_arith)
        requires
            w >= 0,
            y >= 4_096,
    ;
    assert(x * (2 * s1 + 1) * g == g * (2 * (s1 * x) + x)) by (nonlinear_arith);
    assert(999_999 * (w * 4_096) >= g * (s + s2 + x));
}

/// A bound on mantissas is one on the numbers.
proof fn lemma_close_scale(
    a: int,
    b: int,
    s1: int,
    s2: int,
    a1: int,
    b1: int,
    a2: int,
    b2: int,
    x: int,
    y: int,
    l: int,
)
    requires
        a > 0,
        b > 0,
        s1 > 0,
        s2 > 0,
        a1 > 0,
        b1 > 0,
        a2 > 0,
        b2 > 0,
        x > 0,
        y > 0,
        l > 0,
        2 * (a * a1) <= (2 * s1 + 1) * b1,
        2 * (b * a2) >= (2 * s2 - 1) * b2,
        y * b1 * a2 == x * a1 * b2,
        y * (2 * s2 - 1) * l >= x * (2 * s1 + 1) * 1_000_000_000,
    ensures
        a * 1_000_000_000 <= b * l,
{
    let g = 1_000_000_000int;
    let c = x * a1 * a2;
    assert(c > 0) by (nonlinear_arith)
        requires
            c == x * a1 * a2,
            x > 0,
            a1 > 0,
            a2 > 0,
    ;
    // 2 * c * a * g  <=  x * a2 * b1 * (2 * s1 + 1) * g
    let z1 = a2 * b1;
    assert(z1 > 0) by (nonlinear_arith)
        requires
            z1 == a2 * b1,
            a2 > 0,
            b1 > 0,
    ;
    let h = x * a2 * g;
    assert(h > 0) by (nonlinear_arith)
        requires
            h == x * a2 * g,
            x > 0,
            a2 > 0,
            g > 0,
    ;
    assert(h * (2 * (a * a1)) <= h * ((2 * s1 + 1) * b1)) by (nonlinear_arith)
        requires
            h > 0,
            2 * (a * a1) <= (2 * s1 + 1) * b1,
    ;
    assert(h * (2 * (a * a1)) == 2 * (c * (a * g))) by (nonlinear_arith)
        requires
            h == x * a2 * g,
            c == x * a1 * a2,
    ;
    assert(h * ((2 * s1 + 1) * b1) == z1 * (x * (2 * s1 + 1) * g)) by (nonlinear_arith)
        requires
            h == x * a2 * g,
            z1 == a2 * b1,
    ;
    assert(z1 * (x * (2 * s1 + 1) * g) <= z1 * (y * (2 * s2 - 1) * l)) by (nonlinear_arith)
        requires
            z1 > 0,
            y * (2 * s2 - 1) * l >= x * (2 * s1 + 1) * g,
    ;
    // z1 * y == x * a1 * b2
    let v = x * a1 * b2;
    assert(z1 * (y * (2 * s2 - 1) * l) == (y * b1 * a2) * ((2 * s2 - 1) * l)) by (nonlinear_arith)
        requires
            z1 == a2 * b1,
    ;
    let f = x * a1 * l;
    assert(f > 0) by (nonlinear_arith)
        requires
            f == x * a1 * l,
            x > 0,
            a1 > 0,
            l > 0,
    ;
    assert(v * ((2 * s2 - 1) * l) == f * ((2 * s2 - 1) * b2)) by (nonlinear_arith)
        requires
            v == x * a1 * b2,
            f == x * a1 * l,
    ;
    assert(f * ((2 * s2 - 1) * b2) <= f * (2 * (b * a2))) by (nonlinear_arith)
        requires
            f > 0,
            2 * (b * a2) >= (2 * s2 - 1) * b2,
    ;
    assert(f * (2 * (b * a2)) == 2 * (c * (b * l))) by (nonlinear_arith)
        requires
            f == x * a1 * l,
            c == x * a1 * a2,
    ;
    assert(a * g <= b * l) by (nonlinear_arith)
        requires
            c > 0,
            c * (a * g) <= c * (b * l),
    ;
}

/// A quotient of whole numbers that is below 2 to the power of 38, counted in
/// billionths, is less than a million of these too large.
#[verifier::rlimit(40)]
pub proof fn quotient_in_nanos_is_not_far(a: int, b: int)
    requires
        a > 0,
        b > 0,
        a <= b * 274_877_906_944,
    ensures
        ({
            let (s, e) = divided(nearest(a, 1), nearest(b, 1));
            b * (rounded_times(s, e, 1_000_000_000) - 1_000_000) <= a * 1_000_000_000
        }),
{
    let (s1, e1) = nearest(a, 1);
    let (s2, e2) = nearest(b, 1);
    let (s, e0) = nearest(s1, s2);
    lemma_nearest_bits(a, 1);
    lemma_nearest_bits(b, 1);
    lemma_nearest_bits(s1, s2);
    nearest_is_close(a, 1);
    nearest_is_close(b, 1);
    nearest_is_close(s1, s2);
    lemma_quotient_exponent(s1, s2);
    let k = -e0;
    let m = k - e1 + e2;
    let a1 = exp(2, -e1);
    let b1 = exp(2, e1);
    let a2 = exp(2, -e2);
    let b2 = exp(2, e2);
    let x = exp(2, k);
    lemma_exp_pos(2, -e1);
    lemma_exp_pos(2, e1);
    lemma_exp_pos(2, -e2);
    lemma_exp_pos(2, e2);
    lemma_exp_pos(2, k);
    assert(exp(2, e0) == 1);
    assert(2 * (a * a1) >= (2 * s1 - 1) * b1) by (nonlinear_arith)
        requires
            2 * (s1 * b1 * 1 - a * a1) <= b1 * 1,
    ;
    assert(2 * (b * a2) <= (2 * s2 + 1) * b2) by (nonlinear_arith)
        requires
            -(b2 * 1) <= 2 * (s2 * b2 * 1 - b * a2),
    ;
    assert(2 * (s * s2) <= 2 * (s1 * x) + s2) by (nonlinear_arith)
        requires
            2 * (s * 1 * s2 - s1 * x) <= 1 * s2,
    ;
    lemma_time_exponent(a, b, s1, e1, s2, e2, k);
    let y = exp(2, m);
    lemma_exp_balance(m, k, e1, e2);
    lemma_exp_grows(2, 12, m);
    assert(exp(2, 12) == 4_096) by {
        reveal_with_fuel(exp, 13);
    }
    lemma_half_even_close(s * 1_000_000_000, y);
    let n = rounded_times(s, -m, 1_000_000_000);
    assert(e0 + e1 - e2 == -m);
    assert(n == half_even(s * 1_000_000_000, y));
    assert(2 * (y * n) <= 2 * (s * 1_000_000_000) + y);
    lemma_exp_grows(2, k, 54);
    assert(exp(2, 54) == 18_014_398_509_481_984) by {
        reveal_with_fuel(exp, 55);
    }
    lemma_far_core(s1, s2, s, x, y, n);
    let l = n - 1_000_000;
    if l > 0 {
        lemma_far_scale(a, b, s1, s2, a1, b1, a2, b2, x, y, l);
    } else {
        assert(b * l <= 0) by (nonlinear_arith)
            requires
                b > 0,
                l <= 0,
        ;
    }
}

/// The parts of a quotient, put together.
proof fn lemma_far_core(s1: int, s2: int, s: int, x: int, y: int, n: int)
    requires
        BITS_53 <= s1 <= BITS_54,
        BITS_53 <= s2 <= BITS_54,
        BITS_53 <= s <= BITS_54,
        0 < x <= 2 * BITS_54,
        y >= 4_096,
        2 * (s * s2) <= 2 * (s1 * x) + s2,
        2 * (y * n) <= 2 * (s * 1_000_000_000) + y,
    ensures
        y * (2 * s2 + 1) * (n - 1_000_000) <= x * (2 * s1 - 1) * 1_000_000_000,
{
    let g = 1_000_000_000int;
    let w = 2 * s2 + 1;
    let u = y * (n - 1_000_000);
    assert(u == y * n - y * 1_000_000) by (nonlinear_arith)
        requires
            u == y * (n - 1_000_000),
    ;
    assert(u <= s * g - y * 999_999);
    assert(w * u <= w * (s * g - y * 999_999)) by (nonlinear_arith)
        requires
            w >= 0,
            u <= s * g - y * 999_999,
    ;
    assert(y * w * (n - 1_000_000) == w * u) by (nonlinear_arith)
        requires
            u == y * (n - 1_000_000),
    ;
    assert(w * (s * g - y * 999_999) == g * (2 * (s * s2) + s) - 999_999 * (w * y))
        by (nonlinear_arith)
        requires
            w == 2 * s2 + 1,
    ;
    assert(w * y >= w * 4_096) by (nonlinear_arith)
        requires
            w >= 0,
            y >= 4_096,
    ;
    assert(x * (2 * s1 - 1) * g == g * (2 * (s1 * x) - x)) by (nonlinear_arith);
    assert(999_999 * (w * 4_096) >= g * (s + s2 + x));
}

/// A bound on mantissas is one on the numbers.
proof fn lemma_far_scale(
    a: int,
    b: int,
    s1: int,
    s2: int,
    a1: int,
    b1: int,
    a2: int,
    b2: int,
    x: int,
    y: int,
    l: int,
)
    requires
        a > 0,
        b > 0,
        s1 > 0,
        s2 > 0,
        a1 > 0,
        b1 > 0,
        a2 > 0,
        b2 > 0,
        x > 0,
        y > 0,
        l > 0,
        2 * (a * a1) >= (2 * s1 - 1) * b1,
        2 * (b * a2) <= (2 * s2 + 1) * b2,
        y * b1 * a2 == x * a1 * b2,
        y * (2 * s2 + 1) * l <= x * (2 * s1 - 1) * 1_000_000_000,
    ensures
        b * l <= a * 1_000_000_000,
{
    let g = 1_000_000_000int;
    let c = x * a1 * a2;
    assert(c > 0) by (nonlinear_arith)
        requires
            c == x * a1 * a2,
            x > 0,
            a1 > 0,
            a2 > 0,
    ;
    let z1 = a2 * b1;
    assert(z1 > 0) by (nonlinear_arith)
        requires
            z1 == a2 * b1,
            a2 > 0,
            b1 > 0,
    ;
    let h = x * a2 * g;
    assert(h > 0) by (nonlinear_arith)
        requires
            h == x * a2 * g,
            x > 0,
            a2 > 0,
            g > 0,
    ;
    assert(h * (2 * (a * a1)) >= h * ((2 * s1 - 1) * b1)) by (nonlinear_arith)
        requires
            h > 0,
            2 * (a * a1) >= (2 * s1 - 1) * b1,
    ;
    assert(h * (2 * (a * a1)) == 2 * (c * (a * g))) by (nonlinear_arith)
        requires
            h == x * a2 * g,
            c == x * a1 * a2,
    ;
    assert(h * ((2 * s1 - 1) * b1) == z1 * (x * (2 * s1 - 1) * g)) by (nonlinear_arith)
        requires
            h == x * a2 * g,
            z1 == a2 * b1,
    ;
    assert(z1 * (x * (2 * s1 - 1) * g) >= z1 * (y * (2 * s2 + 1) * l)) by (nonlinear_arith)
        requires
            z1 > 0,
            y * (2 * s2 + 1) * l <= x * (2 * s1 - 1) * g,
    ;
    let v = x * a1 * b2;
    assert(z1 * (y * (2 * s2 + 1) * l) == (y * b1 * a2) * ((2 * s2 + 1) * l)) by (nonlinear_arith)
        requires
            z1 == a2 * b1,
    ;
    let f = x * a1 * l;
    assert(f > 0) by (nonlinear_arith)
        requires
            f == x * a1 * l,
            x > 0,
            a1 > 0,
            l > 0,
    ;
    assert(v * ((2 * s2 + 1) * l) == f * ((2 * s2 + 1) * b2)) by (nonlinear_arith)
        requires
            v == x * a1 * b2,
            f == x * a1 * l,
    ;
    assert(f * ((2 * s2 + 1) * b2) >= f * (2 * (b * a2))) by (nonlinear_arith)
        requires
            f > 0,
            2 * (b * a2) <= (2 * s2 + 1) * b2,
    ;
    assert(f * (2 * (b * a2)) == 2 * (c * (b * l))) by (nonlinear_arith)
        requires
            f == x * a1 * l,
            c == x * a1 * a2,
    ;
    assert(b * l <= a * g) by (nonlinear_arith)
        requires
            c > 0,
            c * (b * l) <= c * (a * g),
    ;
}

/// The quotient of two mantissas is about one.
proof fn lemma_quotient_exponent(s1: int, s2: int)
    requires
        BITS_53 <= s1 <= BITS_54,
        BITS_53 <= s2 <= BITS_54,
    ensures
        -54 <= nearest(s1, s2).1 <= -51,
{
    assert(exp(2, 54) == 18_014_398_509_481_984) by {
        reveal_with_fuel(exp, 55);
    }
    lemma_exponent_from(s1, s2, 54);
    assert(exp(2, 50) == 1_125_899_906_842_624) by {
        reveal_with_fuel(exp, 51);
    }
    lemma_exponent_below(s1, s2, 50);
}

/// A quotient below 2 to the power of 38 has twelve bits and more behind the point.
proof fn lemma_time_exponent(a: int, b: int, s1: int, e1: int, s2: int, e2: int, k: int)
    requires
        a > 0,
        b > 0,
        a <= b * 274_877_906_944,
        BITS_53 <= s1 <= BITS_54,
        BITS_53 <= s2 <= BITS_54,
        nearest(a, 1) == (s1, e1),
        nearest(b, 1) == (s2, e2),
        k >= 51,
    ensures
        k - e1 + e2 >= 12,
{
    if e1 - e2 >= 40 {
        nearest_is_close(a, 1);
        nearest_is_close(b, 1);
        let a1 = exp(2, -e1);
        let b1 = exp(2, e1);
        let a2 = exp(2, -e2);
        let b2 = exp(2, e2);
        lemma_exp_pos(2, -e1);
        lemma_exp_pos(2, e1);
        lemma_exp_pos(2, -e2);
        lemma_exp_pos(2, e2);
        lemma_exp_balance(0, e1 - e2, e1, e2);
        let x = exp(2, e1 - e2);
        lemma_exp_grows(2, 40, e1 - e2);
        assert(exp(2, 40) == 1_099_511_627_776) by {
            reveal_with_fuel(exp, 41);
        }
        let c = 274_877_906_944int;
        // b1 * a2 == x * a1 * b2
        assert(b1 * a2 == x * a1 * b2) by (nonlinear_arith)
            requires
                exp(2, 0) * b1 * a2 == x * a1 * b2,
                exp(2, 0) == 1,
        ;
        assert(2 * (a * a1) >= (2 * s1 - 1) * b1) by (nonlinear_arith)
            requires
                2 * (s1 * b1 * 1 - a * a1) <= b1 * 1,
        ;
        assert(2 * (b * a2) <= (2 * s2 + 1) * b2) by (nonlinear_arith)
            requires
                -(b2 * 1) <= 2 * (s2 * b2 * 1 - b * a2),
        ;
        let f = a1 * a2;
        assert(f > 0) by (nonlinear_arith)
            requires
                f == a1 * a2,
                a1 > 0,
                a2 > 0,
        ;
        assert(2 * (a * f) <= c * (2 * (b * f))) by (nonlinear_arith)
            requires
                f > 0,
                a <= b * c,
        ;
        assert(2 * (a * f) >= (2 * s1 - 1) * (b1 * a2)) by (nonlinear_arith)
            requires
                2 * (a * a1) >= (2 * s1 - 1) * b1,
                f == a1 * a2,
                a2 > 0,
        ;
        assert(2 * (b * f) <= (2 * s2 + 1) * (a1 * b2)) by (nonlinear_arith)
            requires
                2 * (b * a2) <= (2 * s2 + 1) * b2,
                f == a1 * a2,
                a1 > 0,
        ;
        let z = a1 * b2;
        assert(z > 0) by (nonlinear_arith)
            requires
                z == a1 * b2,
                a1 > 0,
                b2 > 0,
        ;
        assert(b1 * a2 >= 1_099_511_627_776 * z) by (nonlinear_arith)
            requires
                b1 * a2 == x * a1 * b2,
                z == a1 * b2,
                z > 0,
                x >= 1_099_511_627_776,
        ;
        assert((2 * s1 - 1) * (b1 * a2) >= 9_007_199_254_740_991 * (1_099_511_627_776 * z))
            by (nonlinear_arith)
            requires
                2 * s1 - 1 >= 9_007_199_254_740_991,
                b1 * a2 >= 1_099_511_627_776 * z,
                z > 0,
        ;
        assert((2 * s2 + 1) * z <= 18_014_398_509_481_985 * z) by (nonlinear_arith)
            requires
                2 * s2 + 1 <= 18_014_398_509_481_985,
                z > 0,
        ;
        assert(false);
    }
}

/// A number that is not negative: a mantissa of 53 bits, times 2 to the power of the
/// exponent.
#[derive(Clone, Copy, Debug, PartialEq, Eq, Structural)]
pub struct Double {
    pub mantissa: u64,
    pub exponent: i64,
}

impl Double {
    /// Mantissa and exponent.
    pub open spec fn parts(self) -> (int, int) {
        (self.mantissa as int, self.exponent as int)
    }

    /// The number with these parts.
    pub open spec fn of(parts: (int, int)) -> Double {
        Double { mantissa: parts.0 as u64, exponent: parts.1 as i64 }
    }

    /// Whether the mantissa has its bits, or the number is zero; and whether the
    /// exponent is one that a speed or a time can have.
    pub open spec fn valid(self) -> bool {
        ||| self == Double::nothing()
        ||| BITS_53 <= self.mantissa <= BITS_54 && -200 <= self.exponent <= 60
    }

    /// Zero.
    pub open spec fn nothing() -> Double {
        Double { mantissa: 0, exponent: 0 }
    }

    /// Zero.
    pub fn zero() -> (r: Double)
        ensures
            r == Double::nothing(),
            r.valid(),
    {
        Double { mantissa: 0, exponent: 0 }
    }

    /// The number nearest to a whole number.
    pub fn from_u64(n: u64) -> (r: Double)
        ensures
            r.valid(),
            r.parts() == nearest(n as int, 1),
            n > 0 ==> r.mantissa > 0 && -52 <= r.exponent <= 11,
            n == 0 ==> r.mantissa == 0,
    {
        if n == 0 {
            return Double::zero();
        }
        proof {
            lemma_nearest_bits(n as int, 1);
            assert(exp(2, 11) == 2_048) by {
                reveal_with_fuel(exp, 12);
            }
            lemma_exponent_at_most(n as int, 1, 11);
            assert(exp(2, 52) == BITS_53) by {
                reveal_with_fuel(exp, 53);
            }
            assert(n * BITS_53 >= BITS_53) by (nonlinear_arith)
                requires
                    n >= 1,
                    BITS_53 > 0,
            ;
            lemma_exponent_from(n as int, 1, 52);
        }
        if n >= BITS_54 {
            let (s, e) = round_bits(n as u128, Ghost(0), Ghost(1), false);
            assert(n * 1 + 0 == n);
            Double { mantissa: s, exponent: e as i64 }
        } else {
            let (s, k) = round_ratio(n, 1);
            Double { mantissa: s, exponent: -(k as i64) }
        }
    }

    /// Seconds of so many nanoseconds.
    pub fn from_nanos(nanos: u64) -> (r: Double)
        ensures
            r.valid(),
            r.parts() == seconds_of(nanos as int),
            nanos > 0 ==> r.mantissa > 0 && -83 <= r.exponent <= -17,
            nanos == 0 ==> r.mantissa == 0,
    {
        let secs: u64 = nanos / 1_000_000_000;
        let rest: u64 = nanos % 1_000_000_000;
        if rest == 0 {
            let r = Double::from_u64(secs);
            proof {
                assert(secs * exp(2, 0) + 0 == secs);
                if secs > 0 {
                    assert(exp(2, 17) == 131_072) by {
                        reveal_with_fuel(exp, 18);
                    }
                    lemma_exponent_below(secs as int, 1, 17);
                }
            }
            return r;
        }
        let (t, k) = round_ratio(rest, 1_000_000_000);
        let p = power_of_two(k);
        let ghost x = exp(2, k as int);
        proof {
            lemma_exp_pos(2, k as int);
            lemma_exp_grows(2, k as int, 83);
            lemma_exp_add(2, 30, 53);
            assert(exp(2, 30) == 1_073_741_824) by {
                reveal_with_fuel(exp, 31);
            }
            assert(exp(2, 53) == BITS_54) by {
                reveal_with_fuel(exp, 54);
            }
            assert(0 <= secs * p <= 18_446_744_074 * 9_671_406_556_917_033_397_649_408)
                by (nonlinear_arith)
                requires
                    0 <= secs <= 18_446_744_074,
                    0 <= p <= 9_671_406_556_917_033_397_649_408,
            ;
        }
        let sum: u128 = secs as u128 * p + t as u128;
        let (s, e) = round_bits(sum, Ghost(0), Ghost(1), false);
        proof {
            assert(sum * 1 + 0 == sum);
            lemma_nearest_shifted(sum as int, k as int);
            lemma_nearest_bits(sum as int, 1);
            // The sum is below 2 to the power of 35.
            assert(exp(2, 17) == 131_072) by {
                reveal_with_fuel(exp, 18);
            }
            assert(rest * x / 1_000_000_000 < x) by (nonlinear_arith)
                requires
                    0 <= rest < 1_000_000_000,
                    x > 0,
            ;
            assert(sum * 131_072 < BITS_53 * x) by (nonlinear_arith)
                requires
                    sum == secs * x + t,
                    t <= x,
                    x > 0,
                    0 <= secs <= 18_446_744_074,
                    BITS_53 == 4_503_599_627_370_496,
            ;
            lemma_exponent_below(sum as int, x, 17);
        }
        Double { mantissa: s, exponent: e as i64 - k as i64 }
    }

    /// The quotient of two numbers.
    pub fn divided_by(self, other: Double) -> (r: Double)
        requires
            self.valid(),
            other.valid(),
            other.mantissa > 0,
            self.mantissa > 0 ==> -146 <= self.exponent - other.exponent <= 111,
        ensures
            r.valid(),
            r.parts() == divided(self.parts(), other.parts()),
            self.mantissa > 0 ==> r.mantissa > 0 && self.exponent - other.exponent - 54
                <= r.exponent <= self.exponent - other.exponent - 51,
    {
        if self.mantissa == 0 {
            return Double::zero();
        }
        let (s, k) = round_ratio(self.mantissa, other.mantissa);
        proof {
            lemma_quotient_exponent(self.mantissa as int, other.mantissa as int);
        }
        Double { mantissa: s, exponent: self.exponent - other.exponent - k as i64 }
    }

    /// Whether a number is at least `n`.
    pub fn at_least(self, n: u64) -> (r: bool)
        requires
            self.valid(),
            0 < n <= 1_000_000_000,
        ensures
            r == reaches(self.parts(), n as int),
    {
        if self.exponent >= 0 {
            proof {
                let x = exp(2, self.exponent as int);
                lemma_exp_pos(2, self.exponent as int);
                assert(self.mantissa * x >= self.mantissa) by (nonlinear_arith)
                    requires
                        x >= 1,
                ;
                assert(0 * x == 0);
            }
            self.mantissa > 0
        } else if self.exponent < -90 {
            proof {
                let x = exp(2, -(self.exponent as int));
                lemma_exp_grows(2, 54, -(self.exponent as int));
                assert(exp(2, 54) == 18_014_398_509_481_984) by {
                    reveal_with_fuel(exp, 55);
                }
                assert(n * x >= x) by (nonlinear_arith)
                    requires
                        n >= 1,
                        x >= 0,
                ;
            }
            false
        } else {
            let p = power_of_two((-self.exponent) as u32);
            proof {
                lemma_exp_grows(2, -(self.exponent as int), 90);
                lemma_exp_add(2, 45, 45);
                assert(exp(2, 45) == 35_184_372_088_832) by {
                    reveal_with_fuel(exp, 46);
                }
                let y = exp(2, 45);
                assert(y * y == 1_237_940_039_285_380_274_899_124_224) by (nonlinear_arith)
                    requires
                        y == 35_184_372_088_832,
                ;
                assert(0 <= n * p <= 1_000_000_000 * 1_237_940_039_285_380_274_899_124_224)
                    by (nonlinear_arith)
                    requires
                        0 <= n <= 1_000_000_000,
                        0 <= p <= 1_237_940_039_285_380_274_899_124_224,
                ;
            }
            self.mantissa as u128 >= n as u128 * p
        }
    }

    /// The whole part of a number, as far as a `u64` holds it.
    pub fn whole(self) -> (r: u64)
        requires
            self.valid(),
        ensures
            r == whole_of(self.parts()),
    {
        let whole: u128 = take_whole(self.mantissa, self.exponent, 1);
        if whole > u64::MAX as u128 {
            u64::MAX
        } else {
            whole as u64
        }
    }

    /// A number, to the nearest whole number.
    pub fn rounded(self) -> (r: u128)
        requires
            self.valid(),
        ensures
            r == rounded_times(self.mantissa as int, self.exponent as int, 1),
    {
        times_rounded(self.mantissa, self.exponent, 1)
    }

    /// Nanoseconds of a number of seconds, to the nearest whole number.
    pub fn nanos(self) -> (r: u128)
        requires
            self.valid(),
            self.exponent <= 30,
        ensures
            r == rounded_times(self.mantissa as int, self.exponent as int, 1_000_000_000),
    {
        times_rounded(self.mantissa, self.exponent, 1_000_000_000)
    }

    /// A quotient of a number, times `mult`, to the nearest whole number.
    pub fn quotient(self, unit: u64, mult: u64) -> (r: u128)
        requires
            self.valid(),
            self.mantissa > 0,
            1_000 <= unit <= 1_000_000_000,
            1 <= mult <= 10,
        ensures
            r == rounded_quotient(self.parts(), unit as int, mult as int),
    {
        let (t, k) = round_ratio(self.mantissa, unit);
        times_rounded(t, self.exponent - k as i64, mult)
    }
}

// ---------------------------------------------------------------------------
// Exact results
// ---------------------------------------------------------------------------

/// Whether `s` times 2 to the power of `e` is `n`.
pub open spec fn is_exactly(s: int, e: int, n: int) -> bool {
    if e >= 0 {
        s * exp(2, e) == n
    } else {
        s == n * exp(2, -e)
    }
}

proof fn lemma_nearest_is_exact(a: int, j: int, i: int)
    requires
        0 < a < BITS_54,
        0 <= i <= j,
    ensures
        ({
            let num = a * exp(2, j);
            let (s, e) = nearest(num, exp(2, i));
            num > 0 && is_exactly(s, e + i, num)
        }),
    decreases
            (if BITS_53 * exp(2, i) <= a * exp(2, j) && a * exp(2, j) < BITS_54 * exp(2, i) {
                0int
            } else {
                1int
            }),
            (if a * exp(2, j) < BITS_53 * exp(2, i) {
                BITS_53 * exp(2, i) - a * exp(2, j)
            } else {
                a * exp(2, j) - exp(2, i)
            }),
{
    let num = a * exp(2, j);
    let den = exp(2, i);
    lemma_exp_pos(2, j);
    lemma_exp_pos(2, i);
    assert(num > 0) by (nonlinear_arith)
        requires
            num == a * exp(2, j),
            a > 0,
            exp(2, j) > 0,
    ;
    if num < BITS_53 * den {
        assert(a * exp(2, j + 1) == 2 * num) by {
            let x = exp(2, j);
            assert(exp(2, j + 1) == 2 * x);
            assert(a * (2 * x) == 2 * (a * x)) by (nonlinear_arith);
        }
        lemma_nearest_is_exact(a, j + 1, i);
        let (s, e) = nearest(2 * num, den);
        if e + i >= 1 {
            let x = exp(2, e + i - 1);
            assert(exp(2, e + i) == 2 * x);
            assert(s * (2 * x) == 2 * (s * x)) by (nonlinear_arith);
        } else {
            let x = exp(2, -(e + i));
            assert(exp(2, 1 - (e + i)) == 2 * x);
            assert((2 * num) * x == num * (2 * x)) by (nonlinear_arith);
            if e + i == 0 {
                assert(s * 1 == s);
            }
        }
    } else if num >= BITS_54 * den {
        if i == j {
            assert(num < BITS_54 * den) by (nonlinear_arith)
                requires
                    num == a * exp(2, j),
                    den == exp(2, j),
                    a < BITS_54,
                    den > 0,
            ;
        }
        assert(exp(2, i + 1) == 2 * den);
        lemma_nearest_is_exact(a, j, i + 1);
    } else {
        lemma_exp_add(2, j - i, i);
        let q = a * exp(2, j - i);
        assert(num == q * den) by (nonlinear_arith)
            requires
                num == a * exp(2, j),
                exp(2, j) == exp(2, j - i) * den,
                q == a * exp(2, j - i),
        ;
        vstd::arithmetic::div_mod::lemma_fundamental_div_mod_converse(num, den, q, 0);
        assert(half_even(num, den) == q);
    }
}

/// Where a whole number and its product with `scale` are below 2 to the power of 53,
/// nothing is lost: the result is the whole part of the true quotient.
pub proof fn small_products_are_exact(n: int, scale: int, div: int)
    requires
        n >= 0,
        scale >= 1,
        div >= 1,
        n * scale < BITS_54,
    ensures
        scaled_double(n, 1, scale, div) == n * scale / div,
{
    if n == 0 {
        assert(nearest(0, 1) == (0int, 0int));
        assert(0 * scale == 0);
        assert(0 * exp(2, 0) == 0);
        assert(0int / div == 0) by (nonlinear_arith)
            requires
                div >= 1,
        ;
        return ;
    }
    assert(n <= n * scale) by (nonlinear_arith)
        requires
            n > 0,
            scale >= 1,
    ;
    let (s, e) = nearest(n, 1);
    assert(exp(2, 0) == 1);
    assert(n * 1 == n);
    lemma_nearest_is_exact(n, 0, 0);
    lemma_exponent_not_positive(n, 1);
    let j = -e;
    assert(s == n * exp(2, j)) by {
        if e == 0 {
            assert(s * 1 == s);
        }
    }
    let a = n * scale;
    let p = s * scale;
    assert(p == a * exp(2, j)) by (nonlinear_arith)
        requires
            p == s * scale,
            s == n * exp(2, j),
            a == n * scale,
    ;
    lemma_nearest_is_exact(a, j, 0);
    let (t, f) = nearest(p, 1);
    lemma_exp_pos(2, j);
    if e + f >= 0 {
        lemma_exp_add(2, e + f, j);
        let x = exp(2, e + f);
        let y = exp(2, j);
        assert(exp(2, f) == x * y);
        assert(t * x == a) by (nonlinear_arith)
            requires
                t * (x * y) == a * y,
                y > 0,
        ;
    } else {
        let g = -(e + f);
        let z = exp(2, g);
        lemma_exp_pos(2, g);
        assert(t == a * z) by {
            if f >= 0 {
                lemma_exp_add(2, f, g);
                let x = exp(2, f);
                lemma_exp_pos(2, f);
                assert(exp(2, j) == x * z);
                assert(t == a * z) by (nonlinear_arith)
                    requires
                        t * x == a * (x * z),
                        x > 0,
                ;
            } else {
                lemma_exp_add(2, j, -f);
                let x = exp(2, j);
                let y = exp(2, -f);
                assert(z == x * y);
                assert(a * x * y == a * (x * y)) by (nonlinear_arith);
            }
        }
        assert(t / (z * div) == a / div) by {
            vstd::arithmetic::div_mod::lemma_div_denominator(t, z, div);
            vstd::arithmetic::div_mod::lemma_div_multiples_vanish(a, z);
            assert(a * z / z == a) by (nonlinear_arith)
                requires
                    z > 0,
            ;
        }
    }
    assert(n * scale / div <= n * scale) by (nonlinear_arith)
        requires
            div >= 1,
            n * scale >= 0,
    ;
}

} // verus!
