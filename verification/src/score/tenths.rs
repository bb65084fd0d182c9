//! What holds of rounding up to tenths: a value from 0 to 10 gives a score
//! from 0.0 to 10.0, and the number of a score gives the same score.

use crate::bounds::{
    at, lemma_ceil_at_most, lemma_nearest_at_most, lemma_product_upper, lemma_ratio_exact,
    lemma_whole_normal, whole,
};
use crate::float::{
    excess_bits, magnitude_le, product, ratio, ratio_shift, round, rounds_up, Dyadic, MANT_LIMIT,
    MANT_MIN,
};
use crate::interval::{
    lemma_nearest_between, lemma_product_above, lemma_product_below, lemma_ratio_above,
    lemma_ratio_below, UNIT,
};
use crate::rounding::{lemma_excess_range, lemma_ratio_range};
use crate::score::{round_up_ceiling, round_up_corrected, ten};
use vstd::arithmetic::div_mod::*;
use vstd::arithmetic::power2::*;
use vstd::prelude::*;

verus! {

/// The quotient `10 / 1` is ten.
pub proof fn lemma_ratio_ten()
    ensures
        ratio(10, 1) == ten(),
        ten().normal(),
        !ten().is_zero(),
        ten().mant == 0x14_0000_0000_0000,
        ten().exp == -49,
{
    lemma2_to64();
    lemma2_to64_rest();
    lemma_whole_normal(10, 4);
    lemma_ratio_exact(10, 1, ten().mant, 49);
}

/// A value from 0 to 10 rounds up to between 0 and 100 tenths by the ceiling.
pub proof fn lemma_round_up_ceiling_range(x: Dyadic)
    requires
        x.normal(),
        !x.neg,
        magnitude_le(x, ten()),
    ensures
        0 <= round_up_ceiling(x) <= 100,
{
    lemma2_to64();
    lemma2_to64_rest();
    lemma_ratio_ten();
    lemma_whole_normal(100, 7);
    let y = whole(100, 7);
    assert(at(ten(), -49) * at(ten(), -49) <= at(y, -98)) by (nonlinear_arith)
        requires
            at(ten(), -49) == 0x14_0000_0000_0000 * 1,
            at(y, -98) == (100 * 0x4000_0000_0000) * 0x10_0000_0000_0000,
    ;
    lemma_product_upper(x, ten(), ten(), ten(), y, -49, -49);
    lemma_ceil_at_most(product(x, ten()), 100, 7);
}

/// A value from 0 to 10 rounds up to between 0 and 100 tenths by way of the
/// nearest hundred thousandth.
pub proof fn lemma_round_up_corrected_range(x: Dyadic)
    requires
        x.normal(),
        !x.neg,
        magnitude_le(x, ten()),
    ensures
        0 <= round_up_corrected(x) <= 100,
{
    lemma2_to64();
    lemma2_to64_rest();
    lemma_ratio_ten();
    lemma_whole_normal(100000, 17);
    lemma_whole_normal(1000000, 20);
    let scale = whole(100000, 17);
    let y = whole(1000000, 20);
    lemma_pow2_adds(33, 3);
    lemma_ratio_exact(100000, 1, scale.mant, 36);
    assert(at(ten(), -49) * at(scale, -36) <= at(y, -85)) by (nonlinear_arith)
        requires
            at(ten(), -49) == 0x14_0000_0000_0000 * 1,
            at(scale, -36) == (100000 * 0x10_0000_0000) * 1,
            at(y, -85) == (1000000 * 0x2_0000_0000) * 0x10_0000_0000_0000,
    ;
    lemma_product_upper(x, scale, ten(), scale, y, -49, -36);
    lemma_nearest_at_most(product(x, scale), 1000000, 20);
}

/// A score of so many tenths, as a number, rounds up to the same tenths by
/// way of the nearest hundred thousandth.
pub proof fn lemma_corrected_tenths(t: nat)
    requires
        t <= 100,
    ensures
        round_up_corrected(ratio(t, 10)) == t,
{
    let x = ratio(t, 10);
    let scale = ratio(100000, 1);
    if t == 0 {
        reveal(ratio);
        reveal(round);
        lemma2_to64();
        assert(0 * scale.mant == 0);
        assert(0 * pow2(0) == 0);
    } else {
        let lo: nat = ((t * UNIT) / 10) as nat;
        let hi: nat = lo + 1;
        let big: nat = (100000 * UNIT) as nat;
        lemma_fundamental_div_mod((t * UNIT) as int, 10);
        lemma_mod_pos_bound((t * UNIT) as int, 10);
        lemma_ratio_above(t, 10, lo);
        lemma_ratio_below(t, 10, hi);
        lemma_ratio_above(100000, 1, big);
        lemma_ratio_below(100000, 1, big);
        assert((lo * 100000) * UNIT == lo * big && (hi * 100000) * UNIT == hi * big)
            by (nonlinear_arith)
            requires
                big == 100000 * UNIT,
        ;
        let below: nat = lo * 100000;
        let above: nat = hi * 100000;
        lemma_product_above(x, scale, lo, big, below);
        lemma_product_below(x, scale, hi, big, above);
        lemma_nearest_between(product(x, scale), below, above, 10000 * t);
        lemma_mod_multiples_basic(t as int, 10000);
        lemma_div_multiples_vanish(t as int, 10000);
    }
}

/// A score of so many tenths, as a number, rounds up to the same tenths by
/// the ceiling: its tenfold is rounded to the whole number of the tenths,
/// although the number itself is not exact.
pub proof fn lemma_ceiling_tenths(t: nat)
    requires
        t <= 100,
    ensures
        round_up_ceiling(ratio(t, 10)) == t,
{
    lemma_ratio_ten();
    lemma2_to64();
    lemma2_to64_rest();
    reveal(ratio);
    reveal(round);
    let ten_mant: nat = 0x14_0000_0000_0000;
    if t == 0 {
        assert(0 * ten_mant == 0);
        assert(0 * pow2(0) == 0);
    } else {
        let k = ratio_shift(t, 10);
        let big = t * pow2(k);
        lemma_ratio_range(t, 10);
        if k <= 48 {
            if k < 48 {
                lemma_pow2_strictly_increases(k, 48);
            }
            assert(t * pow2(k) <= 100 * 0x1_0000_0000_0000) by (nonlinear_arith)
                requires
                    t <= 100,
                    pow2(k) <= 0x1_0000_0000_0000,
            ;
        }
        let h = pow2((k - 49) as nat);
        lemma_pow2_adds(49, (k - 49) as nat);
        lemma_pow2_pos((k - 49) as nat);
        let th = t * h;
        assert(big == th * 0x2_0000_0000_0000) by (nonlinear_arith)
            requires
                big == t * pow2(k),
                pow2(k) == 0x2_0000_0000_0000 * h,
                th == t * h,
        ;
        assert(th <= 159) by (nonlinear_arith)
            requires
                big == th * 0x2_0000_0000_0000,
                big < MANT_LIMIT * 10,
                MANT_LIMIT == 0x20_0000_0000_0000,
        ;
        let q = big / 10;
        let r = big % 10;
        lemma_fundamental_div_mod(big as int, 10);
        lemma_mod_pos_bound(big as int, 10);
        assert(r % 2 == 0) by {
            assert(r == 2 * (th * 0x1_0000_0000_0000 - 5 * q));
        }
        let m = if rounds_up(q, r, 10) {
            q + 1
        } else {
            q
        };
        let delta: int = 10 * m - big;
        assert(delta == 0 || delta == 2 || delta == 4 || delta == -2 || delta == -4);
        assert(MANT_MIN <= m < MANT_LIMIT);
        let x = ratio(t, 10);
        assert(x == Dyadic { neg: false, mant: m, exp: -(k as int) });
        let n = m * ten_mant;
        let e = -(k as int) - 49;
        assert(n == (big + delta) * 0x2_0000_0000_0000) by (nonlinear_arith)
            requires
                n == m * ten_mant,
                ten_mant == 10 * 0x2_0000_0000_0000,
                delta == 10 * m - big,
        ;
        assert(n >= MANT_MIN * 0x10_0000_0000_0000 && n < MANT_LIMIT * 0x20_0000_0000_0000)
            by (nonlinear_arith)
            requires
                n == m * ten_mant,
                ten_mant == 0x14_0000_0000_0000,
                MANT_MIN <= m < MANT_LIMIT,
                MANT_MIN == 0x10_0000_0000_0000,
                MANT_LIMIT == 0x20_0000_0000_0000,
        ;
        let s = excess_bits(n);
        let d = pow2(s);
        lemma_excess_range(n);
        lemma_pow2_pos(s);
        if s < 52 {
            if s < 51 {
                lemma_pow2_strictly_increases(s, 51);
            }
            assert(d * MANT_LIMIT <= 0x8_0000_0000_0000 * MANT_LIMIT) by (nonlinear_arith)
                requires
                    d <= 0x8_0000_0000_0000,
            ;
        }
        if s > 53 {
            if s > 54 {
                lemma_pow2_strictly_increases(54, s);
            }
            assert(d * MANT_MIN >= 0x40_0000_0000_0000 * MANT_MIN) by (nonlinear_arith)
                requires
                    d >= 0x40_0000_0000_0000,
            ;
        }
        assert(52 <= s <= 53);
        let w = (k + 49 - s) as nat;
        let a = t * pow2(w);
        lemma_pow2_adds(w, s);
        lemma_pow2_adds(k, 49);
        assert(w + s == k + 49);
        lemma_pow2_unfold(w);
        lemma_pow2_pos((w - 1) as nat);
        assert(a * d == big * 0x2_0000_0000_0000) by (nonlinear_arith)
            requires
                a == t * pow2(w),
                pow2(w) * d == pow2(k) * 0x2_0000_0000_0000,
                big == t * pow2(k),
        ;
        let rest: int = delta * 0x2_0000_0000_0000;
        assert(n == a * d + rest) by (nonlinear_arith)
            requires
                n == (big + delta) * 0x2_0000_0000_0000,
                a * d == big * 0x2_0000_0000_0000,
                rest == delta * 0x2_0000_0000_0000,
        ;
        assert(d >= 0x10_0000_0000_0000) by {
            if s > 52 {
                lemma_pow2_strictly_increases(52, s);
            }
        }
        let half = pow2((w - 1) as nat) as int;
        assert(a == 2 * (t * half)) by (nonlinear_arith)
            requires
                a == t * pow2(w),
                pow2(w) == 2 * half,
        ;
        assert(a % 2 == 0);
        assert(rest == 0 || rest == 0x4_0000_0000_0000 || rest == 0x8_0000_0000_0000 || rest
            == -0x4_0000_0000_0000 || rest == -0x8_0000_0000_0000);
        if delta >= 0 {
            assert(0 <= rest < d);
            assert(n == d * a + rest) by (nonlinear_arith)
                requires
                    n == a * d + rest,
            ;
            lemma_fundamental_div_mod_converse(n as int, d as int, a as int, rest);
        } else {
            assert(0 <= d + rest < d);
            assert(n == d * (a - 1) + (d + rest)) by (nonlinear_arith)
                requires
                    n == a * d + rest,
            ;
            lemma_fundamental_div_mod_converse(n as int, d as int, a - 1, d + rest);
        }
        let p = product(x, ratio(10, 1));
        lemma_fundamental_div_mod(n as int, d as int);
        lemma_mod_pos_bound(n as int, d as int);
        assert(MANT_MIN <= n / d < MANT_LIMIT) by (nonlinear_arith)
            requires
                n == d * (n / d) + n % d,
                0 <= n % d < d,
                d * MANT_MIN <= n < d * MANT_LIMIT,
        ;
        if a == MANT_LIMIT {
            assert(p == Dyadic { neg: false, mant: MANT_MIN as nat, exp: e + s + 1 });
            assert(-(MANT_MIN as int) == half * (-(t as int)) + 0) by (nonlinear_arith)
                requires
                    a == MANT_LIMIT,
                    a == 2 * (t * half),
                    MANT_LIMIT == 2 * MANT_MIN,
            ;
            lemma_fundamental_div_mod_converse(-(MANT_MIN as int), half, -(t as int), 0);
        } else {
            assert(p == Dyadic { neg: false, mant: a, exp: e + s });
            let unit = pow2(w) as int;
            lemma_pow2_pos(w);
            assert(-(a as int) == unit * (-(t as int)) + 0) by (nonlinear_arith)
                requires
                    a == t * unit,
            ;
            lemma_fundamental_div_mod_converse(-(a as int), unit, -(t as int), 0);
        }
    }
}

} // verus!
