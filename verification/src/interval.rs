//! Bounds in fixed point: a bound is a natural `n` that stands for
//! `n / 2^24`. With such bounds on what goes into a rounded operation, a
//! bound on what comes out takes one comparison of naturals.

use crate::bounds::{
    at, lemma_at_order, lemma_at_shift, lemma_difference_lower, lemma_difference_upper,
    lemma_product_lower, lemma_product_upper, lemma_sum_lower, lemma_sum_upper,
};
use crate::float::{
    difference, magnitude_le, missing_bits, nearest, product, ratio, round, sum, Dyadic, MANT_LIMIT,
    MANT_MIN,
};
use crate::rounding::{
    lemma_missing_range, lemma_ratio_lower, lemma_ratio_normal, lemma_ratio_upper,
    lemma_round_upper,
};
use vstd::arithmetic::div_mod::*;
use vstd::arithmetic::power2::*;
use vstd::prelude::*;

verus! {

/// How many fixed-point units make one: `2^24`.
pub const UNIT: u64 = 0x100_0000;

/// The number `n / 2^24`.
pub open spec fn fixed(n: nat) -> Dyadic {
    round(false, n, -24)
}

/// Whether a value is normal and not negative.
pub open spec fn plain(x: Dyadic) -> bool {
    x.normal() && !x.neg
}

/// A fixed-point number with a numerator below `2^52` is what it says:
/// normal, not negative, zero only for `n = 0`, and `n * 2^52` in units of
/// `2^-76`.
pub proof fn lemma_fixed(n: nat)
    requires
        n < 0x10_0000_0000_0000,
    ensures
        plain(fixed(n)),
        fixed(n).is_zero() <==> n == 0,
        -76 <= fixed(n).exp <= 0,
        at(fixed(n), -76) == n * pow2(52),
{
    reveal(round);
    lemma2_to64();
    lemma2_to64_rest();
    if n == 0 {
        assert(0 * pow2(76) == 0);
    } else {
        let k = missing_bits(n);
        lemma_missing_range(n);
        lemma_pow2_pos(k);
        if k > 52 {
            if k > 53 {
                lemma_pow2_strictly_increases(53, k);
            }
            assert(n * pow2(k) >= MANT_LIMIT) by (nonlinear_arith)
                requires
                    n >= 1,
                    pow2(k) >= MANT_LIMIT,
            ;
        }
        lemma_pow2_adds(k, (52 - k) as nat);
        assert((n * pow2(k)) * pow2((52 - k) as nat) == n * (pow2(k) * pow2((52 - k) as nat)))
            by (nonlinear_arith);
    }
}

/// A quotient `w / d` that is at most `n / 2^24` rounds to at most that.
pub proof fn lemma_ratio_below(w: nat, d: nat, n: nat)
    requires
        0 < d,
        w < 0x1_0000_0000,
        0 < n < 0x10_0000_0000_0000,
        w * UNIT <= n * d,
    ensures
        plain(ratio(w, d)),
        ratio(w, d).is_zero() <==> w == 0,
        magnitude_le(ratio(w, d), fixed(n)),
{
    let y = fixed(n);
    lemma_fixed(n);
    lemma2_to64();
    lemma2_to64_rest();
    assert(w < MANT_MIN * d) by (nonlinear_arith)
        requires
            w < 0x1_0000_0000,
            d >= 1,
            MANT_MIN == 0x10_0000_0000_0000,
    ;
    lemma_ratio_normal(w, d);
    let t = (-y.exp) as nat;
    let u = (y.exp + 76) as nat;
    lemma_pow2_adds(t, u);
    lemma_pow2_adds(24, 52);
    lemma_pow2_pos(u);
    assert(w * pow2(t) <= y.mant * d) by (nonlinear_arith)
        requires
            y.mant * pow2(u) == n * pow2(52),
            pow2(t) * pow2(u) == pow2(24) * pow2(52),
            pow2(24) == UNIT,
            w * UNIT <= n * d,
            pow2(u) > 0,
            pow2(52) > 0,
    ;
    lemma_ratio_upper(w, d, y);
}

/// A quotient `w / d` that is at least `n / 2^24` rounds to at least that.
pub proof fn lemma_ratio_above(w: nat, d: nat, n: nat)
    requires
        0 < d,
        w < 0x1_0000_0000,
        0 < n < 0x10_0000_0000_0000,
        n * d <= w * UNIT,
    ensures
        plain(ratio(w, d)),
        !ratio(w, d).is_zero(),
        magnitude_le(fixed(n), ratio(w, d)),
{
    let y = fixed(n);
    lemma_fixed(n);
    lemma2_to64();
    lemma2_to64_rest();
    assert(w < MANT_MIN * d) by (nonlinear_arith)
        requires
            w < 0x1_0000_0000,
            d >= 1,
            MANT_MIN == 0x10_0000_0000_0000,
    ;
    lemma_ratio_normal(w, d);
    let t = (-y.exp) as nat;
    let u = (y.exp + 76) as nat;
    lemma_pow2_adds(t, u);
    lemma_pow2_adds(24, 52);
    lemma_pow2_pos(u);
    assert(y.mant * d <= w * pow2(t)) by (nonlinear_arith)
        requires
            y.mant * pow2(u) == n * pow2(52),
            pow2(t) * pow2(u) == pow2(24) * pow2(52),
            pow2(24) == UNIT,
            n * d <= w * UNIT,
            pow2(u) > 0,
            pow2(52) > 0,
    ;
    lemma_ratio_lower(w, d, y);
}

/// Products of fixed-point numbers, in units of `2^-152`.
proof fn lemma_fixed_product(n1: nat, n2: nat, n3: nat)
    requires
        n1 < 0x10_0000_0000_0000,
        n2 < 0x10_0000_0000_0000,
        n3 < 0x10_0000_0000_0000,
    ensures
        at(fixed(n1), -76) * at(fixed(n2), -76) == (n1 * n2) * (pow2(52) * pow2(52)),
        at(fixed(n3), -152) == (n3 * UNIT) * (pow2(52) * pow2(52)),
        pow2(52) * pow2(52) > 0,
{
    lemma_fixed(n1);
    lemma_fixed(n2);
    lemma_fixed(n3);
    lemma2_to64();
    lemma2_to64_rest();
    lemma_at_shift(fixed(n3), -152, -76);
    lemma_pow2_adds(24, 52);
    let p = pow2(52);
    assert((n1 * p) * (n2 * p) == (n1 * n2) * (p * p)) by (nonlinear_arith);
    assert((n3 * p) * (UNIT * p) == (n3 * UNIT) * (p * p)) by (nonlinear_arith);
    assert(p * p > 0) by (nonlinear_arith)
        requires
            p > 0,
    ;
}

/// A product of values that are at most `n1 / 2^24` and `n2 / 2^24` is at
/// most `n3 / 2^24` where `n1 * n2 <= n3 * 2^24`.
pub proof fn lemma_product_below(a: Dyadic, b: Dyadic, n1: nat, n2: nat, n3: nat)
    requires
        plain(a),
        plain(b),
        n1 < 0x10_0000_0000_0000,
        n2 < 0x10_0000_0000_0000,
        0 < n3 < 0x10_0000_0000_0000,
        magnitude_le(a, fixed(n1)),
        magnitude_le(b, fixed(n2)),
        n1 * n2 <= n3 * UNIT,
    ensures
        plain(product(a, b)),
        magnitude_le(product(a, b), fixed(n3)),
{
    lemma_fixed(n1);
    lemma_fixed(n2);
    lemma_fixed(n3);
    lemma_fixed_product(n1, n2, n3);
    assert((n1 * n2) * (pow2(52) * pow2(52)) <= (n3 * UNIT) * (pow2(52) * pow2(52)))
        by (nonlinear_arith)
        requires
            n1 * n2 <= n3 * UNIT,
            pow2(52) * pow2(52) > 0,
    ;
    lemma_product_upper(a, b, fixed(n1), fixed(n2), fixed(n3), -76, -76);
}

/// A product of values that are at least `n1 / 2^24` and `n2 / 2^24` is at
/// least `n3 / 2^24` where `n3 * 2^24 <= n1 * n2`.
pub proof fn lemma_product_above(a: Dyadic, b: Dyadic, n1: nat, n2: nat, n3: nat)
    requires
        plain(a),
        plain(b),
        0 < n1 < 0x10_0000_0000_0000,
        0 < n2 < 0x10_0000_0000_0000,
        0 < n3 < 0x10_0000_0000_0000,
        magnitude_le(fixed(n1), a),
        magnitude_le(fixed(n2), b),
        n3 * UNIT <= n1 * n2,
    ensures
        plain(product(a, b)),
        !product(a, b).is_zero(),
        magnitude_le(fixed(n3), product(a, b)),
{
    lemma_fixed(n1);
    lemma_fixed(n2);
    lemma_fixed(n3);
    lemma_fixed_product(n1, n2, n3);
    assert((n3 * UNIT) * (pow2(52) * pow2(52)) <= (n1 * n2) * (pow2(52) * pow2(52)))
        by (nonlinear_arith)
        requires
            n3 * UNIT <= n1 * n2,
            pow2(52) * pow2(52) > 0,
    ;
    lemma_product_lower(a, b, fixed(n1), fixed(n2), fixed(n3), -76, -76);
}

/// A sum of values that are at most `n1 / 2^24` and `n2 / 2^24` is at most
/// `n3 / 2^24` where `n1 + n2 <= n3`.
pub proof fn lemma_sum_below(a: Dyadic, b: Dyadic, n1: nat, n2: nat, n3: nat)
    requires
        plain(a),
        plain(b),
        n1 < 0x10_0000_0000_0000,
        n2 < 0x10_0000_0000_0000,
        0 < n3 < 0x10_0000_0000_0000,
        magnitude_le(a, fixed(n1)),
        magnitude_le(b, fixed(n2)),
        n1 + n2 <= n3,
    ensures
        plain(sum(a, b)),
        magnitude_le(sum(a, b), fixed(n3)),
{
    lemma_fixed(n1);
    lemma_fixed(n2);
    lemma_fixed(n3);
    assert(n1 * pow2(52) + n2 * pow2(52) <= n3 * pow2(52)) by (nonlinear_arith)
        requires
            n1 + n2 <= n3,
    ;
    lemma_sum_upper(a, b, fixed(n1), fixed(n2), fixed(n3), -76);
}

/// A sum of values that are at least `n1 / 2^24` and `n2 / 2^24` is at least
/// `n3 / 2^24` where `n3 <= n1 + n2`.
pub proof fn lemma_sum_above(a: Dyadic, b: Dyadic, n1: nat, n2: nat, n3: nat)
    requires
        plain(a),
        plain(b),
        n1 < 0x10_0000_0000_0000,
        n2 < 0x10_0000_0000_0000,
        0 < n3 < 0x10_0000_0000_0000,
        magnitude_le(fixed(n1), a),
        magnitude_le(fixed(n2), b),
        n3 <= n1 + n2,
    ensures
        plain(sum(a, b)),
        !sum(a, b).is_zero(),
        magnitude_le(fixed(n3), sum(a, b)),
{
    lemma_fixed(n1);
    lemma_fixed(n2);
    lemma_fixed(n3);
    assert(n3 * pow2(52) <= n1 * pow2(52) + n2 * pow2(52)) by (nonlinear_arith)
        requires
            n3 <= n1 + n2,
    ;
    lemma_sum_lower(a, b, fixed(n1), fixed(n2), fixed(n3), -76);
}

/// A difference of a value that is at least `n1 / 2^24` and one that is at
/// most `n2 / 2^24` is at least `n3 / 2^24` where `n3 + n2 <= n1`.
pub proof fn lemma_difference_above(a: Dyadic, b: Dyadic, n1: nat, n2: nat, n3: nat)
    requires
        plain(a),
        plain(b),
        n1 < 0x10_0000_0000_0000,
        n2 < 0x10_0000_0000_0000,
        0 < n3 < 0x10_0000_0000_0000,
        magnitude_le(fixed(n1), a),
        magnitude_le(b, fixed(n2)),
        n3 + n2 <= n1,
    ensures
        plain(difference(a, b)),
        !difference(a, b).is_zero(),
        magnitude_le(fixed(n3), difference(a, b)),
{
    lemma_fixed(n1);
    lemma_fixed(n2);
    lemma_fixed(n3);
    assert(n3 * pow2(52) + n2 * pow2(52) <= n1 * pow2(52)) by (nonlinear_arith)
        requires
            n3 + n2 <= n1,
    ;
    lemma_difference_lower(a, b, fixed(n1), fixed(n2), fixed(n3), -76);
}

/// A difference of a value that is at most `n1 / 2^24` and a smaller one
/// that is at least `n2 / 2^24` is at most `n3 / 2^24` where
/// `n1 <= n3 + n2`.
pub proof fn lemma_difference_below(a: Dyadic, b: Dyadic, n1: nat, n2: nat, n3: nat)
    requires
        plain(a),
        plain(b),
        n1 < 0x10_0000_0000_0000,
        n2 < 0x10_0000_0000_0000,
        0 < n3 < 0x10_0000_0000_0000,
        magnitude_le(a, fixed(n1)),
        magnitude_le(fixed(n2), b),
        magnitude_le(b, a),
        n1 <= n3 + n2,
    ensures
        plain(difference(a, b)),
        magnitude_le(difference(a, b), fixed(n3)),
{
    lemma_fixed(n1);
    lemma_fixed(n2);
    lemma_fixed(n3);
    assert(n1 * pow2(52) <= n3 * pow2(52) + n2 * pow2(52)) by (nonlinear_arith)
        requires
            n1 <= n3 + n2,
    ;
    lemma_difference_upper(a, b, fixed(n1), fixed(n2), fixed(n3), -76);
}

/// Bounds follow one another: what is at most `n1 / 2^24` is at most
/// `n2 / 2^24` where `n1 <= n2`.
pub proof fn lemma_fixed_order(n1: nat, n2: nat)
    requires
        n1 <= n2 < 0x10_0000_0000_0000,
    ensures
        magnitude_le(fixed(n1), fixed(n2)),
{
    reveal(round);
    lemma_fixed(n1);
    lemma_fixed(n2);
    if n1 > 0 {
        let y = fixed(n2);
        let k = missing_bits(n2);
        assert(y.mant == n2 * pow2(k) && y.exp == -24 - k);
        assert(n1 * pow2(k) <= n2 * pow2(k)) by (nonlinear_arith)
            requires
                n1 <= n2,
        ;
        lemma2_to64();
        lemma_round_upper(false, n1, -24, y);
    }
}

/// A value between `lo / 2^24` and `hi / 2^24`, both within a half of the
/// integer `whole`, has `whole` as its nearest integer.
pub proof fn lemma_nearest_between(p: Dyadic, lo: nat, hi: nat, whole: nat)
    requires
        plain(p),
        0 < lo <= hi < 0x1_0000_0000_0000,
        magnitude_le(fixed(lo), p),
        magnitude_le(p, fixed(hi)),
        (2 * whole - 1) * UNIT <= 2 * lo,
        2 * hi < (2 * whole + 1) * UNIT,
    ensures
        nearest(p) == whole,
{
    lemma_fixed(lo);
    lemma_fixed(hi);
    lemma2_to64();
    lemma2_to64_rest();
    let g: int = if p.exp <= -76 {
        p.exp
    } else {
        -76
    };
    lemma_at_order(fixed(lo), p, g);
    lemma_at_order(p, fixed(hi), g);
    lemma_at_shift(fixed(lo), g, -76);
    lemma_at_shift(fixed(hi), g, -76);
    let y = fixed(hi);
    let u = (y.exp + 76) as nat;
    if y.exp > -28 {
        lemma_pow2_strictly_increases(48, u);
        assert(y.mant * pow2(u) >= MANT_MIN * pow2(48)) by (nonlinear_arith)
            requires
                y.mant >= MANT_MIN,
                pow2(u) > pow2(48),
        ;
        lemma_pow2_adds(52, 48);
        lemma_pow2_adds(48, 52);
        assert(hi * pow2(52) < pow2(48) * pow2(52)) by (nonlinear_arith)
            requires
                hi < pow2(48),
                pow2(52) > 0,
        ;
    }
    assert(p.exp <= -28);
    let k = (-p.exp) as nat;
    let d = pow2(k) as int;
    let m = p.mant as int;
    let z = pow2((k - 24) as nat) as int;
    let w = pow2((p.exp - g) as nat) as int;
    let c = pow2((-76 - g) as nat) as int;
    lemma_pow2_pos(k);
    lemma_pow2_pos((k - 24) as nat);
    lemma_pow2_pos((p.exp - g) as nat);
    lemma_pow2_adds(24, (k - 24) as nat);
    lemma_pow2_adds((k - 24) as nat, (p.exp - g) as nat);
    lemma_pow2_adds(52, (-76 - g) as nat);
    lemma_pow2_adds(24, (-24 - g) as nat);
    assert(z * w == pow2((-24 - g) as nat));
    assert(pow2(52) * c == pow2((-24 - g) as nat)) by {
        assert((52 + (-76 - g)) as nat == (-24 - g) as nat);
    }
    assert(lo * (z * w) <= m * w && m * w <= hi * (z * w)) by (nonlinear_arith)
        requires
            at(fixed(lo), g) <= m * w,
            m * w <= at(fixed(hi), g),
            at(fixed(lo), g) == (lo * pow2(52)) * c,
            at(fixed(hi), g) == (hi * pow2(52)) * c,
            pow2(52) * c == z * w,
    ;
    assert(lo * z <= m && m <= hi * z) by (nonlinear_arith)
        requires
            lo * (z * w) <= m * w,
            m * w <= hi * (z * w),
            w > 0,
    ;
    let q = (2 * m + d) / (2 * d);
    lemma_fundamental_div_mod(2 * m + d, 2 * d);
    lemma_mod_pos_bound(2 * m + d, 2 * d);
    assert(q == whole) by (nonlinear_arith)
        requires
            2 * m + d == (2 * d) * q + (2 * m + d) % (2 * d),
            0 <= (2 * m + d) % (2 * d) < 2 * d,
            lo * z <= m,
            m <= hi * z,
            d == UNIT * z,
            z > 0,
            (2 * whole - 1) * UNIT <= 2 * lo,
            2 * hi < (2 * whole + 1) * UNIT,
    ;
}

/// The exponent of a fixed-point number whose numerator has `bits` bits.
pub proof fn lemma_fixed_exponent(n: nat, bits: nat)
    requires
        0 < bits <= 52,
        pow2((bits - 1) as nat) <= n < pow2(bits),
    ensures
        fixed(n).exp == bits - 77,
{
    reveal(round);
    lemma2_to64();
    lemma2_to64_rest();
    lemma_pow2_pos((bits - 1) as nat);
    lemma_pow2_strictly_increases((bits - 1) as nat, 52);
    let k = missing_bits(n);
    lemma_missing_range(n);
    lemma_pow2_adds((bits - 1) as nat, k);
    lemma_pow2_adds(bits, k);
    assert(pow2(((bits - 1) as nat) + k) <= n * pow2(k) < pow2(bits + k)) by (nonlinear_arith)
        requires
            pow2((bits - 1) as nat) <= n < pow2(bits),
            pow2(((bits - 1) as nat) + k) == pow2((bits - 1) as nat) * pow2(k),
            pow2(bits + k) == pow2(bits) * pow2(k),
            pow2(k) > 0,
    ;
    if bits + k > 53 {
        if bits + k > 54 {
            lemma_pow2_strictly_increases(53, ((bits - 1) as nat) + k);
        }
    }
    if bits + k < 53 {
        if bits + k < 52 {
            lemma_pow2_strictly_increases(bits + k, 52);
        }
    }
}

} // verus!
