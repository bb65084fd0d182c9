//! Bounds on rounded results: what a product, a quotient or a rounding to an
//! integer can be at most, or at least, given bounds on what goes in.

use crate::float::{
    ceil, difference, magnitude_le, nearest, product, ratio, ratio_shift, round, scaled_le, sum,
    Dyadic, MANT_LIMIT, MANT_MIN,
};
use crate::rounding::{lemma_round_exact, lemma_round_lower, lemma_round_normal, lemma_round_upper};
use vstd::arithmetic::div_mod::*;
use vstd::arithmetic::power2::*;
use vstd::prelude::*;

verus! {

/// The number one.
pub open spec fn one() -> Dyadic {
    Dyadic { neg: false, mant: MANT_MIN as nat, exp: -52 }
}

/// The natural `n` of `shift` bits as a normal value.
pub open spec fn whole(n: nat, shift: nat) -> Dyadic {
    Dyadic { neg: false, mant: n * pow2((53 - shift) as nat), exp: shift as int - 53 }
}

/// The power of a sum is the product of the powers, which are positive.
proof fn lemma_pow2_sum(a: nat, b: nat)
    ensures
        pow2(a + b) == pow2(a) * pow2(b),
        pow2(a) > 0,
        pow2(b) > 0,
{
    lemma_pow2_adds(a, b);
    lemma_pow2_pos(a);
    lemma_pow2_pos(b);
}

/// The number of doublings of a quotient, from the range it ends in.
pub proof fn lemma_ratio_shift(n: nat, d: nat, k: nat)
    requires
        0 < n,
        MANT_MIN * d <= n * pow2(k) < MANT_LIMIT * d,
    ensures
        ratio_shift(n, d) == k,
    decreases k,
{
    lemma2_to64();
    if k == 0 {
        assert(n * pow2(0) == n) by (nonlinear_arith)
            requires
                pow2(0) == 1,
        ;
    } else {
        lemma_pow2_unfold(k);
        let p = pow2((k - 1) as nat);
        assert(n * (2 * p) == (2 * n) * p) by (nonlinear_arith);
        assert(MANT_LIMIT * d == 2 * (MANT_MIN * d)) by (nonlinear_arith);
        lemma_pow2_pos((k - 1) as nat);
        assert(n < MANT_MIN * d) by (nonlinear_arith)
            requires
                (2 * n) * p < 2 * (MANT_MIN * d),
                p >= 1,
                n > 0,
        ;
        lemma_ratio_shift(2 * n, d, (k - 1) as nat);
    }
}

/// A quotient that 53 bits hold exactly is not rounded.
pub proof fn lemma_ratio_exact(n: nat, d: nat, m: nat, k: nat)
    requires
        0 < d,
        MANT_MIN <= m < MANT_LIMIT,
        n * pow2(k) == m * d,
    ensures
        ratio(n, d) == (Dyadic { neg: false, mant: m, exp: -(k as int) }),
{
    reveal(ratio);
    lemma_pow2_pos(k);
    assert(MANT_MIN * d <= m * d < MANT_LIMIT * d) by (nonlinear_arith)
        requires
            MANT_MIN <= m < MANT_LIMIT,
            d > 0,
    ;
    assert(n > 0) by (nonlinear_arith)
        requires
            n * pow2(k) >= MANT_MIN * d,
            MANT_MIN * d > 0,
    ;
    lemma_ratio_shift(n, d, k);
    lemma_fundamental_div_mod_converse((m * d) as int, d as int, m as int, 0);
}

/// For normal values in magnitude order, the order of what they stand for.
pub proof fn lemma_magnitude_scaled(a: Dyadic, b: Dyadic)
    requires
        a.normal(),
        b.normal(),
        !a.is_zero(),
        magnitude_le(a, b),
    ensures
        a.exp <= b.exp,
        !b.is_zero(),
        a.mant <= b.mant * pow2((b.exp - a.exp) as nat),
{
    lemma2_to64();
    let t = (b.exp - a.exp) as nat;
    if t == 0 {
        assert(b.mant * pow2(0) == b.mant) by (nonlinear_arith)
            requires
                pow2(0) == 1,
        ;
    } else {
        lemma_pow2_unfold(t);
        lemma_pow2_pos((t - 1) as nat);
        assert(b.mant * pow2(t) >= MANT_LIMIT) by (nonlinear_arith)
            requires
                b.mant >= MANT_MIN,
                pow2(t) >= 2,
                MANT_LIMIT == 2 * MANT_MIN,
        ;
    }
}

/// The quotient `1 / 1` is one.
pub proof fn lemma_ratio_one()
    ensures
        ratio(1, 1) == one(),
{
    lemma2_to64_rest();
    lemma_ratio_exact(1, 1, MANT_MIN as nat, 52);
}

/// A product with one is the other factor.
pub proof fn lemma_product_one(x: Dyadic)
    requires
        x.normal(),
    ensures
        product(x, one()) == x,
        product(one(), x) == x,
{
    lemma2_to64_rest();
    assert(x.mant * MANT_MIN == MANT_MIN * x.mant) by (nonlinear_arith);
    if x.is_zero() {
        reveal(round);
        assert(x.mant * MANT_MIN == 0) by (nonlinear_arith)
            requires
                x.mant == 0,
        ;
    } else {
        lemma_round_exact(x.neg, x.mant, 52, x.exp - 52);
    }
}

/// The ceiling of a value that is not negative and at most the integer
/// `limit` lies between 0 and `limit`.
pub proof fn lemma_ceil_at_most(p: Dyadic, limit: nat, shift: nat)
    requires
        p.normal(),
        !p.neg,
        0 < shift <= 52,
        pow2((shift - 1) as nat) <= limit < pow2(shift),
        magnitude_le(p, whole(limit, shift)),
    ensures
        0 <= ceil(p) <= limit,
{
    lemma2_to64();
    let y = whole(limit, shift);
    let t = (53 - shift) as nat;
    lemma_whole_normal(limit, shift);
    if p.is_zero() {
        assert(0 * pow2(0) == 0);
    } else {
        lemma_magnitude_scaled(p, y);
        let k = (-p.exp) as nat;
        let d = pow2(k) as int;
        let m = p.mant as int;
        lemma_pow2_pos(k);
        lemma_pow2_sum(t, (k - t) as nat);
        assert(m <= limit * d) by (nonlinear_arith)
            requires
                m <= (limit * pow2(t)) * pow2((k - t) as nat),
                d == pow2(t) * pow2((k - t) as nat),
        ;
        lemma_div_is_ordered(-(limit * d), -m, d);
        lemma_div_is_ordered(-m, 0, d);
        lemma_div_multiples_vanish(-(limit as int), d);
        assert((-(limit as int)) * d == -(limit * d)) by (nonlinear_arith);
    }
}

/// The nearest integer to a value that is not negative and at most the
/// integer `limit` lies between 0 and `limit`.
pub proof fn lemma_nearest_at_most(p: Dyadic, limit: nat, shift: nat)
    requires
        p.normal(),
        !p.neg,
        0 < shift <= 52,
        pow2((shift - 1) as nat) <= limit < pow2(shift),
        magnitude_le(p, whole(limit, shift)),
    ensures
        0 <= nearest(p) <= limit,
{
    lemma2_to64();
    let y = whole(limit, shift);
    let t = (53 - shift) as nat;
    lemma_whole_normal(limit, shift);
    if p.is_zero() {
        assert(0 * pow2(0) == 0);
    } else {
        lemma_magnitude_scaled(p, y);
        let k = (-p.exp) as nat;
        let d = pow2(k) as int;
        let m = p.mant as int;
        lemma_pow2_pos(k);
        lemma_pow2_sum(t, (k - t) as nat);
        assert(m <= limit * d) by (nonlinear_arith)
            requires
                m <= (limit * pow2(t)) * pow2((k - t) as nat),
                d == pow2(t) * pow2((k - t) as nat),
        ;
        let q = (2 * m + d) / (2 * d);
        lemma_fundamental_div_mod(2 * m + d, 2 * d);
        lemma_mod_pos_bound(2 * m + d, 2 * d);
        assert(q <= limit) by (nonlinear_arith)
            requires
                2 * m + d == (2 * d) * q + (2 * m + d) % (2 * d),
                (2 * m + d) % (2 * d) >= 0,
                m <= limit * d,
                d > 0,
        ;
        assert(q >= 0) by (nonlinear_arith)
            requires
                2 * m + d == (2 * d) * q + (2 * m + d) % (2 * d),
                (2 * m + d) % (2 * d) < 2 * d,
                m >= 0,
                d > 0,
        ;
    }
}

/// An integer of `shift` bits, written with 53, is normal.
pub proof fn lemma_whole_normal(n: nat, shift: nat)
    requires
        0 < shift <= 52,
        pow2((shift - 1) as nat) <= n < pow2(shift),
    ensures
        whole(n, shift).normal(),
        !whole(n, shift).is_zero(),
{
    lemma2_to64_rest();
    let t = (53 - shift) as nat;
    lemma_pow2_sum(t, shift);
    lemma_pow2_sum(t, (shift - 1) as nat);
    assert(MANT_MIN <= n * pow2(t) < MANT_LIMIT) by (nonlinear_arith)
        requires
            pow2((shift - 1) as nat) <= n < pow2(shift),
            pow2(t) * pow2(shift) == MANT_LIMIT,
            pow2(t) * pow2((shift - 1) as nat) == MANT_MIN,
            pow2(t) > 0,
    ;
}

/// The magnitude of `x` in units of `2^g`, for a `g` that is not above its
/// exponent.
pub open spec fn at(x: Dyadic, g: int) -> int {
    (x.mant * pow2((x.exp - g) as nat)) as int
}

/// Magnitudes in one unit are in the order of the values.
pub proof fn lemma_at_order(p: Dyadic, q: Dyadic, g: int)
    requires
        p.normal(),
        q.normal(),
        magnitude_le(p, q),
        g <= p.exp,
        g <= q.exp,
    ensures
        0 <= at(p, g) <= at(q, g),
{
    lemma_pow2_pos((p.exp - g) as nat);
    lemma_pow2_pos((q.exp - g) as nat);
    if p.is_zero() {
        assert(at(p, g) == 0) by (nonlinear_arith)
            requires
                p.mant == 0,
                at(p, g) == p.mant * pow2((p.exp - g) as nat),
        ;
        assert(at(q, g) >= 0) by (nonlinear_arith)
            requires
                at(q, g) == q.mant * pow2((q.exp - g) as nat),
        ;
    } else {
        lemma_magnitude_scaled(p, q);
        lemma_pow2_sum((q.exp - p.exp) as nat, (p.exp - g) as nat);
        assert(at(p, g) <= at(q, g) && at(p, g) >= 0) by (nonlinear_arith)
            requires
                p.mant <= q.mant * pow2((q.exp - p.exp) as nat),
                at(p, g) == p.mant * pow2((p.exp - g) as nat),
                at(q, g) == q.mant * (pow2((q.exp - p.exp) as nat) * pow2((p.exp - g) as nat)),
                pow2((p.exp - g) as nat) > 0,
        ;
    }
}

/// A magnitude in a smaller unit.
pub proof fn lemma_at_shift(x: Dyadic, g: int, e0: int)
    requires
        g <= e0 <= x.exp,
    ensures
        at(x, g) == at(x, e0) * pow2((e0 - g) as nat),
        pow2((e0 - g) as nat) > 0,
{
    lemma_pow2_sum((x.exp - e0) as nat, (e0 - g) as nat);
    assert(x.mant * (pow2((x.exp - e0) as nat) * pow2((e0 - g) as nat)) == (x.mant * pow2(
        (x.exp - e0) as nat,
    )) * pow2((e0 - g) as nat)) by (nonlinear_arith);
}

/// Two scaled naturals that are in order in one unit are in order.
pub proof fn lemma_scaled_le_at(n1: nat, e1: int, n2: nat, e2: int, g: int)
    requires
        g <= e1,
        g <= e2,
        n1 * pow2((e1 - g) as nat) <= n2 * pow2((e2 - g) as nat),
    ensures
        scaled_le(n1, e1, n2, e2),
{
    if e1 <= e2 {
        lemma_pow2_sum((e2 - e1) as nat, (e1 - g) as nat);
        assert(n1 <= n2 * pow2((e2 - e1) as nat)) by (nonlinear_arith)
            requires
                n1 * pow2((e1 - g) as nat) <= n2 * (pow2((e2 - e1) as nat) * pow2(
                    (e1 - g) as nat,
                )),
                pow2((e1 - g) as nat) > 0,
        ;
    } else {
        lemma_pow2_sum((e1 - e2) as nat, (e2 - g) as nat);
        assert(n1 * pow2((e1 - e2) as nat) <= n2) by (nonlinear_arith)
            requires
                n1 * (pow2((e1 - e2) as nat) * pow2((e2 - g) as nat)) <= n2 * pow2(
                    (e2 - g) as nat,
                ),
                pow2((e2 - g) as nat) > 0,
        ;
    }
}

/// The smaller of two exponents.
pub open spec fn lower(a: Dyadic, b: Dyadic) -> int {
    if a.exp <= b.exp {
        a.exp
    } else {
        b.exp
    }
}

/// The terms of an exact sum, in units of `2^g`.
proof fn lemma_terms_at(a: Dyadic, b: Dyadic, g: int)
    requires
        g <= a.exp,
        g <= b.exp,
    ensures
        at(a, g) == (a.mant * pow2((a.exp - lower(a, b)) as nat)) * pow2((lower(a, b) - g) as nat),
        at(b, g) == (b.mant * pow2((b.exp - lower(a, b)) as nat)) * pow2((lower(a, b) - g) as nat),
        pow2((lower(a, b) - g) as nat) > 0,
        a.mant * pow2((a.exp - lower(a, b)) as nat) >= 0,
        b.mant * pow2((b.exp - lower(a, b)) as nat) >= 0,
{
    let e = lower(a, b);
    lemma_at_shift(a, g, e);
    lemma_at_shift(b, g, e);
    lemma_pow2_pos((a.exp - e) as nat);
    lemma_pow2_pos((b.exp - e) as nat);
    assert(a.mant * pow2((a.exp - e) as nat) >= 0) by (nonlinear_arith)
        requires
            pow2((a.exp - e) as nat) > 0,
    ;
    assert(b.mant * pow2((b.exp - e) as nat) >= 0) by (nonlinear_arith)
        requires
            pow2((b.exp - e) as nat) > 0,
    ;
}

/// An upper bound on a sum of two values that are not negative.
pub proof fn lemma_sum_upper(a: Dyadic, b: Dyadic, ua: Dyadic, ub: Dyadic, y: Dyadic, e0: int)
    requires
        a.normal(),
        b.normal(),
        ua.normal(),
        ub.normal(),
        y.normal(),
        !a.neg,
        !b.neg,
        !y.is_zero(),
        magnitude_le(a, ua),
        magnitude_le(b, ub),
        e0 <= 0,
        e0 <= ua.exp,
        e0 <= ub.exp,
        e0 <= y.exp,
        at(ua, e0) + at(ub, e0) <= at(y, e0),
    ensures
        sum(a, b).normal(),
        !sum(a, b).neg,
        magnitude_le(sum(a, b), y),
{
    reveal(sum);
    let e = lower(a, b);
    let g = if e0 <= e {
        e0
    } else {
        e
    };
    let s = a.mant * pow2((a.exp - e) as nat) + b.mant * pow2((b.exp - e) as nat);
    lemma_terms_at(a, b, g);
    let p = pow2((e - g) as nat);
    let q = pow2((e0 - g) as nat);
    lemma_at_order(a, ua, g);
    lemma_at_order(b, ub, g);
    lemma_at_shift(ua, g, e0);
    lemma_at_shift(ub, g, e0);
    lemma_at_shift(y, g, e0);
    if s != 0 {
        assert(s * p <= y.mant * pow2((y.exp - g) as nat)) by (nonlinear_arith)
            requires
                at(a, g) == (a.mant * pow2((a.exp - e) as nat)) * p,
                at(b, g) == (b.mant * pow2((b.exp - e) as nat)) * p,
                s == a.mant * pow2((a.exp - e) as nat) + b.mant * pow2((b.exp - e) as nat),
                at(a, g) <= at(ua, g),
                at(b, g) <= at(ub, g),
                at(ua, g) == at(ua, e0) * q,
                at(ub, g) == at(ub, e0) * q,
                at(y, g) == at(y, e0) * q,
                at(ua, e0) + at(ub, e0) <= at(y, e0),
                q > 0,
                at(y, g) == y.mant * pow2((y.exp - g) as nat),
        ;
        lemma_scaled_le_at(s as nat, e, y.mant, y.exp, g);
        lemma_round_upper(false, s as nat, e, y);
        lemma_round_normal(false, s as nat, e);
    }
}

/// A lower bound on a sum of two values that are not negative.
pub proof fn lemma_sum_lower(a: Dyadic, b: Dyadic, la: Dyadic, lb: Dyadic, y: Dyadic, e0: int)
    requires
        a.normal(),
        b.normal(),
        la.normal(),
        lb.normal(),
        y.normal(),
        !a.neg,
        !b.neg,
        !y.is_zero(),
        magnitude_le(la, a),
        magnitude_le(lb, b),
        e0 <= 0,
        e0 <= la.exp,
        e0 <= lb.exp,
        e0 <= y.exp,
        at(y, e0) <= at(la, e0) + at(lb, e0),
    ensures
        sum(a, b).normal(),
        !sum(a, b).neg,
        !sum(a, b).is_zero(),
        magnitude_le(y, sum(a, b)),
{
    reveal(sum);
    let e = lower(a, b);
    let g = if e0 <= e {
        e0
    } else {
        e
    };
    let s = a.mant * pow2((a.exp - e) as nat) + b.mant * pow2((b.exp - e) as nat);
    lemma_terms_at(a, b, g);
    let p = pow2((e - g) as nat);
    let q = pow2((e0 - g) as nat);
    lemma_at_order(la, a, g);
    lemma_at_order(lb, b, g);
    lemma_at_shift(la, g, e0);
    lemma_at_shift(lb, g, e0);
    lemma_at_shift(y, g, e0);
    lemma_pow2_pos((y.exp - e0) as nat);
    assert(y.mant * pow2((y.exp - g) as nat) <= s * p && s > 0) by (nonlinear_arith)
        requires
            at(a, g) == (a.mant * pow2((a.exp - e) as nat)) * p,
            at(b, g) == (b.mant * pow2((b.exp - e) as nat)) * p,
            s == a.mant * pow2((a.exp - e) as nat) + b.mant * pow2((b.exp - e) as nat),
            at(la, g) <= at(a, g),
            at(lb, g) <= at(b, g),
            at(la, g) == at(la, e0) * q,
            at(lb, g) == at(lb, e0) * q,
            at(y, g) == at(y, e0) * q,
            at(y, e0) <= at(la, e0) + at(lb, e0),
            at(y, e0) == y.mant * pow2((y.exp - e0) as nat),
            y.mant > 0,
            pow2((y.exp - e0) as nat) > 0,
            q > 0,
            p > 0,
            at(y, g) == y.mant * pow2((y.exp - g) as nat),
    ;
    lemma_scaled_le_at(y.mant, y.exp, s as nat, e, g);
    lemma_round_lower(false, s as nat, e, y);
    lemma_round_normal(false, s as nat, e);
}

/// A lower bound on a difference of two values that are not negative, which
/// is above zero.
pub proof fn lemma_difference_lower(
    a: Dyadic,
    b: Dyadic,
    la: Dyadic,
    ub: Dyadic,
    y: Dyadic,
    e0: int,
)
    requires
        a.normal(),
        b.normal(),
        la.normal(),
        ub.normal(),
        y.normal(),
        !a.neg,
        !b.neg,
        !y.is_zero(),
        magnitude_le(la, a),
        magnitude_le(b, ub),
        e0 <= 0,
        e0 <= la.exp,
        e0 <= ub.exp,
        e0 <= y.exp,
        at(y, e0) + at(ub, e0) <= at(la, e0),
    ensures
        difference(a, b).normal(),
        !difference(a, b).neg,
        !difference(a, b).is_zero(),
        magnitude_le(y, difference(a, b)),
{
    reveal(sum);
    let e = lower(a, b);
    let g = if e0 <= e {
        e0
    } else {
        e
    };
    let ta = a.mant * pow2((a.exp - e) as nat);
    let tb = b.mant * pow2((b.exp - e) as nat);
    let s = ta - tb;
    lemma_terms_at(a, b, g);
    let p = pow2((e - g) as nat);
    let q = pow2((e0 - g) as nat);
    lemma_at_order(la, a, g);
    lemma_at_order(b, ub, g);
    lemma_at_shift(la, g, e0);
    lemma_at_shift(ub, g, e0);
    lemma_at_shift(y, g, e0);
    lemma_pow2_pos((y.exp - e0) as nat);
    assert(y.mant * pow2((y.exp - g) as nat) <= s * p && s > 0) by (nonlinear_arith)
        requires
            at(a, g) == ta * p,
            at(b, g) == tb * p,
            s == ta - tb,
            at(la, g) <= at(a, g),
            at(b, g) <= at(ub, g),
            at(la, g) == at(la, e0) * q,
            at(ub, g) == at(ub, e0) * q,
            at(y, g) == at(y, e0) * q,
            at(y, e0) + at(ub, e0) <= at(la, e0),
            at(y, e0) == y.mant * pow2((y.exp - e0) as nat),
            y.mant > 0,
            pow2((y.exp - e0) as nat) > 0,
            q > 0,
            p > 0,
            at(y, g) == y.mant * pow2((y.exp - g) as nat),
    ;
    assert((-(b.mant as int)) * pow2((b.exp - e) as nat) == -tb) by (nonlinear_arith)
        requires
            tb == b.mant * pow2((b.exp - e) as nat),
    ;
    lemma_scaled_le_at(y.mant, y.exp, s as nat, e, g);
    lemma_round_lower(false, s as nat, e, y);
    lemma_round_normal(false, s as nat, e);
}

/// An upper bound on a difference of two values that are not negative, the
/// first of which is not the smaller.
pub proof fn lemma_difference_upper(
    a: Dyadic,
    b: Dyadic,
    ua: Dyadic,
    lb: Dyadic,
    y: Dyadic,
    e0: int,
)
    requires
        a.normal(),
        b.normal(),
        ua.normal(),
        lb.normal(),
        y.normal(),
        !a.neg,
        !b.neg,
        !y.is_zero(),
        magnitude_le(a, ua),
        magnitude_le(lb, b),
        magnitude_le(b, a),
        e0 <= 0,
        e0 <= ua.exp,
        e0 <= lb.exp,
        e0 <= y.exp,
        at(ua, e0) <= at(y, e0) + at(lb, e0),
    ensures
        difference(a, b).normal(),
        !difference(a, b).neg,
        magnitude_le(difference(a, b), y),
{
    reveal(sum);
    let e = lower(a, b);
    let g = if e0 <= e {
        e0
    } else {
        e
    };
    let ta = a.mant * pow2((a.exp - e) as nat);
    let tb = b.mant * pow2((b.exp - e) as nat);
    let s = ta - tb;
    lemma_terms_at(a, b, g);
    let p = pow2((e - g) as nat);
    let q = pow2((e0 - g) as nat);
    lemma_at_order(a, ua, g);
    lemma_at_order(lb, b, g);
    lemma_at_order(b, a, g);
    lemma_at_shift(ua, g, e0);
    lemma_at_shift(lb, g, e0);
    lemma_at_shift(y, g, e0);
    assert(s >= 0) by (nonlinear_arith)
        requires
            at(a, g) == ta * p,
            at(b, g) == tb * p,
            at(b, g) <= at(a, g),
            s == ta - tb,
            p > 0,
    ;
    assert((-(b.mant as int)) * pow2((b.exp - e) as nat) == -tb) by (nonlinear_arith)
        requires
            tb == b.mant * pow2((b.exp - e) as nat),
    ;
    if s != 0 {
        assert(s * p <= y.mant * pow2((y.exp - g) as nat)) by (nonlinear_arith)
            requires
                at(a, g) == ta * p,
                at(b, g) == tb * p,
                s == ta - tb,
                at(a, g) <= at(ua, g),
                at(lb, g) <= at(b, g),
                at(ua, g) == at(ua, e0) * q,
                at(lb, g) == at(lb, e0) * q,
                at(y, g) == at(y, e0) * q,
                at(ua, e0) <= at(y, e0) + at(lb, e0),
                q > 0,
                at(y, g) == y.mant * pow2((y.exp - g) as nat),
        ;
        lemma_scaled_le_at(s as nat, e, y.mant, y.exp, g);
        lemma_round_upper(false, s as nat, e, y);
        lemma_round_normal(false, s as nat, e);
    }
}

/// The product of two magnitudes in their units is the product of the
/// significands in the unit of the product.
proof fn lemma_product_at(a: Dyadic, b: Dyadic, h1: int, h2: int)
    requires
        h1 <= a.exp,
        h2 <= b.exp,
    ensures
        at(a, h1) * at(b, h2) == (a.mant * b.mant) * pow2((a.exp + b.exp - h1 - h2) as nat),
        pow2((a.exp + b.exp - h1 - h2) as nat) > 0,
{
    let pa = pow2((a.exp - h1) as nat);
    let pb = pow2((b.exp - h2) as nat);
    lemma_pow2_sum((a.exp - h1) as nat, (b.exp - h2) as nat);
    lemma_pow2_pos((a.exp + b.exp - h1 - h2) as nat);
    assert((a.exp - h1) as nat + (b.exp - h2) as nat == (a.exp + b.exp - h1 - h2) as nat);
    assert((a.mant * pa) * (b.mant * pb) == (a.mant * b.mant) * (pa * pb)) by (nonlinear_arith);
    lemma_mul_nonneg(a.mant as int, pa as int);
    lemma_mul_nonneg(b.mant as int, pb as int);
}

/// A product of two numbers that are not negative is not negative.
proof fn lemma_mul_nonneg(x: int, y: int)
    requires
        x >= 0,
        y >= 0,
    ensures
        x * y >= 0,
{
    assert(x * y >= 0) by (nonlinear_arith)
        requires
            x >= 0,
            y >= 0,
    ;
}

/// An upper bound on a product from upper bounds on its factors: `ua` in
/// units of `2^g1` times `ub` in units of `2^g2` is at most `y` in units of
/// `2^(g1 + g2)`.
pub proof fn lemma_product_upper(
    a: Dyadic,
    b: Dyadic,
    ua: Dyadic,
    ub: Dyadic,
    y: Dyadic,
    g1: int,
    g2: int,
)
    requires
        a.normal(),
        b.normal(),
        ua.normal(),
        ub.normal(),
        y.normal(),
        !y.is_zero(),
        magnitude_le(a, ua),
        magnitude_le(b, ub),
        g1 <= ua.exp,
        g2 <= ub.exp,
        g1 + g2 <= y.exp,
        at(ua, g1) * at(ub, g2) <= at(y, g1 + g2),
    ensures
        product(a, b).normal(),
        product(a, b).neg == (a.neg != b.neg),
        magnitude_le(product(a, b), y),
{
    let n = a.mant * b.mant;
    let e = a.exp + b.exp;
    lemma_round_normal(a.neg != b.neg, n, e);
    if a.is_zero() || b.is_zero() {
        assert(a.mant * b.mant == 0) by (nonlinear_arith)
            requires
                a.mant == 0 || b.mant == 0,
        ;
    } else {
        let h1 = if g1 <= a.exp {
            g1
        } else {
            a.exp
        };
        let h2 = if g2 <= b.exp {
            g2
        } else {
            b.exp
        };
        let h = h1 + h2;
        lemma_magnitude_scaled(a, ua);
        lemma_magnitude_scaled(b, ub);
        lemma_at_order(a, ua, h1);
        lemma_at_order(b, ub, h2);
        lemma_at_shift(ua, h1, g1);
        lemma_at_shift(ub, h2, g2);
        lemma_at_shift(y, h, g1 + g2);
        lemma_product_at(a, b, h1, h2);
        let q1 = pow2((g1 - h1) as nat);
        let q2 = pow2((g2 - h2) as nat);
        lemma_pow2_sum((g1 - h1) as nat, (g2 - h2) as nat);
        assert(n * pow2((e - h) as nat) <= y.mant * pow2((y.exp - h) as nat)) by (nonlinear_arith)
            requires
                at(a, h1) * at(b, h2) == n * pow2((e - h) as nat),
                0 <= at(a, h1) <= at(ua, h1),
                0 <= at(b, h2) <= at(ub, h2),
                at(ua, h1) == at(ua, g1) * q1,
                at(ub, h2) == at(ub, g2) * q2,
                at(y, h) == at(y, g1 + g2) * (q1 * q2),
                at(ua, g1) * at(ub, g2) <= at(y, g1 + g2),
                q1 > 0,
                q2 > 0,
                at(y, h) == y.mant * pow2((y.exp - h) as nat),
        ;
        lemma_scaled_le_at(n, e, y.mant, y.exp, h);
        lemma_round_upper(a.neg != b.neg, n, e, y);
    }
}

/// A lower bound on a product from lower bounds on its factors, none of
/// which is zero.
pub proof fn lemma_product_lower(
    a: Dyadic,
    b: Dyadic,
    la: Dyadic,
    lb: Dyadic,
    y: Dyadic,
    g1: int,
    g2: int,
)
    requires
        a.normal(),
        b.normal(),
        la.normal(),
        lb.normal(),
        y.normal(),
        !la.is_zero(),
        !lb.is_zero(),
        !y.is_zero(),
        magnitude_le(la, a),
        magnitude_le(lb, b),
        g1 <= la.exp,
        g2 <= lb.exp,
        g1 + g2 <= y.exp,
        at(y, g1 + g2) <= at(la, g1) * at(lb, g2),
    ensures
        product(a, b).normal(),
        product(a, b).neg == (a.neg != b.neg),
        !product(a, b).is_zero(),
        magnitude_le(y, product(a, b)),
{
    let n = a.mant * b.mant;
    let e = a.exp + b.exp;
    lemma_round_normal(a.neg != b.neg, n, e);
    lemma_magnitude_scaled(la, a);
    lemma_magnitude_scaled(lb, b);
    lemma_at_order(la, a, g1);
    lemma_at_order(lb, b, g2);
    lemma_product_at(a, b, g1, g2);
    let h = g1 + g2;
    assert(y.mant * pow2((y.exp - h) as nat) <= n * pow2((e - h) as nat)) by (nonlinear_arith)
        requires
            at(a, g1) * at(b, g2) == n * pow2((e - h) as nat),
            0 <= at(la, g1) <= at(a, g1),
            0 <= at(lb, g2) <= at(b, g2),
            at(y, h) <= at(la, g1) * at(lb, g2),
            at(y, h) == y.mant * pow2((y.exp - h) as nat),
    ;
    lemma_scaled_le_at(y.mant, y.exp, n, e, h);
    lemma_round_lower(a.neg != b.neg, n, e, y);
}

/// A product is normal and has the sign of its factors' signs.
pub proof fn lemma_product_normal(a: Dyadic, b: Dyadic)
    ensures
        product(a, b).normal(),
        product(a, b).neg == (a.neg != b.neg),
{
    lemma_round_normal(a.neg != b.neg, a.mant * b.mant, a.exp + b.exp);
}

/// A sum is normal, and not negative where neither term is.
pub proof fn lemma_sum_normal(a: Dyadic, b: Dyadic)
    ensures
        sum(a, b).normal(),
        !a.neg && !b.neg ==> !sum(a, b).neg,
        !a.neg && !b.neg && !a.is_zero() ==> !sum(a, b).is_zero(),
{
    reveal(sum);
    let e = lower(a, b);
    let ta = a.mant * pow2((a.exp - e) as nat);
    let tb = b.mant * pow2((b.exp - e) as nat);
    lemma_pow2_pos((a.exp - e) as nat);
    lemma_pow2_pos((b.exp - e) as nat);
    let s = a.signed() * pow2((a.exp - e) as nat) + b.signed() * pow2((b.exp - e) as nat);
    if s < 0 {
        lemma_round_normal(true, (-s) as nat, e);
    } else if s > 0 {
        lemma_round_normal(false, s as nat, e);
    }
    if !a.neg && !b.neg {
        assert(s >= 0 && (a.mant > 0 ==> s > 0)) by (nonlinear_arith)
            requires
                s == a.mant * pow2((a.exp - e) as nat) + b.mant * pow2((b.exp - e) as nat),
                pow2((a.exp - e) as nat) > 0,
                pow2((b.exp - e) as nat) > 0,
        ;
    }
}

} // verus!
