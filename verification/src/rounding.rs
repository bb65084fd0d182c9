//! What holds of rounding: how the bits of a value decide its exponent, when
//! a value is left as it is, and that rounding keeps the order against any
//! value that needs no rounding.

use crate::float::{
    excess_bits, magnitude_le, missing_bits, ratio, ratio_shift, round, rounds_up, scaled_le, sum,
    Dyadic, MANT_LIMIT, MANT_MIN,
};
use vstd::arithmetic::div_mod::*;
use vstd::arithmetic::power2::*;
use vstd::prelude::*;

verus! {

/// A power of two is positive, and the next is twice as much.
pub proof fn lemma_pow2_step(s: nat)
    ensures
        pow2(s + 1) == 2 * pow2(s),
        pow2(s) > 0,
{
    lemma_pow2_unfold(s + 1);
    lemma_pow2_pos(s);
}

/// A value between `2^s * 2^52` and `2^s * 2^53` has `s` bits beyond 53.
pub proof fn lemma_excess_bits(n: nat, s: nat)
    requires
        pow2(s) * MANT_MIN <= n < pow2(s) * MANT_LIMIT,
    ensures
        excess_bits(n) == s,
    decreases s,
{
    lemma2_to64();
    if s == 0 {
        assert(pow2(0) * MANT_LIMIT == MANT_LIMIT) by (nonlinear_arith)
            requires
                pow2(0) == 1,
        ;
    } else {
        let p = pow2((s - 1) as nat);
        lemma_pow2_step((s - 1) as nat);
        assert(pow2(s) == 2 * p);
        assert((2 * p) * MANT_MIN == p * MANT_LIMIT) by (nonlinear_arith);
        assert(p * MANT_LIMIT >= MANT_LIMIT) by (nonlinear_arith)
            requires
                p >= 1,
        ;
        assert((2 * p) * MANT_LIMIT == 2 * (p * MANT_LIMIT)) by (nonlinear_arith);
        assert((2 * p) * MANT_MIN == 2 * (p * MANT_MIN)) by (nonlinear_arith);
        lemma_excess_bits(n / 2, (s - 1) as nat);
    }
}

/// The bits beyond 53 of a value of at least 53 bits, as a range.
pub proof fn lemma_excess_range(n: nat)
    requires
        n >= MANT_MIN,
    ensures
        pow2(excess_bits(n)) * MANT_MIN <= n < pow2(excess_bits(n)) * MANT_LIMIT,
    decreases n,
{
    lemma2_to64();
    if n < MANT_LIMIT {
        assert(pow2(0) * MANT_LIMIT == MANT_LIMIT && pow2(0) * MANT_MIN == MANT_MIN)
            by (nonlinear_arith)
            requires
                pow2(0) == 1,
        ;
    } else {
        let s = excess_bits(n / 2);
        let p = pow2(s);
        lemma_excess_range(n / 2);
        lemma_pow2_step(s);
        assert((2 * p) * MANT_LIMIT == 2 * (p * MANT_LIMIT)) by (nonlinear_arith);
        assert((2 * p) * MANT_MIN == 2 * (p * MANT_MIN)) by (nonlinear_arith);
    }
}

/// A nonzero value of fewer than 53 bits, scaled by its missing bits, has 53.
pub proof fn lemma_missing_range(n: nat)
    requires
        0 < n < MANT_MIN,
    ensures
        MANT_MIN <= n * pow2(missing_bits(n)) < MANT_LIMIT,
    decreases MANT_MIN - n,
{
    lemma2_to64();
    let k = missing_bits(2 * n);
    if 2 * n >= MANT_MIN {
        assert(n * pow2(1) == 2 * n) by (nonlinear_arith)
            requires
                pow2(1) == 2,
        ;
    } else {
        lemma_missing_range(2 * n);
        lemma_pow2_step(k);
        assert(n * (2 * pow2(k)) == (2 * n) * pow2(k)) by (nonlinear_arith);
    }
}

/// A 53-bit significand that was only shifted rounds to itself.
pub proof fn lemma_round_exact(neg: bool, m: nat, k: nat, e: int)
    requires
        MANT_MIN <= m < MANT_LIMIT,
    ensures
        round(neg, m * pow2(k), e) == (Dyadic { neg, mant: m, exp: e + k }),
{
    reveal(round);
    let p = pow2(k);
    lemma_pow2_pos(k);
    assert(p * MANT_MIN <= m * p < p * MANT_LIMIT) by (nonlinear_arith)
        requires
            MANT_MIN <= m < MANT_LIMIT,
            p > 0,
    ;
    lemma_excess_bits(m * p, k);
    lemma_fundamental_div_mod_converse((m * p) as int, p as int, m as int, 0);
    assert(m * p >= MANT_MIN) by (nonlinear_arith)
        requires
            m >= MANT_MIN,
            p >= 1,
    ;
}

/// Where the exponents lie at least 56 apart, the sum is the greater term.
pub proof fn lemma_add_absorbs(hi: Dyadic, lo: Dyadic)
    requires
        hi.normal(),
        lo.normal(),
        !hi.is_zero(),
        !lo.is_zero(),
        hi.exp - lo.exp >= 56,
    ensures
        sum(hi, lo) == hi,
        sum(lo, hi) == hi,
{
    reveal(round);
    reveal(sum);
    lemma2_to64();
    lemma2_to64_rest();
    let dd = (hi.exp - lo.exp) as nat;
    let p = pow2(dd);
    let h = pow2((dd - 1) as nat);
    let mh = hi.mant;
    let ml = lo.mant;
    lemma_pow2_step((dd - 1) as nat);
    assert(h >= 0x80_0000_0000_0000) by {
        if dd - 1 > 55 {
            lemma_pow2_strictly_increases(55, (dd - 1) as nat);
        }
    }
    assert(p == 2 * h);
    assert(lo.signed() * pow2(0) == lo.signed()) by (nonlinear_arith)
        requires
            pow2(0) == 1,
    ;
    if hi.neg == lo.neg {
        let n = mh * p + ml;
        assert(hi.signed() * p + lo.signed() == if hi.neg {
            -(n as int)
        } else {
            n as int
        }) by (nonlinear_arith)
            requires
                hi.signed() == (if hi.neg {
                    -(mh as int)
                } else {
                    mh as int
                }),
                lo.signed() == (if hi.neg {
                    -(ml as int)
                } else {
                    ml as int
                }),
                n == mh * p + ml,
        ;
        assert(p * MANT_MIN <= n < p * MANT_LIMIT) by (nonlinear_arith)
            requires
                n == mh * p + ml,
                MANT_MIN <= mh < MANT_LIMIT,
                0 < ml < p,
        ;
        lemma_excess_bits(n, dd);
        lemma_fundamental_div_mod_converse(n as int, p as int, mh as int, ml as int);
    } else if mh > MANT_MIN {
        let n = (mh * p - ml) as nat;
        assert(mh * p > ml) by (nonlinear_arith)
            requires
                mh >= 1,
                p > ml,
        ;
        assert(hi.signed() * p + lo.signed() == if hi.neg {
            -(n as int)
        } else {
            n as int
        }) by (nonlinear_arith)
            requires
                hi.signed() == (if hi.neg {
                    -(mh as int)
                } else {
                    mh as int
                }),
                lo.signed() == (if hi.neg {
                    ml as int
                } else {
                    -(ml as int)
                }),
                n == mh * p - ml,
        ;
        assert(p * MANT_MIN <= n < p * MANT_LIMIT) by (nonlinear_arith)
            requires
                n == mh * p - ml,
                MANT_MIN < mh < MANT_LIMIT,
                0 < ml < p,
        ;
        lemma_excess_bits(n, dd);
        assert(n == p * (mh - 1) + (p - ml)) by (nonlinear_arith)
            requires
                n == mh * p - ml,
        ;
        lemma_fundamental_div_mod_converse(n as int, p as int, mh - 1, p - ml);
    } else {
        let n = (mh * p - ml) as nat;
        assert(mh * p > ml) by (nonlinear_arith)
            requires
                mh >= 1,
                p > ml,
        ;
        assert(hi.signed() * p + lo.signed() == if hi.neg {
            -(n as int)
        } else {
            n as int
        }) by (nonlinear_arith)
            requires
                hi.signed() == (if hi.neg {
                    -(mh as int)
                } else {
                    mh as int
                }),
                lo.signed() == (if hi.neg {
                    ml as int
                } else {
                    -(ml as int)
                }),
                n == mh * p - ml,
        ;
        assert(n == h * (MANT_LIMIT - 1) + (h - ml)) by (nonlinear_arith)
            requires
                n == mh * p - ml,
                mh == MANT_MIN,
                p == 2 * h,
                MANT_LIMIT == 2 * MANT_MIN,
        ;
        assert(h * MANT_MIN <= n < h * MANT_LIMIT) by (nonlinear_arith)
            requires
                n == h * (MANT_LIMIT - 1) + (h - ml),
                0 < ml < h,
                MANT_LIMIT == 2 * MANT_MIN,
                MANT_MIN >= 1,
        ;
        lemma_excess_bits(n, (dd - 1) as nat);
        lemma_fundamental_div_mod_converse(n as int, h as int, MANT_LIMIT - 1, h - ml);
    }
}

/// Where one term is zero and the other is not, the sum is the other.
pub proof fn lemma_add_zero(z: Dyadic, b: Dyadic)
    requires
        z.normal(),
        b.normal(),
        z.is_zero(),
        !b.is_zero(),
    ensures
        sum(z, b) == b,
        sum(b, z) == b,
{
    reveal(sum);
    lemma2_to64();
    let k: nat = if b.exp > 0 {
        b.exp as nat
    } else {
        0
    };
    let p = pow2(k);
    lemma_round_exact(b.neg, b.mant, k, b.exp - k);
    lemma_pow2_pos(k);
    assert(b.signed() * p == if b.neg {
        -((b.mant * p) as int)
    } else {
        (b.mant * p) as int
    }) by (nonlinear_arith)
        requires
            b.signed() == (if b.neg {
                -(b.mant as int)
            } else {
                b.mant as int
            }),
    ;
    assert(b.mant * p > 0) by (nonlinear_arith)
        requires
            b.mant > 0,
            p > 0,
    ;
    assert(z.signed() * pow2((z.exp - (b.exp - k)) as nat) == 0) by (nonlinear_arith)
        requires
            z.signed() == 0,
    ;
}

/// A higher power of two is at least twice a lower one.
pub proof fn lemma_pow2_double(a: nat, b: nat)
    requires
        a < b,
    ensures
        pow2(b) >= 2 * pow2(a),
        pow2(a) > 0,
{
    lemma_pow2_step(a);
    if a + 1 < b {
        lemma_pow2_strictly_increases(a + 1, b);
    }
}

/// The quotient scaled by its shift has 53 bits.
pub proof fn lemma_ratio_range(n: nat, d: nat)
    requires
        0 < n < MANT_MIN * d,
    ensures
        MANT_MIN * d <= n * pow2(ratio_shift(n, d)) < MANT_LIMIT * d,
    decreases MANT_MIN * d - n,
{
    lemma2_to64();
    let k = ratio_shift(2 * n, d);
    assert(MANT_LIMIT * d == 2 * (MANT_MIN * d)) by (nonlinear_arith);
    if 2 * n >= MANT_MIN * d {
        assert(n * pow2(1) == 2 * n) by (nonlinear_arith)
            requires
                pow2(1) == 2,
        ;
    } else {
        lemma_ratio_range(2 * n, d);
        lemma_pow2_step(k);
        assert(n * (2 * pow2(k)) == (2 * n) * pow2(k)) by (nonlinear_arith);
    }
}

/// A value that is at most a normal `y` rounds to at most `y`.
pub proof fn lemma_round_upper(neg: bool, n: nat, e: int, y: Dyadic)
    requires
        y.normal(),
        !y.is_zero(),
        scaled_le(n, e, y.mant, y.exp),
    ensures
        magnitude_le(round(neg, n, e), y),
{
    reveal(round);
    let big_m = y.mant;
    let big_e = y.exp;
    if n == 0 {
    } else if n < MANT_MIN {
        let k = missing_bits(n);
        let m = n * pow2(k);
        lemma_missing_range(n);
        if e > big_e {
            let t = (e - big_e) as nat;
            if t > k {
                lemma_pow2_double(k, t);
                assert(n * pow2(t) >= 2 * m) by (nonlinear_arith)
                    requires
                        pow2(t) >= 2 * pow2(k),
                        m == n * pow2(k),
                ;
            }
        } else {
            lemma_pow2_pos(k);
            lemma_pow2_pos((big_e - e) as nat);
            if e - k == big_e {
                lemma2_to64();
                assert(k == 0 && e == big_e);
            }
        }
    } else {
        let s = excess_bits(n);
        let d = pow2(s);
        let q = n / d;
        let r = n % d;
        lemma_excess_range(n);
        lemma_pow2_pos(s);
        lemma_fundamental_div_mod(n as int, d as int);
        lemma_mod_pos_bound(n as int, d as int);
        if e > big_e {
            let t = (e - big_e) as nat;
            lemma_pow2_double(0, t);
            assert(n * pow2(t) >= MANT_LIMIT) by (nonlinear_arith)
                requires
                    n >= MANT_MIN,
                    pow2(t) >= 2,
                    MANT_LIMIT == 2 * MANT_MIN,
            ;
        } else {
            let t = (big_e - e) as nat;
            if s > t {
                lemma_pow2_double(t, s);
                assert(d * MANT_MIN >= pow2(t) * MANT_LIMIT) by (nonlinear_arith)
                    requires
                        d >= 2 * pow2(t),
                        MANT_LIMIT == 2 * MANT_MIN,
                ;
                assert(big_m * pow2(t) < pow2(t) * MANT_LIMIT) by (nonlinear_arith)
                    requires
                        big_m < MANT_LIMIT,
                        pow2(t) > 0,
                ;
            } else if s == t {
                assert(q <= big_m) by (nonlinear_arith)
                    requires
                        n == d * q + r,
                        0 <= r < d,
                        n <= big_m * d,
                ;
                if q == big_m {
                    assert(r == 0) by (nonlinear_arith)
                        requires
                            n == d * q + r,
                            q == big_m,
                            n <= big_m * d,
                            0 <= r,
                    ;
                }
            }
        }
    }
}

/// A value that is at least a normal `y` rounds to at least `y`.
pub proof fn lemma_round_lower(neg: bool, n: nat, e: int, y: Dyadic)
    requires
        y.normal(),
        !y.is_zero(),
        scaled_le(y.mant, y.exp, n, e),
    ensures
        magnitude_le(y, round(neg, n, e)),
        !round(neg, n, e).is_zero(),
{
    reveal(round);
    let big_m = y.mant;
    let big_e = y.exp;
    lemma2_to64();
    if big_e <= e {
        lemma_pow2_pos((e - big_e) as nat);
    } else {
        lemma_pow2_pos((big_e - e) as nat);
    }
    assert(n > 0) by (nonlinear_arith)
        requires
            big_m > 0,
            scaled_le(big_m, big_e, n, e),
            big_e <= e ==> pow2((e - big_e) as nat) > 0,
            big_e > e ==> pow2((big_e - e) as nat) > 0,
            scaled_le(big_m, big_e, n, e) == (if big_e <= e {
                big_m <= n * pow2((e - big_e) as nat)
            } else {
                big_m * pow2((big_e - e) as nat) <= n
            }),
    ;
    if n < MANT_MIN {
        let k = missing_bits(n);
        let m = n * pow2(k);
        lemma_missing_range(n);
        if big_e <= e {
            let t = (e - big_e) as nat;
            if t < k {
                lemma_pow2_double(t, k);
                assert(m >= 2 * big_m) by (nonlinear_arith)
                    requires
                        pow2(k) >= 2 * pow2(t),
                        m == n * pow2(k),
                        big_m <= n * pow2(t),
                ;
            }
        } else {
            let t = (big_e - e) as nat;
            lemma_pow2_double(0, t);
            assert(big_m * pow2(t) >= MANT_LIMIT) by (nonlinear_arith)
                requires
                    big_m >= MANT_MIN,
                    pow2(t) >= 2,
                    MANT_LIMIT == 2 * MANT_MIN,
            ;
        }
    } else {
        let s = excess_bits(n);
        let d = pow2(s);
        let q = n / d;
        let r = n % d;
        lemma_excess_range(n);
        lemma_pow2_pos(s);
        lemma_fundamental_div_mod(n as int, d as int);
        lemma_mod_pos_bound(n as int, d as int);
        assert(MANT_MIN <= q < MANT_LIMIT) by (nonlinear_arith)
            requires
                n == d * q + r,
                0 <= r < d,
                d * MANT_MIN <= n < d * MANT_LIMIT,
        ;
        if big_e <= e {
            if s == 0 && e == big_e {
                assert(q == n && big_m <= n) by (nonlinear_arith)
                    requires
                        n == d * q + r,
                        0 <= r < d,
                        d == 1,
                        big_m <= n * d,
                ;
            }
        } else {
            let t = (big_e - e) as nat;
            if s < t {
                lemma_pow2_double(s, t);
                assert(big_m * pow2(t) >= d * MANT_LIMIT) by (nonlinear_arith)
                    requires
                        big_m >= MANT_MIN,
                        pow2(t) >= 2 * d,
                        MANT_LIMIT == 2 * MANT_MIN,
                        d > 0,
                ;
            } else if s == t {
                assert(q >= big_m) by (nonlinear_arith)
                    requires
                        n == d * q + r,
                        0 <= r < d,
                        big_m * d <= n,
                ;
            }
        }
    }
}

/// A quotient that is at most a normal `y` rounds to at most `y`.
pub proof fn lemma_ratio_upper(n: nat, d: nat, y: Dyadic)
    requires
        y.normal(),
        !y.is_zero(),
        y.exp <= 0,
        0 < d,
        n < MANT_MIN * d,
        n * pow2((-y.exp) as nat) <= y.mant * d,
    ensures
        magnitude_le(ratio(n, d), y),
{
    reveal(ratio);
    if n > 0 {
        let k = ratio_shift(n, d);
        let t = (-y.exp) as nat;
        let big = n * pow2(k);
        let q = big / d;
        let r = big % d;
        lemma_ratio_range(n, d);
        lemma_fundamental_div_mod(big as int, d as int);
        lemma_mod_pos_bound(big as int, d as int);
        if k < t {
            lemma_pow2_double(k, t);
            assert(n * pow2(t) >= MANT_LIMIT * d) by (nonlinear_arith)
                requires
                    pow2(t) >= 2 * pow2(k),
                    n * pow2(k) >= MANT_MIN * d,
                    MANT_LIMIT == 2 * MANT_MIN,
            ;
            assert(y.mant * d < MANT_LIMIT * d) by (nonlinear_arith)
                requires
                    y.mant < MANT_LIMIT,
                    d > 0,
            ;
        } else if k == t {
            assert(q <= y.mant) by (nonlinear_arith)
                requires
                    big == d * q + r,
                    0 <= r < d,
                    big <= y.mant * d,
            ;
            if q == y.mant {
                assert(r == 0) by (nonlinear_arith)
                    requires
                        big == d * q + r,
                        q == y.mant,
                        big <= y.mant * d,
                        0 <= r,
                ;
            }
        }
    }
}

/// A quotient that is at least a normal `y` rounds to at least `y`.
pub proof fn lemma_ratio_lower(n: nat, d: nat, y: Dyadic)
    requires
        y.normal(),
        !y.is_zero(),
        y.exp <= 0,
        0 < d,
        n < MANT_MIN * d,
        y.mant * d <= n * pow2((-y.exp) as nat),
    ensures
        magnitude_le(y, ratio(n, d)),
        !ratio(n, d).is_zero(),
{
    reveal(ratio);
    let t = (-y.exp) as nat;
    lemma_pow2_pos(t);
    assert(n > 0) by (nonlinear_arith)
        requires
            y.mant * d <= n * pow2(t),
            y.mant > 0,
            d > 0,
    ;
    let k = ratio_shift(n, d);
    let big = n * pow2(k);
    let q = big / d;
    let r = big % d;
    lemma_ratio_range(n, d);
    lemma_fundamental_div_mod(big as int, d as int);
    lemma_mod_pos_bound(big as int, d as int);
    assert(MANT_MIN <= q < MANT_LIMIT) by (nonlinear_arith)
        requires
            big == d * q + r,
            0 <= r < d,
            MANT_MIN * d <= big < MANT_LIMIT * d,
    ;
    if k > t {
        lemma_pow2_double(t, k);
        assert(big >= MANT_LIMIT * d) by (nonlinear_arith)
            requires
                big == n * pow2(k),
                pow2(k) >= 2 * pow2(t),
                y.mant * d <= n * pow2(t),
                y.mant >= MANT_MIN,
                MANT_LIMIT == 2 * MANT_MIN,
                d > 0,
        ;
    } else if k == t {
        assert(q >= y.mant) by (nonlinear_arith)
            requires
                big == d * q + r,
                0 <= r < d,
                y.mant * d <= big,
        ;
    }
}

/// A rounded value is normal, has the sign it was given, and is zero only
/// where what was rounded is.
pub proof fn lemma_round_normal(neg: bool, n: nat, e: int)
    ensures
        round(neg, n, e).normal(),
        round(neg, n, e).neg == neg,
        round(neg, n, e).is_zero() <==> n == 0,
{
    reveal(round);
    if n == 0 {
    } else if n < MANT_MIN {
        lemma_missing_range(n);
    } else {
        let s = excess_bits(n);
        let d = pow2(s);
        lemma_excess_range(n);
        lemma_pow2_pos(s);
        lemma_fundamental_div_mod(n as int, d as int);
        lemma_mod_pos_bound(n as int, d as int);
        assert(MANT_MIN <= n / d < MANT_LIMIT) by (nonlinear_arith)
            requires
                n == d * (n / d) + n % d,
                0 <= n % d < d,
                d * MANT_MIN <= n < d * MANT_LIMIT,
        ;
    }
}

/// A rounded quotient is normal, not negative, and zero only where the
/// numerator is.
pub proof fn lemma_ratio_normal(n: nat, d: nat)
    requires
        0 < d,
        n < MANT_MIN * d,
    ensures
        ratio(n, d).normal(),
        !ratio(n, d).neg,
        ratio(n, d).is_zero() <==> n == 0,
{
    reveal(ratio);
    if n > 0 {
        let k = ratio_shift(n, d);
        let big = n * pow2(k);
        lemma_ratio_range(n, d);
        lemma_fundamental_div_mod(big as int, d as int);
        lemma_mod_pos_bound(big as int, d as int);
        assert(MANT_MIN <= big / d < MANT_LIMIT) by (nonlinear_arith)
            requires
                big == d * (big / d) + big % d,
                0 <= big % d < d,
                MANT_MIN * d <= big < MANT_LIMIT * d,
        ;
    }
}

/// A value of at most 53 bits is not changed by rounding: the result times
/// `2^(e - exp)` is the value.
pub proof fn lemma_round_short(neg: bool, n: nat, e: int)
    requires
        0 < n < MANT_LIMIT,
    ensures
        round(neg, n, e).exp <= e,
        round(neg, n, e).mant == n * pow2((e - round(neg, n, e).exp) as nat),
{
    reveal(round);
    lemma2_to64();
    if n < MANT_MIN {
        lemma_missing_range(n);
    } else {
        assert(excess_bits(n) == 0);
        lemma_fundamental_div_mod_converse(n as int, 1, n as int, 0);
        assert(n * 1 == n) by (nonlinear_arith);
    }
}

/// A value of more than 53 bits is rounded to the nearest value of 53 bits:
/// in units of `2^e` the result differs from the value by at most half of
/// what one step of the significand is worth, and by a half only where the
/// significand is even.
pub proof fn lemma_round_nearest(neg: bool, n: nat, e: int)
    requires
        n >= MANT_LIMIT,
    ensures
        ({
            let r = round(neg, n, e);
            let d = pow2(excess_bits(n));
            let v = r.mant * pow2((r.exp - e) as nat);
            &&& r.exp >= e
            &&& v % d == 0
            &&& 2 * (v - n) <= d
            &&& 2 * (n - v) <= d
            &&& 2 * (v - n) == d || 2 * (n - v) == d ==> (v / d) % 2 == 0
        }),
{
    reveal(round);
    lemma2_to64();
    let s = excess_bits(n);
    let d = pow2(s);
    let q = n / d;
    let r = n % d;
    lemma_excess_range(n);
    lemma_pow2_pos(s);
    lemma_pow2_step(s);
    lemma_fundamental_div_mod(n as int, d as int);
    lemma_mod_pos_bound(n as int, d as int);
    assert(MANT_MIN <= q < MANT_LIMIT) by (nonlinear_arith)
        requires
            n == d * q + r,
            0 <= r < d,
            d * MANT_MIN <= n < d * MANT_LIMIT,
    ;
    let m = if rounds_up(q, r, d) {
        q + 1
    } else {
        q
    };
    let v = m * d;
    assert(v - n == (m - q) * d - r && v == d * m + 0) by (nonlinear_arith)
        requires
            v == m * d,
            n == d * q + r,
    ;
    assert((m - q) * d == if m == q {
        0
    } else {
        d as int
    }) by (nonlinear_arith)
        requires
            m == q || m == q + 1,
    ;
    lemma_fundamental_div_mod_converse(v as int, d as int, m as int, 0);
    let rounded = round(neg, n, e);
    if m == MANT_LIMIT {
        assert(MANT_MIN * (2 * d) == m * d) by (nonlinear_arith)
            requires
                m == 2 * MANT_MIN,
        ;
        assert(rounded.mant * pow2((rounded.exp - e) as nat) == v);
    } else {
        assert(rounded.mant * pow2((rounded.exp - e) as nat) == v);
    }
}

/// A quotient is rounded to the nearest value of 53 bits: the significand
/// times the divisor differs from the scaled numerator by at most half the
/// divisor, and by a half only where the significand is even.
pub proof fn lemma_ratio_nearest(n: nat, d: nat)
    requires
        0 < d,
        0 < n < MANT_MIN * d,
    ensures
        ({
            let r = ratio(n, d);
            let k = ratio_shift(n, d);
            let v = (r.mant * pow2((r.exp + k) as nat)) * d;
            let big = n * pow2(k);
            &&& r.exp + k >= 0
            &&& 2 * (v - big) <= d
            &&& 2 * (big - v) <= d
            &&& 2 * (v - big) == d || 2 * (big - v) == d ==> r.mant % 2 == 0
        }),
{
    reveal(ratio);
    lemma2_to64();
    let k = ratio_shift(n, d);
    let big = n * pow2(k);
    let q = big / d;
    let r = big % d;
    lemma_ratio_range(n, d);
    lemma_fundamental_div_mod(big as int, d as int);
    lemma_mod_pos_bound(big as int, d as int);
    assert(MANT_MIN <= q < MANT_LIMIT) by (nonlinear_arith)
        requires
            big == d * q + r,
            0 <= r < d,
            MANT_MIN * d <= big < MANT_LIMIT * d,
    ;
    let m = if rounds_up(q, r, d) {
        q + 1
    } else {
        q
    };
    let v = m * d;
    assert(v - big == (m - q) * d - r) by (nonlinear_arith)
        requires
            v == m * d,
            big == d * q + r,
    ;
    assert((m - q) * d == if m == q {
        0
    } else {
        d as int
    }) by (nonlinear_arith)
        requires
            m == q || m == q + 1,
    ;
    let rounded = ratio(n, d);
    if m == MANT_LIMIT {
        assert((MANT_MIN * 2) * d == v);
        assert(rounded.mant * pow2((rounded.exp + k) as nat) == MANT_MIN * 2);
    } else {
        assert(m * 1 == m) by (nonlinear_arith);
        assert(rounded.mant * pow2((rounded.exp + k) as nat) == m);
    }
}

} // verus!
