//! Radix-2 arithmetic with 53-bit significands, rounded to nearest, ties to
//! even, carried out on integers.
//!
//! A value is a sign, a significand and an exponent. What an operation gives
//! is said by a function on `Dyadic`, over unbounded integers; the operation
//! on `Float` computes it in 128 bits. Exponents are not limited as those of
//! binary64 are: within the normal range of binary64 every operation here
//! gives the value that IEEE 754 prescribes for it, and beyond that range it
//! goes on with 53 bits where binary64 would lose precision or overflow.

use crate::rounding::{
    lemma_add_absorbs, lemma_add_zero, lemma_pow2_step, lemma_ratio_lower, lemma_ratio_upper,
    lemma_round_lower, lemma_round_upper,
};
use vstd::arithmetic::div_mod::*;
use vstd::arithmetic::mul::*;
use vstd::arithmetic::power2::*;
use vstd::prelude::*;

verus! {

/// Smallest significand of a nonzero value: 2^52.
pub const MANT_MIN: u64 = 0x10_0000_0000_0000;

/// Upper limit of a significand: 2^53.
pub const MANT_LIMIT: u64 = 0x20_0000_0000_0000;

/// Largest magnitude of an exponent that the executable type holds.
pub const EXP_LIMIT: i32 = 0x1000_0000;

/// The number `mant * 2^exp`, negated where `neg` holds.
pub struct Dyadic {
    pub neg: bool,
    pub mant: nat,
    pub exp: int,
}

impl Dyadic {
    /// Zero is written with exponent 0; any other value has a significand of
    /// exactly 53 bits.
    pub open spec fn normal(self) -> bool {
        if self.mant == 0 {
            self.exp == 0
        } else {
            MANT_MIN <= self.mant < MANT_LIMIT
        }
    }

    /// Whether the value is zero, of either sign.
    pub open spec fn is_zero(self) -> bool {
        self.mant == 0
    }

    /// The significand with the sign applied.
    pub open spec fn signed(self) -> int {
        if self.neg {
            -(self.mant as int)
        } else {
            self.mant as int
        }
    }

    /// The value with its sign turned.
    pub open spec fn negated(self) -> Dyadic {
        Dyadic { neg: !self.neg, mant: self.mant, exp: self.exp }
    }
}

/// How many low bits `n` has beyond 53.
pub open spec fn excess_bits(n: nat) -> nat
    decreases n,
{
    if n < MANT_LIMIT {
        0
    } else {
        1 + excess_bits(n / 2)
    }
}

/// How many bits a nonzero `n` lacks to 53.
pub open spec fn missing_bits(n: nat) -> nat
    decreases
        (if n < MANT_MIN {
            MANT_MIN - n
        } else {
            0
        }),
{
    if n == 0 || n >= MANT_MIN {
        0
    } else {
        1 + missing_bits(2 * n)
    }
}

/// Whether a quotient `q` with remainder `r` under divisor `d` is rounded up:
/// when the remainder is over half, or is half and `q` is odd.
pub open spec fn rounds_up(q: nat, r: nat, d: nat) -> bool {
    2 * r > d || (2 * r == d && q % 2 == 1)
}

/// A significand after rounding, which may have carried into a 54th bit.
pub open spec fn settle(neg: bool, m: nat, e: int) -> Dyadic {
    if m == MANT_LIMIT {
        Dyadic { neg, mant: MANT_MIN as nat, exp: e + 1 }
    } else {
        Dyadic { neg, mant: m, exp: e }
    }
}

/// `n * 2^e` rounded to 53 significant bits, nearest, ties to even.
#[verifier::opaque]
pub open spec fn round(neg: bool, n: nat, e: int) -> Dyadic {
    if n == 0 {
        Dyadic { neg, mant: 0, exp: 0 }
    } else if n < MANT_MIN {
        let k = missing_bits(n);
        Dyadic { neg, mant: n * pow2(k), exp: e - k }
    } else {
        let s = excess_bits(n);
        let d = pow2(s);
        let q = n / d;
        let r = n % d;
        settle(neg, if rounds_up(q, r, d) { q + 1 } else { q }, e + s)
    }
}

/// How often `n` is doubled until `n / d` reaches 2^52.
pub open spec fn ratio_shift(n: nat, d: nat) -> nat
    decreases
        (if n < MANT_MIN * d {
            MANT_MIN * d - n
        } else {
            0
        }),
{
    if n == 0 || n >= MANT_MIN * d {
        0
    } else {
        1 + ratio_shift(2 * n, d)
    }
}

/// The quotient `n / d` of two naturals, rounded to 53 significant bits,
/// nearest, ties to even. Meant for `n / d < 2^52`.
#[verifier::opaque]
pub open spec fn ratio(n: nat, d: nat) -> Dyadic {
    if n == 0 || d == 0 {
        Dyadic { neg: false, mant: 0, exp: 0 }
    } else {
        let k = ratio_shift(n, d);
        let big = n * pow2(k);
        let q = big / d;
        let r = big % d;
        settle(false, if rounds_up(q, r, d) { q + 1 } else { q }, -(k as int))
    }
}

/// The rounded product.
pub open spec fn product(a: Dyadic, b: Dyadic) -> Dyadic {
    round(a.neg != b.neg, a.mant * b.mant, a.exp + b.exp)
}

/// The sum, rounded. An exact zero is negative only where both terms are.
#[verifier::opaque]
pub open spec fn sum(a: Dyadic, b: Dyadic) -> Dyadic {
    let e = if a.exp <= b.exp {
        a.exp
    } else {
        b.exp
    };
    let s = a.signed() * pow2((a.exp - e) as nat) + b.signed() * pow2((b.exp - e) as nat);
    if s == 0 {
        Dyadic { neg: a.neg && b.neg, mant: 0, exp: 0 }
    } else if s < 0 {
        round(true, (-s) as nat, e)
    } else {
        round(false, s as nat, e)
    }
}

/// The difference, rounded.
pub open spec fn difference(a: Dyadic, b: Dyadic) -> Dyadic {
    sum(a, b.negated())
}

/// Order of the magnitudes of two normal values.
pub open spec fn magnitude_lt(a: Dyadic, b: Dyadic) -> bool {
    if a.mant == 0 {
        b.mant > 0
    } else {
        b.mant > 0 && (a.exp < b.exp || (a.exp == b.exp && a.mant < b.mant))
    }
}

/// Order of two normal values; the two zeros are equal.
pub open spec fn lt(a: Dyadic, b: Dyadic) -> bool {
    if a.neg && !a.is_zero() {
        if b.neg && !b.is_zero() {
            magnitude_lt(b, a)
        } else {
            true
        }
    } else if b.neg && !b.is_zero() {
        false
    } else {
        magnitude_lt(a, b)
    }
}

/// The smaller of two values, the first where they are equal.
pub open spec fn min(a: Dyadic, b: Dyadic) -> Dyadic {
    if lt(b, a) {
        b
    } else {
        a
    }
}

/// The least integer that is not below the value.
pub open spec fn ceil(x: Dyadic) -> int {
    if x.exp >= 0 {
        x.signed() * pow2(x.exp as nat)
    } else {
        -((-x.signed()) / (pow2((-x.exp) as nat) as int))
    }
}

/// The nearest integer, halves away from zero.
pub open spec fn nearest(x: Dyadic) -> int {
    if x.exp >= 0 {
        x.signed() * pow2(x.exp as nat)
    } else {
        let d = pow2((-x.exp) as nat) as int;
        let q = (2 * x.mant + d) / (2 * d);
        if x.neg {
            -q
        } else {
            q
        }
    }
}

/// Whether `n1 * 2^e1` is at most `n2 * 2^e2`.
pub open spec fn scaled_le(n1: nat, e1: int, n2: nat, e2: int) -> bool {
    if e1 <= e2 {
        n1 <= n2 * pow2((e2 - e1) as nat)
    } else {
        n1 * pow2((e1 - e2) as nat) <= n2
    }
}

/// Whether the magnitude of `a` is at most that of `b`.
pub open spec fn magnitude_le(a: Dyadic, b: Dyadic) -> bool {
    !magnitude_lt(b, a)
}

/// Whether binary64 holds the value as a zero or as a normal number.
pub open spec fn in_binary64(x: Dyadic) -> bool {
    &&& x.normal()
    &&& x.mant != 0 ==> -1074 <= x.exp <= 971
}

/// The 64 bits that binary64 has for a value: the sign, the exponent plus
/// 1075 in eleven bits, and the significand without its leading bit.
pub open spec fn binary64(x: Dyadic) -> int {
    (if x.neg {
        0x8000_0000_0000_0000int
    } else {
        0int
    }) + (if x.mant == 0 {
        0int
    } else {
        (x.exp + 1075) * 0x10_0000_0000_0000 + (x.mant - 0x10_0000_0000_0000)
    })
}

/// A finite value: zero, or a 53-bit significand with a sign and an exponent.
#[derive(Clone, Copy, Debug, PartialEq, Eq, Structural)]
pub struct Float {
    pub neg: bool,
    pub mant: u64,
    pub exp: i32,
}

impl View for Float {
    type V = Dyadic;

    open spec fn view(&self) -> Dyadic {
        Dyadic { neg: self.neg, mant: self.mant as nat, exp: self.exp as int }
    }
}

impl Float {
    /// The value is normal and its exponent within the limit.
    pub open spec fn wf(&self) -> bool {
        &&& self@.normal()
        &&& -EXP_LIMIT <= self.exp <= EXP_LIMIT
    }

    /// The value is well formed and, unless it is zero, its exponent lies
    /// between `lo` and `hi`.
    pub open spec fn within(&self, lo: int, hi: int) -> bool {
        &&& self.wf()
        &&& self.mant != 0 ==> lo <= self.exp <= hi
    }

    /// The exponent is far enough from the limit for one more operation.
    pub open spec fn moderate(&self) -> bool {
        &&& self.wf()
        &&& -0x100_0000 <= self.exp <= 0x100_0000
    }
}

/// Rounds `n * 2^e` to a value of 53 significant bits.
fn round_to_float(neg: bool, n: u128, e: i32) -> (r: Float)
    requires
        n < 0x100_0000_0000_0000_0000_0000_0000_0000,
        -EXP_LIMIT + 64 <= e,
        e + 80 <= EXP_LIMIT,
    ensures
        r@ == round(neg, n as nat, e as int),
        r.wf(),
        r.neg == neg,
        r.mant == 0 <==> n == 0,
{
    proof {
        reveal(round);
    }
    if n == 0 {
        return Float { neg, mant: 0, exp: 0 };
    }
    if n < MANT_MIN as u128 {
        let mut m: u128 = n;
        let mut k: i32 = 0;
        proof {
            lemma2_to64();
            assert(n * 1 == n) by (nonlinear_arith);
        }
        while m < MANT_MIN as u128
            invariant
                0 < m < MANT_LIMIT,
                0 <= k <= 52,
                m == n * pow2(k as nat),
                pow2(k as nat) <= m,
                missing_bits(n as nat) == k + missing_bits(m as nat),
            decreases MANT_LIMIT - m,
        {
            proof {
                lemma2_to64_rest();
                lemma_pow2_step(k as nat);
                assert(n * (2 * pow2(k as nat)) == 2 * (n * pow2(k as nat))) by (nonlinear_arith);
            }
            m = m * 2;
            k = k + 1;
        }
        return Float { neg, mant: m as u64, exp: e - k };
    }
    let mut d: u128 = 1;
    let mut s: i32 = 0;
    proof {
        lemma2_to64();
    }
    while n / d >= MANT_LIMIT as u128
        invariant
            0 <= s <= 67,
            d == pow2(s as nat),
            0 < d,
            d * MANT_MIN <= n,
            excess_bits(n as nat) == s + excess_bits((n / d) as nat),
            n < 0x100_0000_0000_0000_0000_0000_0000_0000,
        decreases n / d,
    {
        proof {
            lemma2_to64();
            lemma_pow2_step(s as nat);
            lemma_div_denominator(n as int, d as int, 2);
            lemma_fundamental_div_mod(n as int, d as int);
            lemma_mod_pos_bound(n as int, d as int);
            assert(d * MANT_LIMIT <= n) by (nonlinear_arith)
                requires
                    n == d * (n / d) + n % d,
                    n % d >= 0,
                    n / d >= MANT_LIMIT,
                    d > 0,
            ;
            assert(d < 0x8_0000_0000_0000_0000) by (nonlinear_arith)
                requires
                    d * MANT_LIMIT <= n,
                    MANT_LIMIT == 0x20_0000_0000_0000,
                    n < 0x100_0000_0000_0000_0000_0000_0000_0000,
            ;
            assert((2 * d) * MANT_MIN == d * MANT_LIMIT) by (nonlinear_arith);
            if s >= 67 {
                lemma_pow2_adds(64, 3);
                if s > 67 {
                    lemma_pow2_strictly_increases(67, s as nat);
                }
            }
        }
        d = d * 2;
        s = s + 1;
    }
    let q: u128 = n / d;
    let r: u128 = n % d;
    proof {
        lemma_fundamental_div_mod(n as int, d as int);
        lemma_mod_pos_bound(n as int, d as int);
        assert(q >= MANT_MIN) by (nonlinear_arith)
            requires
                n == d * q + r,
                0 <= r < d,
                d * MANT_MIN <= n,
        ;
    }
    let up: bool = 2 * r > d || (2 * r == d && q % 2 == 1);
    let m: u128 = if up {
        q + 1
    } else {
        q
    };
    if m == MANT_LIMIT as u128 {
        Float { neg, mant: MANT_MIN, exp: e + s + 1 }
    } else {
        Float { neg, mant: m as u64, exp: e + s }
    }
}


/// The bits of a value below the sign: for a normal number they hold the
/// exponent plus 1075, which lies between 1 and 2046, above the 52 bits of
/// the significand.
proof fn lemma_bits_field(x: Dyadic)
    requires
        in_binary64(x),
    ensures
        ({
            let body = binary64(x) - (if x.neg {
                0x8000_0000_0000_0000int
            } else {
                0int
            });
            &&& 0 <= body < 0x8000_0000_0000_0000
            &&& x.mant == 0 ==> body == 0
            &&& x.mant != 0 ==> 1 <= body / 0x10_0000_0000_0000 <= 2046
        }),
{
    if x.mant != 0 {
        lemma_fundamental_div_mod_converse(
            (x.exp + 1075) * 0x10_0000_0000_0000 + (x.mant - 0x10_0000_0000_0000),
            0x10_0000_0000_0000,
            x.exp + 1075,
            x.mant - 0x10_0000_0000_0000,
        );
    }
}

/// `2^k` for a small `k`.
fn pow2_of(k: i32) -> (p: u128)
    requires
        0 <= k <= 100,
    ensures
        p == pow2(k as nat),
        0 < p <= 0x10_0000_0000_0000_0000_0000_0000,
{
    let mut p: u128 = 1;
    let mut i: i32 = 0;
    proof {
        lemma2_to64();
    }
    while i < k
        invariant
            0 <= i <= k <= 100,
            p == pow2(i as nat),
            0 < p,
            i < 100 ==> p < 0x10_0000_0000_0000_0000_0000_0000,
            p <= 0x10_0000_0000_0000_0000_0000_0000,
        decreases k - i,
    {
        proof {
            lemma2_to64();
            lemma2_to64_rest();
            lemma_pow2_adds(64, 36);
            lemma_pow2_step(i as nat);
            if i + 1 < 100 {
                lemma_pow2_strictly_increases((i + 1) as nat, 100);
            }
        }
        p = p * 2;
        i = i + 1;
    }
    p
}

impl Float {
    /// Zero, positive.
    pub fn zero() -> (r: Float)
        ensures
            r@ == (Dyadic { neg: false, mant: 0, exp: 0 }),
            r.wf(),
    {
        Float { neg: false, mant: 0, exp: 0 }
    }

    /// The quotient of two integers, rounded.
    pub fn from_ratio(n: u32, d: u32) -> (r: Float)
        requires
            d > 0,
        ensures
            r@ == ratio(n as nat, d as nat),
            r.wf(),
            !r.neg,
            r.mant == 0 <==> n == 0,
            n > 0 ==> -85 <= r.exp <= -20,
            n <= 2 * d ==> r.exp <= 0 - 51 || n == 0,
            n <= 32 * d ==> r.exp <= 0 - 47 || n == 0,
            n <= 0x2_0000 * d ==> r.exp <= 0 - 35 || n == 0,
            n >= d ==> r.exp >= 0 - 52,
            64 * n >= d ==> r.exp >= 0 - 58 || n == 0,
    {
        proof {
            reveal(ratio);
        }
        if n == 0 {
            return Float { neg: false, mant: 0, exp: 0 };
        }
        proof {
            lemma2_to64();
            lemma2_to64_rest();
            assert(n < MANT_MIN * d) by (nonlinear_arith)
                requires
                    n < 0x1_0000_0000,
                    d >= 1,
                    MANT_MIN == 0x10_0000_0000_0000,
            ;
            if n <= 2 * d {
                assert(n * pow2(51) <= MANT_MIN * d) by (nonlinear_arith)
                    requires
                        n <= 2 * d,
                        2 * pow2(51) == MANT_MIN,
                ;
                lemma_ratio_upper(
                    n as nat,
                    d as nat,
                    Dyadic { neg: false, mant: MANT_MIN as nat, exp: -51 },
                );
            }
            if n <= 32 * d {
                assert(n * pow2(47) <= MANT_MIN * d) by (nonlinear_arith)
                    requires
                        n <= 32 * d,
                        32 * pow2(47) == MANT_MIN,
                ;
                lemma_ratio_upper(
                    n as nat,
                    d as nat,
                    Dyadic { neg: false, mant: MANT_MIN as nat, exp: -47 },
                );
            }
            if n >= d {
                assert(MANT_MIN * d <= n * pow2(52)) by (nonlinear_arith)
                    requires
                        n >= d,
                        pow2(52) == MANT_MIN,
                ;
                lemma_ratio_lower(
                    n as nat,
                    d as nat,
                    Dyadic { neg: false, mant: MANT_MIN as nat, exp: -52 },
                );
            }
            if 64 * n >= d {
                assert(MANT_MIN * d <= n * pow2(58)) by (nonlinear_arith)
                    requires
                        64 * n >= d,
                        pow2(58) == 64 * MANT_MIN,
                ;
                lemma_ratio_lower(
                    n as nat,
                    d as nat,
                    Dyadic { neg: false, mant: MANT_MIN as nat, exp: -58 },
                );
            }
            if n <= 0x2_0000 * d {
                assert(n * pow2(35) <= MANT_MIN * d) by (nonlinear_arith)
                    requires
                        n <= 0x2_0000 * d,
                        0x2_0000 * pow2(35) == MANT_MIN,
                ;
                lemma_ratio_upper(
                    n as nat,
                    d as nat,
                    Dyadic { neg: false, mant: MANT_MIN as nat, exp: -35 },
                );
            }
        }
        proof {
            assert(MANT_MIN * d < 0x20_0000_0000_0000_0000_0000) by (nonlinear_arith)
                requires
                    d < 0x1_0000_0000,
                    MANT_MIN == 0x10_0000_0000_0000,
            ;
        }
        let bound: u128 = (MANT_MIN as u128) * (d as u128);
        let mut big: u128 = n as u128;
        let mut k: i32 = 0;
        proof {
            lemma2_to64();
            assert(n * 1 == n) by (nonlinear_arith);
        }
        while big < bound
            invariant
                bound == MANT_MIN * d,
                0 < d,
                0 < n,
                0 <= k <= 85,
                big == n * pow2(k as nat),
                pow2(k as nat) <= big,
                big < MANT_LIMIT * d,
                ratio_shift(n as nat, d as nat) == k + ratio_shift(big as nat, d as nat),
            decreases MANT_LIMIT * d - big,
        {
            proof {
                lemma2_to64();
                lemma_pow2_step(k as nat);
                assert(n * (2 * pow2(k as nat)) == 2 * (n * pow2(k as nat))) by (nonlinear_arith);
                assert(MANT_LIMIT * d == 2 * (MANT_MIN * d)) by (nonlinear_arith);
                assert(MANT_MIN * d < 0x20_0000_0000_0000_0000_0000) by (nonlinear_arith)
                    requires
                        d < 0x1_0000_0000,
                        MANT_MIN == 0x10_0000_0000_0000,
                ;
                if k >= 84 {
                    lemma_pow2_adds(64, 20);
                    if k > 84 {
                        lemma_pow2_strictly_increases(84, k as nat);
                    }
                }
            }
            big = big * 2;
            k = k + 1;
        }
        let q: u128 = big / (d as u128);
        let r: u128 = big % (d as u128);
        proof {
            lemma_fundamental_div_mod(big as int, d as int);
            lemma_mod_pos_bound(big as int, d as int);
            assert(MANT_MIN <= q < MANT_LIMIT) by (nonlinear_arith)
                requires
                    big == d * q + r,
                    0 <= r < d,
                    MANT_MIN * d <= big < MANT_LIMIT * d,
            ;
            if k <= 20 {
                lemma2_to64();
                if k < 20 {
                    lemma_pow2_strictly_increases(k as nat, 20);
                }
                assert(n * pow2(k as nat) < 0x1_0000_0000 * 0x10_0000) by (nonlinear_arith)
                    requires
                        n < 0x1_0000_0000,
                        pow2(k as nat) <= 0x10_0000,
                ;
                assert(MANT_MIN * d >= MANT_MIN) by (nonlinear_arith)
                    requires
                        d >= 1,
                ;
            }
        }
        let up: bool = 2 * r > d as u128 || (2 * r == d as u128 && q % 2 == 1);
        let m: u128 = if up {
            q + 1
        } else {
            q
        };
        if m == MANT_LIMIT as u128 {
            Float { neg: false, mant: MANT_MIN, exp: 1 - k }
        } else {
            Float { neg: false, mant: m as u64, exp: -k }
        }
    }

    /// The bits that binary64 has for the value, where it holds it as a zero
    /// or as a normal number.
    pub fn to_bits(&self) -> (r: Option<u64>)
        ensures
            match r {
                Some(bits) => in_binary64(self@) && bits == binary64(self@),
                None => !in_binary64(self@),
            },
    {
        let sign: u64 = if self.neg {
            0x8000_0000_0000_0000
        } else {
            0
        };
        if self.mant == 0 {
            if self.exp == 0 {
                Some(sign)
            } else {
                None
            }
        } else if self.mant < MANT_MIN || self.mant >= MANT_LIMIT || self.exp < -1074 || self.exp
            > 971 {
            None
        } else {
            let field: u64 = (self.exp + 1075) as u64;
            Some(sign + field * MANT_MIN + (self.mant - MANT_MIN))
        }
    }

    /// The value of 64 bits of binary64, where they stand for a zero or a
    /// normal number.
    pub fn from_bits(bits: u64) -> (r: Option<Float>)
        ensures
            match r {
                Some(x) => x.wf() && in_binary64(x@) && binary64(x@) == bits,
                None => forall|x: Dyadic| in_binary64(x) ==> binary64(x) != bits,
            },
    {
        let neg: bool = bits >= 0x8000_0000_0000_0000;
        let rest: u64 = if neg {
            bits - 0x8000_0000_0000_0000
        } else {
            bits
        };
        let field: u64 = rest / MANT_MIN;
        let fraction: u64 = rest % MANT_MIN;
        if field == 0 {
            if fraction == 0 {
                Some(Float { neg, mant: 0, exp: 0 })
            } else {
                assert forall|x: Dyadic| in_binary64(x) implies binary64(x) != bits by {
                    lemma_bits_field(x);
                }
                None
            }
        } else if field == 2047 {
            assert forall|x: Dyadic| in_binary64(x) implies binary64(x) != bits by {
                lemma_bits_field(x);
            }
            None
        } else {
            Some(Float { neg, mant: fraction + MANT_MIN, exp: (field as i32) - 1075 })
        }
    }

    /// The value with its sign turned.
    pub fn negated(self) -> (r: Float)
        ensures
            r@ == self@.negated(),
            self.wf() ==> r.wf(),
    {
        Float { neg: !self.neg, mant: self.mant, exp: self.exp }
    }

    /// Whether the value is above zero.
    pub fn is_positive(&self) -> (r: bool)
        ensures
            r == (!self.neg && self.mant != 0),
    {
        !self.neg && self.mant != 0
    }

    /// The rounded product.
    pub fn mul(self, b: Float) -> (r: Float)
        requires
            self.moderate(),
            b.moderate(),
        ensures
            r@ == product(self@, b@),
            r.wf(),
            r.neg == (self.neg != b.neg),
            r.mant == 0 <==> (self.mant == 0 || b.mant == 0),
            r.mant != 0 ==> self.exp + b.exp + 52 <= r.exp <= self.exp + b.exp + 54,
    {
        proof {
            assert(self.mant * b.mant < 0x20_0000_0000_0000 * 0x20_0000_0000_0000)
                by (nonlinear_arith)
                requires
                    self.mant < 0x20_0000_0000_0000,
                    b.mant < 0x20_0000_0000_0000,
            ;
            assert(self.mant * b.mant == 0 <==> (self.mant == 0 || b.mant == 0))
                by (nonlinear_arith);
            if self.mant != 0 && b.mant != 0 {
                let n = (self.mant * b.mant) as nat;
                let e = self.exp + b.exp;
                lemma2_to64_rest();
                assert(MANT_MIN * 0x10_0000_0000_0000 <= n <= MANT_MIN * 0x40_0000_0000_0000)
                    by (nonlinear_arith)
                    requires
                        n == self.mant * b.mant,
                        0x10_0000_0000_0000 <= self.mant < 0x20_0000_0000_0000,
                        0x10_0000_0000_0000 <= b.mant < 0x20_0000_0000_0000,
                        MANT_MIN == 0x10_0000_0000_0000,
                ;
                lemma_round_upper(
                    self.neg != b.neg,
                    n,
                    e,
                    Dyadic { neg: false, mant: MANT_MIN as nat, exp: e + 54 },
                );
                lemma_round_lower(
                    self.neg != b.neg,
                    n,
                    e,
                    Dyadic { neg: false, mant: MANT_MIN as nat, exp: e + 52 },
                );
            }
        }
        round_to_float(self.neg != b.neg, (self.mant as u128) * (b.mant as u128), self.exp + b.exp)
    }

    /// The rounded sum.
    pub fn add(self, b: Float) -> (r: Float)
        requires
            self.moderate(),
            b.moderate(),
        ensures
            r@ == sum(self@, b@),
            r.wf(),
            r.mant != 0 ==> (self.mant != 0 && r.exp <= self.exp + 2) || (b.mant != 0 && r.exp
                <= b.exp + 2),
            r.mant != 0 ==> (self.mant != 0 && r.exp >= self.exp - 52) || (b.mant != 0 && r.exp
                >= b.exp - 52),
            !self.neg && !b.neg ==> !r.neg,
            !self.neg && !b.neg && (self.mant != 0 || b.mant != 0) ==> r.mant != 0,
    {
        proof {
            reveal(sum);
        }
        if self.mant == 0 && b.mant == 0 {
            proof {
                lemma2_to64();
            }
            return Float { neg: self.neg && b.neg, mant: 0, exp: 0 };
        }
        if self.mant == 0 {
            proof {
                lemma_add_zero(self@, b@);
            }
            return b;
        }
        if b.mant == 0 {
            proof {
                lemma_add_zero(b@, self@);
            }
            return self;
        }
        let self_hi: bool = self.exp >= b.exp;
        let hi: Float = if self_hi {
            self
        } else {
            b
        };
        let lo: Float = if self_hi {
            b
        } else {
            self
        };
        let dd: i32 = hi.exp - lo.exp;
        if dd > 64 {
            proof {
                lemma_add_absorbs(hi@, lo@);
            }
            return hi;
        }
        let p: u128 = pow2_of(dd);
        let lom: u128 = lo.mant as u128;
        proof {
            lemma2_to64();
            if dd < 64 {
                lemma_pow2_strictly_increases(dd as nat, 64);
            }
            assert(hi.mant * p < 0x20_0000_0000_0000 * 0x1_0000_0000_0000_0000) by (nonlinear_arith)
                requires
                    hi.mant < 0x20_0000_0000_0000,
                    p <= 0x1_0000_0000_0000_0000,
            ;
            assert(hi@.signed() * p == if hi.neg {
                -(hi.mant * p)
            } else {
                hi.mant * p
            }) by (nonlinear_arith)
                requires
                    hi@.signed() == (if hi.neg {
                        -(hi.mant as int)
                    } else {
                        hi.mant as int
                    }),
            ;
            assert(lo@.signed() * pow2(0) == lo@.signed()) by (nonlinear_arith)
                requires
                    pow2(0) == 1,
            ;
            assert(hi.mant * p > 0) by (nonlinear_arith)
                requires
                    hi.mant > 0,
                    p > 0,
            ;
        }
        let big: u128 = (hi.mant as u128) * p;
        if hi.neg != lo.neg && big == lom {
            return Float { neg: false, mant: 0, exp: 0 };
        }
        let neg: bool = if hi.neg == lo.neg || big > lom {
            hi.neg
        } else {
            lo.neg
        };
        let n: u128 = if hi.neg == lo.neg {
            big + lom
        } else if big > lom {
            big - lom
        } else {
            lom - big
        };
        proof {
            lemma_pow2_adds(dd as nat, 2);
            assert(n <= MANT_MIN * (p * 4)) by (nonlinear_arith)
                requires
                    n <= hi.mant * p + lom,
                    hi.mant < 0x20_0000_0000_0000,
                    lom < 0x20_0000_0000_0000,
                    p >= 1,
                    MANT_MIN == 0x10_0000_0000_0000,
            ;
            lemma_round_upper(
                neg,
                n as nat,
                lo.exp as int,
                Dyadic { neg: false, mant: MANT_MIN as nat, exp: lo.exp + dd + 2 },
            );
            lemma2_to64_rest();
            assert(MANT_MIN <= n * pow2(52)) by (nonlinear_arith)
                requires
                    n >= 1,
                    pow2(52) == MANT_MIN,
            ;
            lemma_round_lower(
                neg,
                n as nat,
                lo.exp as int,
                Dyadic { neg: false, mant: MANT_MIN as nat, exp: lo.exp - 52 },
            );
        }
        round_to_float(neg, n, lo.exp)
    }

    /// The rounded difference.
    pub fn sub(self, b: Float) -> (r: Float)
        requires
            self.moderate(),
            b.moderate(),
        ensures
            r@ == difference(self@, b@),
            r.wf(),
            r.mant != 0 ==> (self.mant != 0 && r.exp <= self.exp + 2) || (b.mant != 0 && r.exp
                <= b.exp + 2),
            r.mant != 0 ==> (self.mant != 0 && r.exp >= self.exp - 52) || (b.mant != 0 && r.exp
                >= b.exp - 52),
    {
        self.add(b.negated())
    }

    /// Whether the value is below `b`.
    pub fn lt(&self, b: &Float) -> (r: bool)
        ensures
            r == lt(self@, b@),
    {
        let a_neg: bool = self.neg && self.mant != 0;
        let b_neg: bool = b.neg && b.mant != 0;
        if a_neg {
            if b_neg {
                b.magnitude_lt(self)
            } else {
                true
            }
        } else if b_neg {
            false
        } else {
            self.magnitude_lt(b)
        }
    }

    fn magnitude_lt(&self, b: &Float) -> (r: bool)
        ensures
            r == magnitude_lt(self@, b@),
    {
        if self.mant == 0 {
            b.mant > 0
        } else {
            b.mant > 0 && (self.exp < b.exp || (self.exp == b.exp && self.mant < b.mant))
        }
    }

    /// The least integer that is not below the value.
    pub fn ceil(&self) -> (r: i64)
        requires
            self.wf(),
            self.exp <= 9,
        ensures
            r == ceil(self@),
            !self.neg ==> r >= 0,
    {
        if self.mant == 0 {
            proof {
                lemma2_to64();
            }
            return 0;
        }
        if self.exp >= 0 {
            let p: u128 = pow2_of(self.exp);
            proof {
                lemma2_to64();
                if self.exp < 9 {
                    lemma_pow2_strictly_increases(self.exp as nat, 9);
                }
                assert(self.mant * p < 0x20_0000_0000_0000 * 0x200) by (nonlinear_arith)
                    requires
                        self.mant < 0x20_0000_0000_0000,
                        p <= 0x200,
                ;
                assert((-(self.mant as int)) * p == -(self.mant * p)) by (nonlinear_arith);
            }
            let v: i64 = ((self.mant as u128) * p) as i64;
            return if self.neg {
                -v
            } else {
                v
            };
        }
        let k: i32 = -self.exp;
        if k >= 64 {
            proof {
                lemma2_to64();
                if k > 64 {
                    lemma_pow2_strictly_increases(64, k as nat);
                }
                let d = pow2(k as nat) as int;
                let m = self.mant as int;
                lemma_fundamental_div_mod_converse(m, d, 0, m);
                lemma_fundamental_div_mod_converse(-m, d, -1, d - m);
            }
            return if self.neg {
                0
            } else {
                1
            };
        }
        let d: u128 = pow2_of(k);
        let q: u128 = (self.mant as u128) / d;
        let r: u128 = (self.mant as u128) % d;
        proof {
            let m = self.mant as int;
            lemma_fundamental_div_mod(m, d as int);
            lemma_mod_pos_bound(m, d as int);
            assert(q <= m) by (nonlinear_arith)
                requires
                    m == d * q + r,
                    d >= 1,
                    r >= 0,
                    q >= 0,
            ;
            if r == 0 {
                assert(-m == d * (-(q as int)) + 0) by (nonlinear_arith)
                    requires
                        m == d * q + r,
                        r == 0,
                ;
                lemma_fundamental_div_mod_converse(-m, d as int, -(q as int), 0);
            } else {
                assert(-m == d * (-(q as int) - 1) + (d - r)) by (nonlinear_arith)
                    requires
                        m == d * q + r,
                ;
                lemma_fundamental_div_mod_converse(-m, d as int, -(q as int) - 1, d - r);
            }
        }
        if self.neg {
            -(q as i64)
        } else if r > 0 {
            (q + 1) as i64
        } else {
            q as i64
        }
    }

    /// The nearest integer, halves away from zero.
    pub fn nearest(&self) -> (r: i64)
        requires
            self.wf(),
            self.exp <= 9,
        ensures
            r == nearest(self@),
            !self.neg ==> r >= 0,
    {
        if self.mant == 0 {
            proof {
                lemma2_to64();
            }
            return 0;
        }
        if self.exp >= 0 {
            let p: u128 = pow2_of(self.exp);
            proof {
                lemma2_to64();
                if self.exp < 9 {
                    lemma_pow2_strictly_increases(self.exp as nat, 9);
                }
                assert(self.mant * p < 0x20_0000_0000_0000 * 0x200) by (nonlinear_arith)
                    requires
                        self.mant < 0x20_0000_0000_0000,
                        p <= 0x200,
                ;
                assert((-(self.mant as int)) * p == -(self.mant * p)) by (nonlinear_arith);
            }
            let v: i64 = ((self.mant as u128) * p) as i64;
            return if self.neg {
                -v
            } else {
                v
            };
        }
        let k: i32 = -self.exp;
        if k >= 64 {
            proof {
                lemma2_to64();
                if k > 64 {
                    lemma_pow2_strictly_increases(64, k as nat);
                }
                let d = pow2(k as nat) as int;
                let m = self.mant as int;
                lemma_fundamental_div_mod_converse(2 * m + d, 2 * d, 0, 2 * m + d);
            }
            return 0;
        }
        let d: u128 = pow2_of(k);
        proof {
            lemma2_to64();
            lemma_pow2_strictly_increases(k as nat, 64);
        }
        let q: u128 = (2 * (self.mant as u128) + d) / (2 * d);
        proof {
            let m = self.mant as int;
            lemma_fundamental_div_mod(2 * m + d, 2 * d);
            lemma_mod_pos_bound(2 * m + d, 2 * d);
            assert(q <= 2 * m + d) by (nonlinear_arith)
                requires
                    2 * m + d == (2 * d) * q + (2 * m + d) % (2 * d),
                    d >= 1,
                    (2 * m + d) % (2 * d) >= 0,
                    q >= 0,
            ;
            if q >= 1 {
                assert(d * (2 * q - 1) <= 2 * m) by (nonlinear_arith)
                    requires
                        2 * m + d == (2 * d) * q + (2 * m + d) % (2 * d),
                        (2 * m + d) % (2 * d) >= 0,
                ;
                assert(2 * q - 1 <= d * (2 * q - 1)) by (nonlinear_arith)
                    requires
                        d >= 1,
                        q >= 1,
                ;
            }
            assert(q <= m + 1);
        }
        if self.neg {
            -(q as i64)
        } else {
            q as i64
        }
    }

    /// The smaller of the value and `b`.
    pub fn min(self, b: Float) -> (r: Float)
        ensures
            r@ == min(self@, b@),
            r == self || r == b,
    {
        if b.lt(&self) {
            b
        } else {
            self
        }
    }
}

} // verus!
