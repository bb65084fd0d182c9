//! The scores of version 2.0 lie between 0.0 and 10.0: bounds on each step
//! of the formulas, from the least and the greatest weights.

use crate::bounds::{lemma_product_one, lemma_ratio_one, one};
use crate::float::{difference, magnitude_le, product, ratio, round, sum};
use crate::interval::{
    fixed, lemma_difference_above, lemma_difference_below, lemma_fixed, lemma_fixed_order,
    lemma_product_above, lemma_product_below, lemma_ratio_above, lemma_ratio_below,
    lemma_sum_above, lemma_sum_below, plain,
};
use crate::metric::{value_codes, weights, Family};
use crate::rounding::{lemma_add_zero, lemma_round_upper};
use crate::score::ten;
use crate::score::tenths::{lemma_ratio_ten, lemma_round_up_ceiling_range};
use crate::v2::{base_tenths, exploitability, impact};
use crate::values::valid;
use vstd::arithmetic::power2::*;
use vstd::prelude::*;

verus! {

/// The weight in thousandths of the value that `v` gives metric `m`.
pub open spec fn thousandths(v: Seq<u8>, m: int) -> nat {
    weights(Family::V2, m)[v[m] as int] as nat
}

/// The quotient `1 / 1` is one, and as a bound it is `2^24 / 2^24`.
pub proof fn lemma_one()
    ensures
        plain(ratio(1, 1)),
        ratio(1, 1) == one(),
        magnitude_le(ratio(1, 1), fixed(0x100_0000)),
        magnitude_le(fixed(0x100_0000), ratio(1, 1)),
{
    lemma_ratio_one();
    lemma_ratio_below(1, 1, 0x100_0000);
    lemma_ratio_above(1, 1, 0x100_0000);
}

/// One less an impact weight `w / 1000`, which is at most 0.66, lies between
/// 0.34 and 1, and is at most 0.725 where the weight is at least 0.275.
pub proof fn lemma_complement(w: nat)
    requires
        w <= 660,
    ensures
        plain(difference(ratio(1, 1), ratio(w, 1000))),
        magnitude_le(fixed(5704253), difference(ratio(1, 1), ratio(w, 1000))),
        magnitude_le(difference(ratio(1, 1), ratio(w, 1000)), fixed(0x100_0000)),
        w >= 275 ==> magnitude_le(difference(ratio(1, 1), ratio(w, 1000)), fixed(12163482)),
{
    let one = ratio(1, 1);
    let c = ratio(w, 1000);
    lemma_one();
    lemma_ratio_below(w, 1000, 11072963);
    lemma_fixed(0);
    lemma_fixed_order(11072963, 0x100_0000);
    lemma_difference_above(one, c, 0x100_0000, 11072963, 5704253);
    lemma_difference_below(one, c, 0x100_0000, 0, 0x100_0000);
    if w >= 275 {
        lemma_ratio_above(w, 1000, 4613734);
        lemma_difference_below(one, c, 0x100_0000, 4613734, 12163482);
    }
}

/// The impact weights of a vector are 0, 0.275 or 0.66.
pub proof fn lemma_impact_weights(v: Seq<u8>, m: int)
    requires
        valid(Family::V2, v),
        3 <= m <= 5,
    ensures
        thousandths(v, m) == 0 || thousandths(v, m) == 275 || thousandths(v, m) == 660,
{
    assert(v[m] < value_codes(Family::V2, m).len());
}

/// The impact sub-score is at most 10.0009, and at least 2.8627 unless every
/// impact weight is zero.
pub proof fn lemma_impact_range(v: Seq<u8>)
    requires
        valid(Family::V2, v),
    ensures
        plain(impact(v)),
        magnitude_le(impact(v), fixed(167786351)),
        thousandths(v, 3) + thousandths(v, 4) + thousandths(v, 5) > 0 ==> magnitude_le(
            fixed(48028970),
            impact(v),
        ) && !impact(v).is_zero(),
{
    let wc = thousandths(v, 3);
    let wi = thousandths(v, 4);
    let wa = thousandths(v, 5);
    lemma_impact_weights(v, 3);
    lemma_impact_weights(v, 4);
    lemma_impact_weights(v, 5);
    let one = ratio(1, 1);
    let uc = difference(one, ratio(wc, 1000));
    let ui = difference(one, ratio(wi, 1000));
    let ua = difference(one, ratio(wa, 1000));
    lemma_one();
    lemma_complement(wc);
    lemma_complement(wi);
    lemma_complement(wa);
    let unit: nat = 0x100_0000;
    let bc: nat = if wc >= 275 {
        12163482
    } else {
        unit
    };
    let bi: nat = if wi >= 275 {
        12163482
    } else {
        unit
    };
    let ba: nat = if wa >= 275 {
        12163482
    } else {
        unit
    };
    let b1: nat = if wc >= 275 || wi >= 275 {
        12163482
    } else {
        unit
    };
    let b2: nat = if wc + wi + wa > 0 {
        12163482
    } else {
        unit
    };
    let p1 = product(uc, ui);
    lemma_product_above(uc, ui, 5704253, 5704253, 1939445);
    assert(bc * bi <= b1 * unit) by (nonlinear_arith)
        requires
            bc == 12163482 || bc == unit,
            bi == 12163482 || bi == unit,
            b1 == (if bc == unit && bi == unit {
                unit
            } else {
                12163482
            }),
            unit == 0x100_0000,
    ;
    lemma_product_below(uc, ui, bc, bi, b1);
    let p2 = product(p1, ua);
    lemma_product_above(p1, ua, 1939445, 5704253, 659411);
    assert(b1 * ba <= b2 * unit) by (nonlinear_arith)
        requires
            b1 == 12163482 || b1 == unit,
            ba == 12163482 || ba == unit,
            b2 == (if b1 == unit && ba == unit {
                unit
            } else {
                12163482
            }),
            unit == 0x100_0000,
    ;
    lemma_product_below(p1, ua, b1, ba, b2);
    let iss = difference(one, p2);
    lemma_fixed_order(b2, unit);
    lemma_difference_below(one, p2, unit, 659411, 16117805);
    lemma_ratio_below(1041, 100, 174650819);
    lemma_product_below(ratio(1041, 100), iss, 174650819, 16117805, 167786351);
    if wc + wi + wa > 0 {
        lemma_difference_above(one, p2, unit, 12163482, 4613734);
        lemma_ratio_above(1041, 100, 174650818);
        lemma_product_above(ratio(1041, 100), iss, 174650818, 4613734, 48028970);
    }
}

/// Where every impact weight is zero, the impact sub-score is zero.
pub proof fn lemma_impact_zero(v: Seq<u8>)
    requires
        valid(Family::V2, v),
        thousandths(v, 3) + thousandths(v, 4) + thousandths(v, 5) == 0,
    ensures
        impact(v).is_zero(),
{
    reveal(ratio);
    reveal(round);
    reveal(sum);
    let one = ratio(1, 1);
    let zero = ratio(0, 1000);
    lemma_one();
    lemma2_to64();
    lemma_add_zero(zero.negated(), one);
    assert(difference(one, zero) == one);
    lemma_product_one(one);
    assert(one.signed() * pow2(0) + one.negated().signed() * pow2(0) == 0) by (nonlinear_arith)
        requires
            one.negated().signed() == -one.signed(),
    ;
    assert(difference(one, one).is_zero());
    assert(ratio(1041, 100).mant * 0 == 0);
}

/// The exploitability sub-score is at most 9.9969.
pub proof fn lemma_exploitability_range(v: Seq<u8>)
    requires
        valid(Family::V2, v),
    ensures
        plain(exploitability(v)),
        magnitude_le(exploitability(v), fixed(167718496)),
{
    let av = thousandths(v, 0);
    let ac = thousandths(v, 1);
    let au = thousandths(v, 2);
    assert(v[0] < value_codes(Family::V2, 0).len());
    assert(v[1] < value_codes(Family::V2, 1).len());
    assert(v[2] < value_codes(Family::V2, 2).len());
    assert(av <= 1000 && ac <= 710 && au <= 704);
    lemma_ratio_below(20, 1, 335544320);
    lemma_ratio_below(av, 1000, 0x100_0000);
    lemma_ratio_below(ac, 1000, 11911824);
    lemma_ratio_below(au, 1000, 11811161);
    let e1 = product(ratio(20, 1), ratio(av, 1000));
    lemma_product_below(ratio(20, 1), ratio(av, 1000), 335544320, 0x100_0000, 335544320);
    let e2 = product(e1, ratio(ac, 1000));
    lemma_product_below(e1, ratio(ac, 1000), 335544320, 11911824, 238236480);
    lemma_product_below(e2, ratio(au, 1000), 238236480, 11811161, 167718496);
}

/// The base score lies between 0.0 and 10.0.
pub proof fn lemma_base_range(v: Seq<u8>)
    requires
        valid(Family::V2, v),
    ensures
        0 <= base_tenths(v) <= 100,
{
    let imp = impact(v);
    let ex = exploitability(v);
    lemma_impact_range(v);
    lemma_exploitability_range(v);
    lemma_ratio_below(6, 10, 10066330);
    lemma_ratio_below(4, 10, 6710887);
    let t1 = product(ratio(6, 10), imp);
    let t2 = product(ratio(4, 10), ex);
    lemma_product_below(ratio(6, 10), imp, 10066330, 167786351, 100671815);
    lemma_product_below(ratio(4, 10), ex, 6710887, 167718496, 67087405);
    let s1 = sum(t1, t2);
    lemma_sum_below(t1, t2, 100671815, 67087405, 167759220);
    let s2 = difference(s1, ratio(15, 10));
    if thousandths(v, 3) + thousandths(v, 4) + thousandths(v, 5) == 0 {
        lemma_impact_zero(v);
        reveal(ratio);
        reveal(round);
        lemma2_to64();
        assert(s2.mant * 0 == 0);
        let s3 = product(s2, ratio(0, 1));
        assert(s3.mant == 0 && s3.exp == 0);
        assert(s3.mant * ratio(10, 1).mant == 0) by (nonlinear_arith)
            requires
                s3.mant == 0,
        ;
        assert(product(s3, ratio(10, 1)).signed() * pow2(0) == 0) by (nonlinear_arith)
            requires
                product(s3, ratio(10, 1)).signed() == 0,
        ;
    } else {
        lemma_ratio_above(6, 10, 10066329);
        lemma_product_above(ratio(6, 10), imp, 10066329, 48028970, 28817380);
        lemma_fixed(0);
        lemma_sum_above(t1, t2, 28817380, 0, 28817380);
        lemma_ratio_below(15, 10, 25165824);
        lemma_ratio_above(15, 10, 25165824);
        lemma_fixed_order(25165824, 28817380);
        lemma_difference_above(s1, ratio(15, 10), 28817380, 25165824, 3651556);
        lemma_difference_below(s1, ratio(15, 10), 167759220, 25165824, 142593396);
        lemma_ratio_below(1176, 1000, 19730007);
        let s3 = product(s2, ratio(1176, 1000));
        lemma_product_below(s2, ratio(1176, 1000), 142593396, 19730007, 167772160);
        lemma_ratio_ten();
        lemma2_to64();
        lemma2_to64_rest();
        assert(167772160 * pow2(25) <= ten().mant) by (nonlinear_arith)
            requires
                pow2(25) == 0x200_0000,
                ten().mant == 0x14_0000_0000_0000,
        ;
        lemma_round_upper(false, 167772160, -24, ten());
        lemma_round_up_ceiling_range(s3);
    }
}

} // verus!
