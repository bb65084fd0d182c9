//! The scores of version 3 lie between 0.0 and 10.0, and what they are
//! computed from stays in the normal range of binary64: bounds on the steps
//! of the formulas, from the least and the greatest weights.

use crate::bounds::{
    lemma_product_normal, lemma_product_one, lemma_ratio_exact, lemma_ratio_one, lemma_sum_normal,
    one,
};
use crate::float::{difference, magnitude_le, min, product, ratio, sum, Dyadic, MANT_MIN};
use crate::interval::{
    fixed, lemma_difference_above, lemma_difference_below, lemma_fixed, lemma_fixed_exponent,
    lemma_fixed_order, lemma_product_above, lemma_product_below, lemma_ratio_above,
    lemma_ratio_below, plain,
};
use crate::metric::{value_codes, weights, Family};
use crate::rounding::{lemma_add_zero, lemma_ratio_normal, lemma_ratio_upper, lemma_round_normal};
use crate::score::tenths::{
    lemma_ratio_ten, lemma_round_up_ceiling_range, lemma_round_up_corrected_range,
};
use crate::v3::{
    base_tenths, changed, combined, exploitability, exploitability_of, impact, impact_sub_score,
    modified, modified_weight, power15, privileges, scoped_impact, MinorVersion,
};
use crate::values::{valid, weight_of};
use vstd::arithmetic::power2::*;
use vstd::prelude::*;

verus! {

/// Whether a weight that enters the impact sub-score is zero or lies between
/// 0.11 and 0.84, as an impact weight does, alone or times a requirement.
pub open spec fn impact_weight(c: Dyadic) -> bool {
    &&& plain(c)
    &&& magnitude_le(c, fixed(14092862))
    &&& c.is_zero() || magnitude_le(fixed(1845493), c)
}

/// The weight of an impact metric is an impact weight.
pub proof fn lemma_impact_weight(w: nat)
    requires
        w == 0 || w == 220 || w == 560,
    ensures
        impact_weight(ratio(w, 1000)),
        magnitude_le(ratio(w, 1000), fixed(9395241)),
        w > 0 ==> magnitude_le(fixed(3690987), ratio(w, 1000)),
        ratio(w, 1000).is_zero() <==> w == 0,
{
    lemma_ratio_below(w, 1000, 14092862);
    lemma_ratio_below(w, 1000, 9395241);
    if w > 0 {
        lemma_ratio_above(w, 1000, 1845493);
        lemma_ratio_above(w, 1000, 3690987);
    }
}

/// An impact weight times a requirement, which weighs 0.5, 1 or 1.5, is an
/// impact weight.
pub proof fn lemma_required_weight(r: nat, w: nat)
    requires
        r == 500 || r == 1000 || r == 1500,
        w == 0 || w == 220 || w == 560,
    ensures
        impact_weight(product(ratio(r, 1000), ratio(w, 1000))),
{
    let cr = ratio(r, 1000);
    let c = ratio(w, 1000);
    lemma_impact_weight(w);
    lemma_ratio_below(r, 1000, 25165824);
    lemma_ratio_above(r, 1000, 8388608);
    lemma_product_below(cr, c, 25165824, 9395241, 14092862);
    lemma_round_normal(false, cr.mant * c.mant, cr.exp + c.exp);
    if w > 0 {
        lemma_product_above(cr, c, 8388608, 3690987, 1845493);
    } else {
        assert(cr.mant * c.mant == 0) by (nonlinear_arith)
            requires
                c.mant == 0,
        ;
    }
}

/// One less an impact weight lies between 0.16 and 1; it is one where the
/// weight is zero and at most 0.89 where it is not.
pub proof fn lemma_impact_complement(c: Dyadic)
    requires
        impact_weight(c),
    ensures
        plain(difference(ratio(1, 1), c)),
        magnitude_le(fixed(2684354), difference(ratio(1, 1), c)),
        magnitude_le(difference(ratio(1, 1), c), fixed(0x100_0000)),
        c.is_zero() ==> difference(ratio(1, 1), c) == ratio(1, 1),
        !c.is_zero() ==> magnitude_le(difference(ratio(1, 1), c), fixed(14931723)),
{
    let one = ratio(1, 1);
    lemma_ratio_below(1, 1, 0x100_0000);
    lemma_ratio_above(1, 1, 0x100_0000);
    lemma_fixed(0);
    lemma_fixed_order(14092862, 0x100_0000);
    lemma_difference_above(one, c, 0x100_0000, 14092862, 2684354);
    lemma_difference_below(one, c, 0x100_0000, 0, 0x100_0000);
    if c.is_zero() {
        lemma_add_zero(c.negated(), one);
    } else {
        lemma_difference_below(one, c, 0x100_0000, 1845493, 14931723);
    }
}

/// The impact sub-score of impact weights is zero where they all are, and
/// else lies between 0.11 and 1.
pub proof fn lemma_sub_score_range(c: Dyadic, i: Dyadic, a: Dyadic)
    requires
        impact_weight(c),
        impact_weight(i),
        impact_weight(a),
    ensures
        plain(impact_sub_score(c, i, a)),
        impact_sub_score(c, i, a).is_zero() <==> c.is_zero() && i.is_zero() && a.is_zero(),
        !impact_sub_score(c, i, a).is_zero() ==> magnitude_le(
            fixed(1845493),
            impact_sub_score(c, i, a),
        ) && magnitude_le(impact_sub_score(c, i, a), fixed(0x100_0000)) && -56
            <= impact_sub_score(c, i, a).exp <= -52,
{
    let one = ratio(1, 1);
    let uc = difference(one, c);
    let ui = difference(one, i);
    let ua = difference(one, a);
    lemma_impact_complement(c);
    lemma_impact_complement(i);
    lemma_impact_complement(a);
    lemma_ratio_one();
    lemma2_to64();
    let unit: nat = 0x100_0000;
    lemma_ratio_below(1, 1, unit);
    lemma_ratio_above(1, 1, unit);
    let p1 = product(uc, ui);
    let p2 = product(p1, ua);
    if c.is_zero() && i.is_zero() && a.is_zero() {
        reveal(sum);
        lemma_product_one(one);
        assert(uc == one && ui == one && ua == one);
        assert(p1 == one && p2 == one);
        assert(one.signed() * pow2(0) + one.negated().signed() * pow2(0) == 0)
            by (nonlinear_arith)
            requires
                one.negated().signed() == -one.signed(),
        ;
        assert(difference(one, one).is_zero());
    } else {
        let bc: nat = if c.is_zero() {
            unit
        } else {
            14931723
        };
        let bi: nat = if i.is_zero() {
            unit
        } else {
            14931723
        };
        let ba: nat = if a.is_zero() {
            unit
        } else {
            14931723
        };
        let b1: nat = if c.is_zero() && i.is_zero() {
            unit
        } else {
            14931723
        };
        lemma_product_above(uc, ui, 2684354, 2684354, 429496);
        assert(bc * bi <= b1 * unit) by (nonlinear_arith)
            requires
                bc == 14931723 || bc == unit,
                bi == 14931723 || bi == unit,
                b1 == (if bc == unit && bi == unit {
                    unit
                } else {
                    14931723
                }),
                unit == 0x100_0000,
        ;
        lemma_product_below(uc, ui, bc, bi, b1);
        lemma_product_above(p1, ua, 429496, 2684354, 68719);
        assert(b1 * ba <= 14931723 * unit) by (nonlinear_arith)
            requires
                b1 == 14931723 || b1 == unit,
                ba == 14931723 || ba == unit,
                b1 == 14931723 || ba == 14931723,
                unit == 0x100_0000,
        ;
        lemma_product_below(p1, ua, b1, ba, 14931723);
        lemma_fixed_order(14931723, unit);
        lemma_fixed(0);
        lemma_difference_above(one, p2, unit, 14931723, 1845493);
        lemma_difference_below(one, p2, unit, 0, unit);
        lemma_fixed(1845493);
        lemma_fixed_exponent(1845493, 21);
        lemma_fixed_exponent(unit, 25);
    }
}

/// The weight of an impact metric of a vector is an impact weight.
pub proof fn lemma_base_impact_weight(v: Seq<u8>, m: int)
    requires
        valid(Family::V3, v),
        5 <= m <= 7,
    ensures
        impact_weight(weight_of(Family::V3, v, m)),
{
    assert(v[m] < value_codes(Family::V3, m).len());
    lemma_impact_weight(weights(Family::V3, m)[v[m] as int] as nat);
}

/// The weight of an impact metric that the environment sees, times its
/// requirement, is an impact weight.
pub proof fn lemma_modified_impact_weight(v: Seq<u8>, m: int)
    requires
        valid(Family::V3, v),
        5 <= m <= 7,
    ensures
        impact_weight(product(weight_of(Family::V3, v, m + 6), modified_weight(v, m))),
{
    assert(v[m] < value_codes(Family::V3, m).len());
    assert(v[m + 6] < value_codes(Family::V3, m + 6).len());
    assert(v[m + 14] < value_codes(Family::V3, m + 14).len());
    lemma_required_weight(
        weights(Family::V3, m + 6)[v[m + 6] as int] as nat,
        weights(Family::V3, m)[modified(v, m) as int] as nat,
    );
}

/// The weights of the temporal metrics are at most one.
pub proof fn lemma_temporal_weight(v: Seq<u8>, m: int)
    requires
        valid(Family::V3, v),
        8 <= m <= 10,
    ensures
        weights(Family::V3, m)[v[m] as int] <= 1000,
        magnitude_le(weight_of(Family::V3, v, m), one()),
{
    let w = weights(Family::V3, m)[v[m] as int];
    assert(v[m] < value_codes(Family::V3, m).len());
    assert(0 <= w <= 1000);
    lemma2_to64_rest();
    assert(w * pow2(52) <= MANT_MIN * 1000) by (nonlinear_arith)
        requires
            0 <= w <= 1000,
            pow2(52) == MANT_MIN,
    ;
    lemma_ratio_upper(w as nat, 1000, one());
}

/// A weight is a number that is not negative.
pub proof fn lemma_weight(w: nat)
    requires
        w <= 1510,
    ensures
        plain(ratio(w, 1000)),
        w == 1000 ==> ratio(w, 1000) == one(),
{
    lemma2_to64_rest();
    lemma_ratio_normal(w, 1000);
    if w == 1000 {
        lemma_ratio_exact(1000, 1000, MANT_MIN as nat, 52);
    }
}

/// The weights of the privileges are numbers that are not negative.
pub proof fn lemma_privileges(level: u8, changed: bool)
    ensures
        plain(privileges(level, changed)),
{
    lemma_weight(850);
    lemma_weight(620);
    lemma_weight(680);
    lemma_weight(270);
    lemma_weight(500);
}

/// One less an impact weight of at most 0.56 lies between 0.44 and 1.
pub proof fn lemma_complement(c: Dyadic, w: nat)
    requires
        c == ratio(w, 1000),
        w <= 560,
    ensures
        plain(difference(ratio(1, 1), c)),
        magnitude_le(fixed(7381975), difference(ratio(1, 1), c)),
        magnitude_le(difference(ratio(1, 1), c), fixed(0x100_0000)),
{
    let one = ratio(1, 1);
    lemma_ratio_below(1, 1, 0x100_0000);
    lemma_ratio_above(1, 1, 0x100_0000);
    lemma_ratio_below(w, 1000, 9395241);
    lemma_fixed(0);
    lemma_fixed_order(9395241, 0x100_0000);
    lemma_difference_above(one, c, 0x100_0000, 9395241, 7381975);
    lemma_difference_below(one, c, 0x100_0000, 0, 0x100_0000);
}

/// The impact sub-score of weights of at most 0.56 is not negative and at
/// most 0.9149, so that a cap of 0.915 leaves it as it is.
pub proof fn lemma_sub_score_capped(wc: nat, wi: nat, wa: nat)
    requires
        wc <= 560,
        wi <= 560,
        wa <= 560,
    ensures
        min(
            impact_sub_score(ratio(wc, 1000), ratio(wi, 1000), ratio(wa, 1000)),
            ratio(915, 1000),
        ) == impact_sub_score(ratio(wc, 1000), ratio(wi, 1000), ratio(wa, 1000)),
{
    let one = ratio(1, 1);
    let uc = difference(one, ratio(wc, 1000));
    let ui = difference(one, ratio(wi, 1000));
    let ua = difference(one, ratio(wa, 1000));
    lemma_complement(ratio(wc, 1000), wc);
    lemma_complement(ratio(wi, 1000), wi);
    lemma_complement(ratio(wa, 1000), wa);
    let unit: nat = 0x100_0000;
    let p1 = product(uc, ui);
    lemma_product_above(uc, ui, 7381975, 7381975, 3248068);
    lemma_product_below(uc, ui, unit, unit, unit);
    let p2 = product(p1, ua);
    lemma_product_above(p1, ua, 3248068, 7381975, 1429149);
    lemma_product_below(p1, ua, unit, unit, unit);
    lemma_ratio_below(1, 1, unit);
    lemma_ratio_above(1, 1, unit);
    lemma_difference_below(one, p2, unit, 1429149, 15348067);
    lemma_ratio_above(915, 1000, 15351152);
    lemma_ratio_normal(915, 1000);
    lemma_fixed_order(15348067, 15351152);
}

/// The score from an impact and an exploitability lies between 0.0 and 10.0.
pub proof fn lemma_combined_range(minor: MinorVersion, imp: Dyadic, ex: Dyadic, changed: bool)
    requires
        imp.normal(),
        plain(ex),
    ensures
        0 <= combined(minor, imp, ex, changed) <= 100,
{
    if !(imp.is_zero() || imp.neg) {
        let s = sum(imp, ex);
        lemma_sum_normal(imp, ex);
        lemma2_to64_rest();
        lemma_ratio_normal(108, 100);
        lemma_product_normal(ratio(108, 100), s);
        lemma_ratio_ten();
        let scaled = if changed {
            product(ratio(108, 100), s)
        } else {
            s
        };
        let x = min(scaled, ratio(10, 1));
        match minor {
            MinorVersion::V0 => lemma_round_up_ceiling_range(x),
            MinorVersion::V1 => lemma_round_up_corrected_range(x),
        }
    }
}

/// The impact from a normal impact sub-score is normal.
pub proof fn lemma_scoped_impact_normal(iss: Dyadic, changed: bool)
    ensures
        scoped_impact(iss, changed).normal(),
{
    if changed {
        let linear = product(ratio(752, 100), difference(iss, ratio(29, 1000)));
        let power = product(ratio(325, 100), power15(difference(iss, ratio(2, 100))));
        lemma_sum_normal(linear, power.negated());
    } else {
        lemma_product_normal(ratio(642, 100), iss);
    }
}

/// The exploitability of weights that are not negative is not negative.
pub proof fn lemma_exploitability_plain(av: Dyadic, ac: Dyadic, pr: Dyadic, ui: Dyadic)
    requires
        plain(av),
        plain(ac),
        plain(pr),
        plain(ui),
    ensures
        plain(exploitability_of(av, ac, pr, ui)),
{
    lemma2_to64_rest();
    lemma_ratio_normal(822, 100);
    let a = product(ratio(822, 100), av);
    lemma_product_normal(ratio(822, 100), av);
    let b = product(a, ac);
    lemma_product_normal(a, ac);
    let c = product(b, pr);
    lemma_product_normal(b, pr);
    lemma_product_normal(c, ui);
}

/// The base score lies between 0.0 and 10.0.
pub proof fn lemma_base_range(minor: MinorVersion, v: Seq<u8>)
    requires
        valid(Family::V3, v),
    ensures
        0 <= base_tenths(minor, v) <= 100,
{
    assert(v[0] < value_codes(Family::V3, 0).len());
    assert(v[1] < value_codes(Family::V3, 1).len());
    assert(v[3] < value_codes(Family::V3, 3).len());
    lemma_weight(weights(Family::V3, 0)[v[0] as int] as nat);
    lemma_weight(weights(Family::V3, 1)[v[1] as int] as nat);
    lemma_weight(weights(Family::V3, 3)[v[3] as int] as nat);
    lemma_privileges(v[2], changed(v[4]));
    lemma_exploitability_plain(
        weight_of(Family::V3, v, 0),
        weight_of(Family::V3, v, 1),
        privileges(v[2], changed(v[4])),
        weight_of(Family::V3, v, 3),
    );
    lemma_scoped_impact_normal(
        impact_sub_score(
            weight_of(Family::V3, v, 5),
            weight_of(Family::V3, v, 6),
            weight_of(Family::V3, v, 7),
        ),
        changed(v[4]),
    );
    lemma_combined_range(minor, impact(v), exploitability(v), changed(v[4]));
}

} // verus!
