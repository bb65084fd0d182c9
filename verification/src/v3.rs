//! Vectors of versions 3.0 and 3.1 and their scores. The two versions share
//! every formula and differ in how a value is rounded up to a tenth.

pub mod laws;
pub mod range;

use crate::bounds::{at, lemma_product_upper, one};
use crate::float::{
    difference, in_binary64, magnitude_le, min, product, ratio, sum, Dyadic, Float, MANT_MIN,
};
use crate::format::{append_metrics, metrics_text};
use crate::metric::{metric_codes, value_codes, weight, weights, Family};
use crate::parse::{metrics_of, parse_metrics, Fault, ParseError};
use crate::rounding::lemma_ratio_upper;
use crate::score::{
    round_to_1_decimal, round_up_ceiling, round_up_corrected, round_up_to_1_decimal, roundable,
    ten, Score,
};
use crate::score::tenths::lemma_ratio_ten;
use crate::text::{starts_with, to_chars};
use crate::v3::range::{
    impact_weight, lemma_base_impact_weight, lemma_modified_impact_weight, lemma_sub_score_range,
    lemma_temporal_weight,
};
use crate::values::{copy_values, is_valid, valid, weight_of, weight_value, Choice, MetricValue};
use vstd::arithmetic::power2::*;
use vstd::prelude::*;
use vstd::string::*;

verus! {

/// Position of attack vector among the metrics.
pub const ATTACK_VECTOR: usize = 0;

/// Position of attack complexity.
pub const ATTACK_COMPLEXITY: usize = 1;

/// Position of privileges required.
pub const PRIVILEGES_REQUIRED: usize = 2;

/// Position of user interaction.
pub const USER_INTERACTION: usize = 3;

/// Position of scope.
pub const SCOPE: usize = 4;

/// Position of confidentiality.
pub const CONFIDENTIALITY: usize = 5;

/// Position of integrity.
pub const INTEGRITY: usize = 6;

/// Position of availability.
pub const AVAILABILITY: usize = 7;

/// Position of exploit code maturity.
pub const EXPLOIT_CODE_MATURITY: usize = 8;

/// Position of remediation level.
pub const REMEDIATION_LEVEL: usize = 9;

/// Position of report confidence.
pub const REPORT_CONFIDENCE: usize = 10;

/// Position of the confidentiality requirement.
pub const CONFIDENTIALITY_REQUIREMENT: usize = 11;

/// Position of the integrity requirement.
pub const INTEGRITY_REQUIREMENT: usize = 12;

/// Position of the availability requirement.
pub const AVAILABILITY_REQUIREMENT: usize = 13;

/// How far behind a base metric its modified metric stands.
pub const MODIFIED: usize = 14;

/// The minor version of a vector of version 3.
#[derive(Clone, Copy, Debug, PartialEq, Eq, Structural)]
pub enum MinorVersion {
    /// Version 3.0.
    V0,
    /// Version 3.1.
    V1,
}

/// Whether a value of scope is "changed".
pub open spec fn changed(scope: u8) -> bool {
    scope == 1
}

/// The weight of a level of required privileges (none, low, high), which for
/// the latter two is greater where the scope changes.
pub open spec fn privileges(level: u8, changed: bool) -> Dyadic {
    ratio(
        if level == 0 {
            850
        } else if level == 1 {
            if changed {
                680
            } else {
                620
            }
        } else {
            if changed {
                500
            } else {
                270
            }
        },
        1000,
    )
}

/// `1 - (1 - c) * (1 - i) * (1 - a)`, each step rounded.
pub open spec fn impact_sub_score(c: Dyadic, i: Dyadic, a: Dyadic) -> Dyadic {
    let one = ratio(1, 1);
    difference(one, product(product(difference(one, c), difference(one, i)), difference(one, a)))
}

/// The fifteenth power, by squaring: `((x * x^2) * x^4) * x^8`.
pub open spec fn power15(x: Dyadic) -> Dyadic {
    let x2 = product(x, x);
    let x4 = product(x2, x2);
    let x8 = product(x4, x4);
    product(product(product(x, x2), x4), x8)
}

/// The impact from the impact sub-score: `6.42 * iss` where the scope is
/// unchanged, else `7.52 * (iss - 0.029) - 3.25 * (iss - 0.02)^15`.
pub open spec fn scoped_impact(iss: Dyadic, changed: bool) -> Dyadic {
    if changed {
        difference(
            product(ratio(752, 100), difference(iss, ratio(29, 1000))),
            product(ratio(325, 100), power15(difference(iss, ratio(2, 100)))),
        )
    } else {
        product(ratio(642, 100), iss)
    }
}

/// `8.22 * av * ac * pr * ui`, each step rounded.
pub open spec fn exploitability_of(av: Dyadic, ac: Dyadic, pr: Dyadic, ui: Dyadic) -> Dyadic {
    product(product(product(product(ratio(822, 100), av), ac), pr), ui)
}

/// The impact sub-score of the base metrics, adjusted for scope.
pub open spec fn impact(v: Seq<u8>) -> Dyadic {
    scoped_impact(
        impact_sub_score(
            weight_of(Family::V3, v, 5),
            weight_of(Family::V3, v, 6),
            weight_of(Family::V3, v, 7),
        ),
        changed(v[4]),
    )
}

/// The exploitability sub-score of the base metrics.
pub open spec fn exploitability(v: Seq<u8>) -> Dyadic {
    exploitability_of(
        weight_of(Family::V3, v, 0),
        weight_of(Family::V3, v, 1),
        privileges(v[2], changed(v[4])),
        weight_of(Family::V3, v, 3),
    )
}

/// A value rounded up to tenths as the minor version has it: 3.0 by the
/// ceiling, 3.1 by way of the nearest hundred thousandth.
pub open spec fn round_up(minor: MinorVersion, x: Dyadic) -> int {
    match minor {
        MinorVersion::V0 => round_up_ceiling(x),
        MinorVersion::V1 => round_up_corrected(x),
    }
}

/// The score in tenths from an impact and an exploitability: 0 where the
/// impact is not above zero, else their sum, times 1.08 where the scope
/// changes, capped at 10 and rounded up.
pub open spec fn combined(minor: MinorVersion, imp: Dyadic, ex: Dyadic, changed: bool) -> int {
    if imp.is_zero() || imp.neg {
        0
    } else {
        let s = sum(imp, ex);
        round_up(
            minor,
            min(
                if changed {
                    product(ratio(108, 100), s)
                } else {
                    s
                },
                ratio(10, 1),
            ),
        )
    }
}

/// The base score in tenths.
pub open spec fn base_tenths(minor: MinorVersion, v: Seq<u8>) -> int {
    combined(minor, impact(v), exploitability(v), changed(v[4]))
}

/// A score of so many tenths, times the weights of exploit code maturity,
/// remediation level and report confidence, rounded up.
pub open spec fn temporal_of(minor: MinorVersion, v: Seq<u8>, tenths: int) -> int {
    round_up(
        minor,
        product(
            product(
                product(ratio(tenths as nat, 10), weight_of(Family::V3, v, 8)),
                weight_of(Family::V3, v, 9),
            ),
            weight_of(Family::V3, v, 10),
        ),
    )
}

/// The temporal score in tenths.
pub open spec fn temporal_tenths(minor: MinorVersion, v: Seq<u8>) -> int {
    temporal_of(minor, v, base_tenths(minor, v))
}

/// The value of base metric `m` that the environment sees: that of its
/// modified metric, or the base metric's own where that is not defined.
pub open spec fn modified(v: Seq<u8>, m: int) -> u8 {
    if v[m + 14] == 0 {
        v[m]
    } else {
        (v[m + 14] - 1) as u8
    }
}

/// The weight of the value of base metric `m` that the environment sees.
pub open spec fn modified_weight(v: Seq<u8>, m: int) -> Dyadic {
    ratio(weights(Family::V3, m)[modified(v, m) as int] as nat, 1000)
}

/// The modified impact sub-score: each impact weighted by its requirement,
/// the whole capped at 0.915.
pub open spec fn modified_impact_sub_score(v: Seq<u8>) -> Dyadic {
    min(
        impact_sub_score(
            product(weight_of(Family::V3, v, 11), modified_weight(v, 5)),
            product(weight_of(Family::V3, v, 12), modified_weight(v, 6)),
            product(weight_of(Family::V3, v, 13), modified_weight(v, 7)),
        ),
        ratio(915, 1000),
    )
}

/// The modified impact.
pub open spec fn modified_impact(v: Seq<u8>) -> Dyadic {
    scoped_impact(modified_impact_sub_score(v), changed(modified(v, 4)))
}

/// The modified exploitability.
pub open spec fn modified_exploitability(v: Seq<u8>) -> Dyadic {
    exploitability_of(
        modified_weight(v, 0),
        modified_weight(v, 1),
        privileges(modified(v, 2), changed(modified(v, 4))),
        modified_weight(v, 3),
    )
}

/// The environmental score in tenths.
pub open spec fn environmental_tenths(minor: MinorVersion, v: Seq<u8>) -> int {
    temporal_of(
        minor,
        v,
        combined(
            minor,
            modified_impact(v),
            modified_exploitability(v),
            changed(modified(v, 4)),
        ),
    )
}

/// The weight of a level of required privileges.
fn privileges_weight(level: u8, changed: bool) -> (r: Float)
    ensures
        r@ == privileges(level, changed),
        r.within(-85, -51),
        !r.neg,
{
    let w: u32 = if level == 0 {
        850
    } else if level == 1 {
        if changed {
            680
        } else {
            620
        }
    } else {
        if changed {
            500
        } else {
            270
        }
    };
    Float::from_ratio(w, 1000)
}

/// `1 - (1 - c) * (1 - i) * (1 - a)`.
fn sub_score(c: Float, i: Float, a: Float) -> (r: Float)
    requires
        c.within(-200, -48),
        i.within(-200, -48),
        a.within(-200, -48),
        impact_weight(c@),
        impact_weight(i@),
        impact_weight(a@),
    ensures
        r@ == impact_sub_score(c@, i@, a@),
        r.within(-56, -52),
{
    proof {
        lemma_sub_score_range(c@, i@, a@);
    }
    let one: Float = Float::from_ratio(1, 1);
    let rest: Float = one.sub(c).mul(one.sub(i)).mul(one.sub(a));
    one.sub(rest)
}

/// The fifteenth power.
fn fifteenth(x: Float) -> (r: Float)
    requires
        x.within(-110, -49),
    ensures
        r@ == power15(x@),
        r.within(-922, 21),
{
    let x2: Float = x.mul(x);
    let x4: Float = x2.mul(x2);
    let x8: Float = x4.mul(x4);
    x.mul(x2).mul(x4).mul(x8)
}

/// The impact from the impact sub-score.
fn impact_from(iss: Float, changed: bool) -> (r: Float)
    requires
        iss.within(-58, -51),
    ensures
        r@ == scoped_impact(iss@, changed),
        r.within(-974, 30),
{
    if changed {
        let linear: Float = Float::from_ratio(752, 100).mul(iss.sub(Float::from_ratio(29, 1000)));
        let power: Float = fifteenth(iss.sub(Float::from_ratio(2, 100)));
        linear.sub(Float::from_ratio(325, 100).mul(power))
    } else {
        Float::from_ratio(642, 100).mul(iss)
    }
}

/// `8.22 * av * ac * pr * ui`.
fn exploitability_from(av: Float, ac: Float, pr: Float, ui: Float) -> (r: Float)
    requires
        av.within(-85, -51),
        ac.within(-85, -51),
        pr.within(-85, -51),
        ui.within(-85, -51),
        !av.neg && !ac.neg && !pr.neg && !ui.neg,
    ensures
        r@ == exploitability_of(av@, ac@, pr@, ui@),
        r.within(-217, -35),
        !r.neg,
{
    Float::from_ratio(822, 100).mul(av).mul(ac).mul(pr).mul(ui)
}

/// A value from 0 to 10, rounded up to tenths as the minor version has it.
fn round_up_score(minor: MinorVersion, x: Float) -> (r: Score)
    requires
        roundable(x),
        x.mant != 0 ==> x.exp <= -18,
        !x.neg,
        magnitude_le(x@, ten()),
    ensures
        r@ == round_up(minor, x@),
        0 <= r@ <= 100,
{
    let t: i64 = match minor {
        MinorVersion::V0 => round_to_1_decimal(x),
        MinorVersion::V1 => round_up_to_1_decimal(x),
    };
    Score::of(t as u8)
}

/// The score from an impact and an exploitability.
fn combine(minor: MinorVersion, imp: Float, ex: Float, changed: bool) -> (r: Score)
    requires
        imp.within(-974, 30),
        ex.within(-217, -35),
        !ex.neg,
    ensures
        r@ == combined(minor, imp@, ex@, changed),
        0 <= r@ <= 100,
{
    if !imp.is_positive() {
        return Score::of(0);
    }
    let s: Float = imp.add(ex);
    let scaled: Float = if changed {
        Float::from_ratio(108, 100).mul(s)
    } else {
        s
    };
    let capped: Float = scaled.min(Float::from_ratio(10, 1));
    proof {
        lemma_ratio_ten();
    }
    round_up_score(minor, capped)
}

/// How the text of a vector of a minor version begins.
pub open spec fn prefix(minor: MinorVersion) -> Seq<char> {
    match minor {
        MinorVersion::V0 => "CVSS:3.0/"@,
        MinorVersion::V1 => "CVSS:3.1/"@,
    }
}

/// A vector of version 3: its minor version and the values of its metrics in
/// canonical order.
pub struct VectorModel {
    pub minor: MinorVersion,
    pub values: Seq<u8>,
}

/// The vector of a minor version that a text of metrics gives.
pub open spec fn metrics_as(minor: MinorVersion, s: Seq<char>) -> Result<VectorModel, Fault> {
    match metrics_of(Family::V3, s) {
        Ok(values) => Ok(VectorModel { minor, values }),
        Err(e) => Err(e),
    }
}

/// The vector that a text gives as one of version 3, or why it gives none.
/// Such a text begins with its version.
pub open spec fn parsed(s: Seq<char>) -> Result<VectorModel, Fault> {
    if prefix(MinorVersion::V0).is_prefix_of(s) {
        metrics_as(
            MinorVersion::V0,
            s.subrange(prefix(MinorVersion::V0).len() as int, s.len() as int),
        )
    } else if prefix(MinorVersion::V1).is_prefix_of(s) {
        metrics_as(
            MinorVersion::V1,
            s.subrange(prefix(MinorVersion::V1).len() as int, s.len() as int),
        )
    } else {
        Err(Fault::UnsupportedVersion)
    }
}

/// The canonical text of a vector of version 3.
pub open spec fn text(v: VectorModel) -> Seq<char> {
    prefix(v.minor) + metrics_text(Family::V3, v.values)
}

/// A vector of version 3.0 or 3.1: a value for each of the twenty-two
/// metrics.
#[derive(Debug, PartialEq, Eq)]
pub struct V3Vector {
    minor_version: MinorVersion,
    values: Vec<u8>,
}

impl View for V3Vector {
    type V = VectorModel;

    closed spec fn view(&self) -> VectorModel {
        VectorModel { minor: self.minor_version, values: self.values@ }
    }
}

impl Clone for V3Vector {
    fn clone(&self) -> (r: V3Vector)
        ensures
            r@ == self@,
    {
        proof {
            use_type_invariant(self);
        }
        V3Vector { minor_version: self.minor_version, values: copy_values(&self.values) }
    }
}

impl V3Vector {
    #[verifier::type_invariant]
    spec fn well_formed(&self) -> bool {
        valid(Family::V3, self.values@)
    }

    /// The vector with these values, where they are values of the metrics.
    pub fn new(minor_version: MinorVersion, values: Vec<u8>) -> (r: Option<V3Vector>)
        ensures
            match r {
                Some(vector) => vector@ == (VectorModel { minor: minor_version, values: values@ })
                    && valid(Family::V3, values@),
                None => !valid(Family::V3, values@),
            },
    {
        if is_valid(Family::V3, &values) {
            Some(V3Vector { minor_version, values })
        } else {
            None
        }
    }

    /// The minor version.
    pub fn minor_version(&self) -> (r: MinorVersion)
        ensures
            r == self@.minor,
    {
        self.minor_version
    }

    /// The values of the metrics, in canonical order.
    pub fn values(&self) -> (r: &Vec<u8>)
        ensures
            r@ == self@.values,
            valid(Family::V3, r@),
    {
        proof {
            use_type_invariant(self);
        }
        &self.values
    }

    /// The value of metric `m`, as its position among the values of the
    /// metric.
    pub fn value(&self, m: usize) -> (r: u8)
        requires
            m < metric_codes(Family::V3).len(),
        ensures
            r == self@.values[m as int],
            r < value_codes(Family::V3, m as int).len(),
    {
        proof {
            use_type_invariant(self);
        }
        self.values[m]
    }

    /// The value that the vector gives metric `m`.
    pub fn get(&self, m: usize) -> (r: Option<MetricValue>)
        ensures
            match r {
                Some(value) => m < metric_codes(Family::V3).len() && value@ == (Choice {
                    family: Family::V3,
                    metric: m as int,
                    value: self@.values[m as int] as int,
                }),
                None => m >= metric_codes(Family::V3).len(),
            },
    {
        proof {
            use_type_invariant(self);
        }
        if m < self.values.len() {
            MetricValue::new(Family::V3, m, self.values[m])
        } else {
            None
        }
    }

    /// The vector that a text gives, or why it gives none.
    pub fn parse(input: &str) -> (r: Result<V3Vector, ParseError>)
        ensures
            match r {
                Ok(vector) => parsed(input@) == Ok::<VectorModel, Fault>(vector@),
                Err(e) => parsed(input@) == Err::<VectorModel, Fault>(e@),
            },
    {
        let chars: Vec<char> = to_chars(input);
        let minor_version: MinorVersion = if starts_with(&chars, "CVSS:3.0/") {
            MinorVersion::V0
        } else if starts_with(&chars, "CVSS:3.1/") {
            MinorVersion::V1
        } else {
            return Err(ParseError::UnsupportedVersion);
        };
        let start: usize = match minor_version {
            MinorVersion::V0 => "CVSS:3.0/".unicode_len(),
            MinorVersion::V1 => "CVSS:3.1/".unicode_len(),
        };
        match parse_metrics(Family::V3, input, &chars, start) {
            Ok(values) => Ok(V3Vector { minor_version, values }),
            Err(e) => Err(e),
        }
    }

    /// The canonical text of the vector.
    pub fn to_string(&self) -> (r: String)
        ensures
            r@ == text(self@),
    {
        proof {
            use_type_invariant(self);
        }
        let begin: String = match self.minor_version {
            MinorVersion::V0 => String::from_str("CVSS:3.0/"),
            MinorVersion::V1 => String::from_str("CVSS:3.1/"),
        };
        append_metrics(Family::V3, &self.values, begin)
    }

    /// The value of base metric `m` that the environment sees.
    fn modified(&self, m: usize) -> (r: u8)
        requires
            m < 8,
        ensures
            r == modified(self.values@, m as int),
            r < value_codes(Family::V3, m as int).len(),
    {
        proof {
            use_type_invariant(self);
            assert(self.values@[m + 14] < value_codes(Family::V3, m + 14).len());
            assert(self.values@[m as int] < value_codes(Family::V3, m as int).len());
            assert(value_codes(Family::V3, m + 14).len() == value_codes(
                Family::V3,
                m as int,
            ).len() + 1);
        }
        if self.values[m + MODIFIED] == 0 {
            self.values[m]
        } else {
            self.values[m + MODIFIED] - 1
        }
    }

    /// The weight of the value of base metric `m` that the environment sees.
    fn modified_weight(&self, m: usize) -> (r: Float)
        requires
            m < 8,
        ensures
            r@ == modified_weight(self.values@, m as int),
            r.within(-85, -51),
            !r.neg,
    {
        let v: u8 = self.modified(m);
        Float::from_ratio(weight(Family::V3, m, v), 1000)
    }

    /// The impact sub-score adjusted for scope, not rounded to tenths.
    pub fn impact(&self) -> (r: Float)
        ensures
            r@ == impact(self@.values),
            r.within(-974, 30),
            in_binary64(r@),
    {
        proof {
            use_type_invariant(self);
            lemma_base_impact_weight(self.values@, 5);
            lemma_base_impact_weight(self.values@, 6);
            lemma_base_impact_weight(self.values@, 7);
        }
        let c: Float = weight_value(Family::V3, &self.values, CONFIDENTIALITY);
        let i: Float = weight_value(Family::V3, &self.values, INTEGRITY);
        let a: Float = weight_value(Family::V3, &self.values, AVAILABILITY);
        impact_from(sub_score(c, i, a), self.values[SCOPE] == 1)
    }

    /// The exploitability sub-score, not rounded to tenths.
    pub fn expoitability(&self) -> (r: Float)
        ensures
            r@ == exploitability(self@.values),
            r.within(-217, -35),
            !r.neg,
            in_binary64(r@),
    {
        proof {
            use_type_invariant(self);
        }
        let av: Float = weight_value(Family::V3, &self.values, ATTACK_VECTOR);
        let ac: Float = weight_value(Family::V3, &self.values, ATTACK_COMPLEXITY);
        let pr: Float = privileges_weight(
            self.values[PRIVILEGES_REQUIRED],
            self.values[SCOPE] == 1,
        );
        let ui: Float = weight_value(Family::V3, &self.values, USER_INTERACTION);
        exploitability_from(av, ac, pr, ui)
    }

    /// The base score.
    pub fn base_score(&self) -> (r: Score)
        ensures
            r@ == base_tenths(self@.minor, self@.values),
            0 <= r@ <= 100,
    {
        proof {
            use_type_invariant(self);
        }
        combine(self.minor_version, self.impact(), self.expoitability(), self.values[SCOPE] == 1)
    }

    /// A score adjusted by the temporal metrics.
    fn adjusted(&self, score: Score) -> (r: Score)
        ensures
            r@ == temporal_of(self.minor_version, self.values@, score@),
            0 <= r@ <= 100,
    {
        proof {
            use_type_invariant(self);
        }
        let e: Float = weight_value(Family::V3, &self.values, EXPLOIT_CODE_MATURITY);
        let rl: Float = weight_value(Family::V3, &self.values, REMEDIATION_LEVEL);
        let rc: Float = weight_value(Family::V3, &self.values, REPORT_CONFIDENCE);
        let tenths: u8 = score.tenths();
        let b: Float = score.value();
        let be: Float = b.mul(e);
        let ber: Float = be.mul(rl);
        let x: Float = ber.mul(rc);
        proof {
            lemma2_to64_rest();
            lemma_ratio_ten();
            assert(tenths * pow2(49) <= ten().mant * 10) by (nonlinear_arith)
                requires
                    tenths <= 100,
                    ten().mant == 10 * pow2(49),
            ;
            assert(tenths < MANT_MIN * 10);
            lemma_ratio_upper(tenths as nat, 10, ten());
            lemma_temporal_weight(self.values@, 8);
            lemma_temporal_weight(self.values@, 9);
            lemma_temporal_weight(self.values@, 10);
            lemma2_to64();
            assert(at(ten(), -49) * at(one(), -52) <= at(ten(), -101)) by (nonlinear_arith)
                requires
                    at(ten(), -49) == ten().mant * 1,
                    at(one(), -52) == 0x10_0000_0000_0000 * 1,
                    at(ten(), -101) == ten().mant * 0x10_0000_0000_0000,
            ;
            lemma_product_upper(b@, e@, ten(), one(), ten(), -49, -52);
            lemma_product_upper(be@, rl@, ten(), one(), ten(), -49, -52);
            lemma_product_upper(ber@, rc@, ten(), one(), ten(), -49, -52);
        }
        round_up_score(self.minor_version, x)
    }

    /// The temporal score.
    pub fn temporal_score(&self) -> (r: Score)
        ensures
            r@ == temporal_tenths(self@.minor, self@.values),
            0 <= r@ <= 100,
    {
        proof {
            use_type_invariant(self);
        }
        self.adjusted(self.base_score())
    }

    /// The environmental score.
    pub fn environmental_score(&self) -> (r: Score)
        ensures
            r@ == environmental_tenths(self@.minor, self@.values),
            0 <= r@ <= 100,
    {
        proof {
            use_type_invariant(self);
        }
        let changed: bool = self.modified(SCOPE) == 1;
        let cr: Float = weight_value(Family::V3, &self.values, CONFIDENTIALITY_REQUIREMENT);
        let ir: Float = weight_value(Family::V3, &self.values, INTEGRITY_REQUIREMENT);
        let ar: Float = weight_value(Family::V3, &self.values, AVAILABILITY_REQUIREMENT);
        let c: Float = cr.mul(self.modified_weight(CONFIDENTIALITY));
        let i: Float = ir.mul(self.modified_weight(INTEGRITY));
        let a: Float = ar.mul(self.modified_weight(AVAILABILITY));
        proof {
            lemma_modified_impact_weight(self.values@, 5);
            lemma_modified_impact_weight(self.values@, 6);
            lemma_modified_impact_weight(self.values@, 7);
        }
        let iss: Float = sub_score(c, i, a).min(Float::from_ratio(915, 1000));
        let imp: Float = impact_from(iss, changed);
        let ex: Float = exploitability_from(
            self.modified_weight(ATTACK_VECTOR),
            self.modified_weight(ATTACK_COMPLEXITY),
            privileges_weight(self.modified(PRIVILEGES_REQUIRED), changed),
            self.modified_weight(USER_INTERACTION),
        );
        self.adjusted(combine(self.minor_version, imp, ex, changed))
    }
}

} // verus!
