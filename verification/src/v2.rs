//! Vectors of version 2.0 and their scores.

pub mod laws;
pub mod range;

use crate::float::{difference, in_binary64, product, ratio, sum, Dyadic, Float};
use crate::format::{append_metrics, metrics_text};
use crate::metric::{metric_codes, value_codes, Family};
use crate::parse::{metrics_of, parse_metrics, Fault, ParseError};
use crate::score::{round_to_1_decimal, round_up_ceiling, Score};
use crate::text::{starts_with, to_chars};
use crate::v2::range::lemma_base_range;
use crate::values::{copy_values, is_valid, valid, weight_of, weight_value, Choice, MetricValue};
use vstd::prelude::*;

verus! {

/// Position of access vector among the metrics.
pub const ACCESS_VECTOR: usize = 0;

/// Position of access complexity.
pub const ACCESS_COMPLEXITY: usize = 1;

/// Position of authentication.
pub const AUTHENTICATION: usize = 2;

/// Position of confidentiality impact.
pub const CONFIDENTIALITY_IMPACT: usize = 3;

/// Position of integrity impact.
pub const INTEGRITY_IMPACT: usize = 4;

/// Position of availability impact.
pub const AVAILABILITY_IMPACT: usize = 5;

/// The impact sub-score: `10.41 * (1 - (1 - C) * (1 - I) * (1 - A))`, each
/// step rounded.
pub open spec fn impact(v: Seq<u8>) -> Dyadic {
    let c = weight_of(Family::V2, v, 3);
    let i = weight_of(Family::V2, v, 4);
    let a = weight_of(Family::V2, v, 5);
    let one = ratio(1, 1);
    product(
        ratio(1041, 100),
        difference(
            one,
            product(product(difference(one, c), difference(one, i)), difference(one, a)),
        ),
    )
}

/// The exploitability sub-score: `20 * AV * AC * Au`, each step rounded.
pub open spec fn exploitability(v: Seq<u8>) -> Dyadic {
    let av = weight_of(Family::V2, v, 0);
    let ac = weight_of(Family::V2, v, 1);
    let au = weight_of(Family::V2, v, 2);
    product(product(product(ratio(20, 1), av), ac), au)
}

/// The base score in tenths: `(0.6 * impact + 0.4 * exploitability - 1.5) * f`
/// rounded up, where `f` is 0 for an impact of zero and 1.176 otherwise.
pub open spec fn base_tenths(v: Seq<u8>) -> int {
    let imp = impact(v);
    let f = if imp.is_zero() {
        ratio(0, 1)
    } else {
        ratio(1176, 1000)
    };
    round_up_ceiling(
        product(
            difference(
                sum(product(ratio(6, 10), imp), product(ratio(4, 10), exploitability(v))),
                ratio(15, 10),
            ),
            f,
        ),
    )
}

/// The values that a text gives as a vector of version 2.0, or why it gives
/// none. Such a text has no version before its metrics.
pub open spec fn parsed(s: Seq<char>) -> Result<Seq<u8>, Fault> {
    if "CVSS:"@.is_prefix_of(s) {
        Err(Fault::UnsupportedVersion)
    } else {
        metrics_of(Family::V2, s)
    }
}

/// The canonical text of a vector of version 2.0.
pub open spec fn text(values: Seq<u8>) -> Seq<char> {
    metrics_text(Family::V2, values)
}

/// A vector of version 2.0: a value for each of its fourteen metrics.
#[derive(Debug, PartialEq, Eq)]
pub struct V2Vector {
    values: Vec<u8>,
}

impl View for V2Vector {
    type V = Seq<u8>;

    /// The values of the metrics, in canonical order.
    closed spec fn view(&self) -> Seq<u8> {
        self.values@
    }
}

impl Clone for V2Vector {
    fn clone(&self) -> (r: V2Vector)
        ensures
            r@ == self@,
    {
        proof {
            use_type_invariant(self);
        }
        V2Vector { values: copy_values(&self.values) }
    }
}

impl V2Vector {
    #[verifier::type_invariant]
    spec fn well_formed(&self) -> bool {
        valid(Family::V2, self.values@)
    }

    /// The vector with these values, where they are values of the metrics.
    pub fn new(values: Vec<u8>) -> (r: Option<V2Vector>)
        ensures
            match r {
                Some(vector) => vector@ == values@ && valid(Family::V2, values@),
                None => !valid(Family::V2, values@),
            },
    {
        if is_valid(Family::V2, &values) {
            Some(V2Vector { values })
        } else {
            None
        }
    }

    /// The values of the metrics, in canonical order.
    pub fn values(&self) -> (r: &Vec<u8>)
        ensures
            r@ == self@,
            valid(Family::V2, r@),
    {
        proof {
            use_type_invariant(self);
        }
        &self.values
    }

    /// The value of metric `m`, as its position among the values of the
    /// metric.
    pub fn value(&self, m: usize) -> (r: u8)
        requires
            m < metric_codes(Family::V2).len(),
        ensures
            r == self@[m as int],
            r < value_codes(Family::V2, m as int).len(),
    {
        proof {
            use_type_invariant(self);
        }
        self.values[m]
    }

    /// The value that the vector gives metric `m`.
    pub fn get(&self, m: usize) -> (r: Option<MetricValue>)
        ensures
            match r {
                Some(value) => m < metric_codes(Family::V2).len() && value@ == (Choice {
                    family: Family::V2,
                    metric: m as int,
                    value: self@[m as int] as int,
                }),
                None => m >= metric_codes(Family::V2).len(),
            },
    {
        proof {
            use_type_invariant(self);
        }
        if m < self.values.len() {
            MetricValue::new(Family::V2, m, self.values[m])
        } else {
            None
        }
    }

    /// The vector that a text gives, or why it gives none.
    pub fn parse(input: &str) -> (r: Result<V2Vector, ParseError>)
        ensures
            match r {
                Ok(vector) => parsed(input@) == Ok::<Seq<u8>, Fault>(vector@),
                Err(e) => parsed(input@) == Err::<Seq<u8>, Fault>(e@),
            },
    {
        let chars: Vec<char> = to_chars(input);
        if starts_with(&chars, "CVSS:") {
            return Err(ParseError::UnsupportedVersion);
        }
        assert(input@.subrange(0, input@.len() as int) =~= input@);
        match parse_metrics(Family::V2, input, &chars, 0) {
            Ok(values) => Ok(V2Vector { values }),
            Err(e) => Err(e),
        }
    }

    /// The canonical text of the vector.
    pub fn to_string(&self) -> (r: String)
        ensures
            r@ == text(self@),
    {
        proof {
            use_type_invariant(self);
        }
        let r: String = append_metrics(Family::V2, &self.values, String::new());
        assert(r@ =~= text(self@));
        r
    }

    /// The impact sub-score, not rounded to tenths.
    pub fn impact(&self) -> (r: Float)
        ensures
            r@ == impact(self@),
            r.within(-1000, -30),
            in_binary64(r@),
    {
        proof {
            use_type_invariant(self);
        }
        let c: Float = weight_value(Family::V2, &self.values, CONFIDENTIALITY_IMPACT);
        let i: Float = weight_value(Family::V2, &self.values, INTEGRITY_IMPACT);
        let a: Float = weight_value(Family::V2, &self.values, AVAILABILITY_IMPACT);
        let one: Float = Float::from_ratio(1, 1);
        let rest: Float = one.sub(c).mul(one.sub(i)).mul(one.sub(a));
        Float::from_ratio(1041, 100).mul(one.sub(rest))
    }

    /// The exploitability sub-score, not rounded to tenths.
    pub fn expoitability(&self) -> (r: Float)
        ensures
            r@ == exploitability(self@),
            r.within(-1000, -38),
            !r.neg,
            in_binary64(r@),
    {
        proof {
            use_type_invariant(self);
        }
        let av: Float = weight_value(Family::V2, &self.values, ACCESS_VECTOR);
        let ac: Float = weight_value(Family::V2, &self.values, ACCESS_COMPLEXITY);
        let au: Float = weight_value(Family::V2, &self.values, AUTHENTICATION);
        Float::from_ratio(20, 1).mul(av).mul(ac).mul(au)
    }

    /// The base score in tenths, before it is known to lie in range.
    fn base_tenths(&self) -> (t: i64)
        ensures
            t == base_tenths(self@),
    {
        let impact: Float = self.impact();
        let f_impact: Float = if impact.mant == 0 {
            Float::from_ratio(0, 1)
        } else {
            Float::from_ratio(1176, 1000)
        };
        let expoitability: Float = self.expoitability();
        let weighted: Float = Float::from_ratio(6, 10).mul(impact).add(
            Float::from_ratio(4, 10).mul(expoitability),
        );
        round_to_1_decimal(weighted.sub(Float::from_ratio(15, 10)).mul(f_impact))
    }

    /// The base score.
    pub fn base_score(&self) -> (r: Score)
        ensures
            r@ == base_tenths(self@),
            0 <= r@ <= 100,
    {
        proof {
            use_type_invariant(self);
            lemma_base_range(self@);
        }
        Score::of(self.base_tenths() as u8)
    }

    /// The temporal score, which is fixed at zero.
    pub fn temporal_score(&self) -> (r: Score)
        ensures
            r@ == 0,
            0 <= r@ <= 100,
    {
        Score::of(0)
    }

    /// The environmental score, which is fixed at zero.
    pub fn environmental_score(&self) -> (r: Score)
        ensures
            r@ == 0,
            0 <= r@ <= 100,
    {
        Score::of(0)
    }
}

} // verus!
