//! The values of a vector: one value for each metric of its family, in the
//! canonical order of the metrics.

use crate::float::{in_binary64, ratio, Dyadic, Float};
use crate::metric::{
    metric_code, metric_codes, metric_count, value_code, value_codes, value_count, weight, weights,
    Family,
};
use crate::parse::{parse_value, Fault, ParseError};
use vstd::prelude::*;

verus! {

/// Whether `values` gives each metric of the family one of its values.
pub open spec fn valid(f: Family, values: Seq<u8>) -> bool {
    &&& values.len() == metric_codes(f).len()
    &&& forall|m: int| 0 <= m < values.len() ==> (#[trigger] values[m]) < value_codes(f, m).len()
}

/// The weight of the value that `values` gives metric `m`.
pub open spec fn weight_of(f: Family, values: Seq<u8>, m: int) -> Dyadic {
    ratio(weights(f, m)[values[m] as int] as nat, 1000)
}

/// Whether `values` gives each metric of the family one of its values.
pub fn is_valid(f: Family, values: &Vec<u8>) -> (r: bool)
    ensures
        r == valid(f, values@),
{
    if values.len() != metric_count(f) {
        return false;
    }
    let mut m: usize = 0;
    while m < values.len()
        invariant
            m <= values.len(),
            values.len() == metric_codes(f).len(),
            forall|k: int| 0 <= k < m ==> (#[trigger] values@[k]) < value_codes(f, k).len(),
        decreases values.len() - m,
    {
        if values[m] >= value_count(f, m) {
            return false;
        }
        m = m + 1;
    }
    true
}

/// The weight of the value that `values` gives metric `m`.
pub fn weight_value(f: Family, values: &Vec<u8>, m: usize) -> (r: Float)
    requires
        valid(f, values@),
        m < values.len(),
    ensures
        r@ == weight_of(f, values@, m as int),
        r.wf(),
        !r.neg,
        r.mant != 0 ==> -85 <= r.exp <= -51,
{
    Float::from_ratio(weight(f, m, values[m]), 1000)
}

/// A copy of the values.
pub fn copy_values(values: &Vec<u8>) -> (r: Vec<u8>)
    ensures
        r@ == values@,
{
    let mut copy: Vec<u8> = Vec::new();
    let mut m: usize = 0;
    while m < values.len()
        invariant
            m <= values.len(),
            copy@ == values@.subrange(0, m as int),
        decreases values.len() - m,
    {
        copy.push(values[m]);
        assert(copy@ =~= values@.subrange(0, m + 1));
        m = m + 1;
    }
    assert(copy@ =~= values@);
    copy
}

/// A value of a metric: one of the choices that the table of the metric
/// lists.
#[derive(Clone, Copy, Debug, PartialEq, Eq)]
pub struct MetricValue {
    family: Family,
    metric: usize,
    value: u8,
}

/// A value of a metric, by the family, the position of the metric and the
/// position of the value.
pub struct Choice {
    pub family: Family,
    pub metric: int,
    pub value: int,
}

impl View for MetricValue {
    type V = Choice;

    closed spec fn view(&self) -> Choice {
        Choice { family: self.family, metric: self.metric as int, value: self.value as int }
    }
}

/// Whether the metric is one of the family and the value one of the metric.
pub open spec fn listed(c: Choice) -> bool {
    &&& 0 <= c.metric < metric_codes(c.family).len()
    &&& 0 <= c.value < value_codes(c.family, c.metric).len()
}

impl MetricValue {
    #[verifier::type_invariant]
    spec fn well_formed(&self) -> bool {
        &&& self.metric < metric_codes(self.family).len()
        &&& self.value < value_codes(self.family, self.metric as int).len()
    }

    /// Value `v` of metric `m`, where the tables list it.
    pub fn new(f: Family, m: usize, v: u8) -> (r: Option<MetricValue>)
        ensures
            match r {
                Some(value) => value@ == (Choice { family: f, metric: m as int, value: v as int })
                    && listed(value@),
                None => !listed(Choice { family: f, metric: m as int, value: v as int }),
            },
    {
        if m < metric_count(f) && v < value_count(f, m) {
            Some(MetricValue { family: f, metric: m, value: v })
        } else {
            None
        }
    }

    /// The value of metric `m` that a code names, or the fault of a code
    /// that names none.
    pub fn parse(f: Family, m: usize, code: &str) -> (r: Result<MetricValue, ParseError>)
        requires
            m < metric_codes(f).len(),
        ensures
            match r {
                Ok(value) => value@.family == f && value@.metric == m && listed(value@)
                    && value_codes(f, m as int)[value@.value] == code@,
                Err(e) => e@ == (Fault::UnknownValue {
                    metric: metric_codes(f)[m as int],
                    value: code@,
                }) && !value_codes(f, m as int).contains(code@),
            },
    {
        match parse_value(f, m, code) {
            Ok(v) => Ok(MetricValue { family: f, metric: m, value: v }),
            Err(e) => Err(e),
        }
    }

    /// The family of the metric.
    pub fn family(&self) -> (r: Family)
        ensures
            r == self@.family,
    {
        self.family
    }

    /// The position of the metric among the metrics of its family.
    pub fn metric(&self) -> (r: usize)
        ensures
            r == self@.metric,
            listed(self@),
    {
        proof {
            use_type_invariant(self);
        }
        self.metric
    }

    /// The position of the value among the values of its metric.
    pub fn position(&self) -> (r: u8)
        ensures
            r == self@.value,
            listed(self@),
    {
        proof {
            use_type_invariant(self);
        }
        self.value
    }

    /// The code of the metric.
    pub fn metric_code(&self) -> (r: &'static str)
        ensures
            r@ == metric_codes(self@.family)[self@.metric],
    {
        proof {
            use_type_invariant(self);
        }
        metric_code(self.family, self.metric)
    }

    /// The code of the value.
    pub fn code(&self) -> (r: &'static str)
        ensures
            r@ == value_codes(self@.family, self@.metric)[self@.value],
    {
        proof {
            use_type_invariant(self);
        }
        value_code(self.family, self.metric, self.value)
    }

    /// The weight of the value in thousandths. For privileges required in
    /// version 3 it is the weight under an unchanged scope.
    pub fn thousandths(&self) -> (r: u32)
        ensures
            r == weights(self@.family, self@.metric)[self@.value],
            r <= 1510,
    {
        proof {
            use_type_invariant(self);
        }
        weight(self.family, self.metric, self.value)
    }

    /// The weight of the value as a number.
    pub fn weight(&self) -> (r: Float)
        ensures
            r@ == ratio(weights(self@.family, self@.metric)[self@.value] as nat, 1000),
            r.within(-85, -51),
            !r.neg,
            in_binary64(r@),
    {
        proof {
            use_type_invariant(self);
        }
        Float::from_ratio(weight(self.family, self.metric, self.value), 1000)
    }
}

} // verus!
