//! Vectors of any version: a text that begins with `CVSS:` is read as one of
//! version 3, any other as one of version 2.0.

use crate::metric::Family;
use crate::parse::{Fault, ParseError};
use crate::score::Score;
use crate::text::{starts_with, to_chars};
use crate::v2::V2Vector;
use crate::v3::{V3Vector, VectorModel};
use crate::values::valid;
use vstd::prelude::*;

verus! {

/// A vector of version 2.0, 3.0 or 3.1.
#[derive(Clone, Debug, PartialEq, Eq)]
pub enum Vector {
    V2(V2Vector),
    V3(V3Vector),
}

/// A vector of any version, as its values.
pub enum AnyModel {
    V2(Seq<u8>),
    V3(VectorModel),
}

impl View for Vector {
    type V = AnyModel;

    open spec fn view(&self) -> AnyModel {
        match self {
            Vector::V2(v) => AnyModel::V2(v@),
            Vector::V3(v) => AnyModel::V3(v@),
        }
    }
}

/// The vector that a text gives, or why it gives none.
pub open spec fn parsed(s: Seq<char>) -> Result<AnyModel, Fault> {
    if "CVSS:"@.is_prefix_of(s) {
        match crate::v3::parsed(s) {
            Ok(v) => Ok(AnyModel::V3(v)),
            Err(e) => Err(e),
        }
    } else {
        match crate::v2::parsed(s) {
            Ok(v) => Ok(AnyModel::V2(v)),
            Err(e) => Err(e),
        }
    }
}

/// The canonical text of a vector.
pub open spec fn text(v: AnyModel) -> Seq<char> {
    match v {
        AnyModel::V2(values) => crate::v2::text(values),
        AnyModel::V3(model) => crate::v3::text(model),
    }
}

/// Whether the values of a vector are values of the metrics of its version.
pub open spec fn well_formed(v: AnyModel) -> bool {
    match v {
        AnyModel::V2(values) => valid(Family::V2, values),
        AnyModel::V3(model) => valid(Family::V3, model.values),
    }
}

/// The canonical text of a vector, read again, gives the vector.
pub proof fn lemma_round_trip(v: AnyModel)
    requires
        well_formed(v),
    ensures
        parsed(text(v)) == Ok::<AnyModel, Fault>(v),
{
    reveal_strlit("CVSS:");
    reveal_strlit("CVSS:3.0/");
    reveal_strlit("CVSS:3.1/");
    reveal_strlit("AV");
    match v {
        AnyModel::V2(values) => {
            crate::v2::laws::lemma_round_trip(values);
            crate::roundtrip::lemma_metrics_round_trip(Family::V2, values);
            let whole = text(v);
            assert(whole.subrange(0, 2)[0] == 'A');
            if "CVSS:"@.is_prefix_of(whole) {
                assert(whole.subrange(0, 5)[0] == 'C');
            }
        },
        AnyModel::V3(model) => {
            crate::v3::laws::lemma_round_trip(model);
            let whole = text(v);
            assert(whole.subrange(0, 5) =~= "CVSS:"@);
        },
    }
}

/// The base score of a vector in tenths.
pub open spec fn base_tenths(v: AnyModel) -> int {
    match v {
        AnyModel::V2(values) => crate::v2::base_tenths(values),
        AnyModel::V3(model) => crate::v3::base_tenths(model.minor, model.values),
    }
}

/// The temporal score of a vector in tenths, which for version 2.0 is fixed
/// at zero.
pub open spec fn temporal_tenths(v: AnyModel) -> int {
    match v {
        AnyModel::V2(values) => 0,
        AnyModel::V3(model) => crate::v3::temporal_tenths(model.minor, model.values),
    }
}

/// The environmental score of a vector in tenths, which for version 2.0 is
/// fixed at zero.
pub open spec fn environmental_tenths(v: AnyModel) -> int {
    match v {
        AnyModel::V2(values) => 0,
        AnyModel::V3(model) => crate::v3::environmental_tenths(model.minor, model.values),
    }
}

/// The three scores of a vector.
#[derive(Clone, Copy, Debug, PartialEq, Eq)]
pub struct Scores {
    pub base: Score,
    pub temporal: Score,
    pub environmental: Score,
}

/// Three scores in tenths.
pub struct ScoresModel {
    pub base: int,
    pub temporal: int,
    pub environmental: int,
}

impl View for Scores {
    type V = ScoresModel;

    open spec fn view(&self) -> ScoresModel {
        ScoresModel {
            base: self.base@,
            temporal: self.temporal@,
            environmental: self.environmental@,
        }
    }
}

/// The scores of a vector.
pub open spec fn scores_of(v: AnyModel) -> ScoresModel {
    ScoresModel {
        base: base_tenths(v),
        temporal: temporal_tenths(v),
        environmental: environmental_tenths(v),
    }
}

/// The scores of the vector that a text gives.
pub open spec fn scored(s: Seq<char>) -> Result<ScoresModel, Fault> {
    match parsed(s) {
        Ok(v) => Ok(scores_of(v)),
        Err(e) => Err(e),
    }
}

impl Vector {
    /// The vector that a text gives, or why it gives none.
    pub fn parse(input: &str) -> (r: Result<Vector, ParseError>)
        ensures
            match r {
                Ok(vector) => parsed(input@) == Ok::<AnyModel, Fault>(vector@),
                Err(e) => parsed(input@) == Err::<AnyModel, Fault>(e@),
            },
    {
        let chars: Vec<char> = to_chars(input);
        if starts_with(&chars, "CVSS:") {
            match V3Vector::parse(input) {
                Ok(v) => Ok(Vector::V3(v)),
                Err(e) => Err(e),
            }
        } else {
            match V2Vector::parse(input) {
                Ok(v) => Ok(Vector::V2(v)),
                Err(e) => Err(e),
            }
        }
    }

    /// The canonical text of the vector.
    pub fn to_string(&self) -> (r: String)
        ensures
            r@ == text(self@),
    {
        match self {
            Vector::V2(v) => v.to_string(),
            Vector::V3(v) => v.to_string(),
        }
    }

    /// The base score.
    pub fn base_score(&self) -> (r: Score)
        ensures
            r@ == base_tenths(self@),
            0 <= r@ <= 100,
    {
        match self {
            Vector::V2(v) => v.base_score(),
            Vector::V3(v) => v.base_score(),
        }
    }

    /// The temporal score.
    pub fn temporal_score(&self) -> (r: Score)
        ensures
            r@ == temporal_tenths(self@),
            0 <= r@ <= 100,
    {
        match self {
            Vector::V2(v) => v.temporal_score(),
            Vector::V3(v) => v.temporal_score(),
        }
    }

    /// The environmental score.
    pub fn environmental_score(&self) -> (r: Score)
        ensures
            r@ == environmental_tenths(self@),
            0 <= r@ <= 100,
    {
        match self {
            Vector::V2(v) => v.environmental_score(),
            Vector::V3(v) => v.environmental_score(),
        }
    }

    /// The three scores.
    pub fn scores(&self) -> (r: Scores)
        ensures
            r@ == scores_of(self@),
    {
        Scores {
            base: self.base_score(),
            temporal: self.temporal_score(),
            environmental: self.environmental_score(),
        }
    }
}

/// The scores of the vector that a text gives, or why it gives none. They
/// depend on nothing but the text.
pub fn score(input: &str) -> (r: Result<Scores, ParseError>)
    ensures
        match r {
            Ok(scores) => scored(input@) == Ok::<ScoresModel, Fault>(scores@),
            Err(e) => scored(input@) == Err::<ScoresModel, Fault>(e@),
        },
{
    match Vector::parse(input) {
        Ok(vector) => Ok(vector.scores()),
        Err(e) => Err(e),
    }
}

} // verus!
