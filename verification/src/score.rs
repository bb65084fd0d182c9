//! Scores of one decimal digit, their severity bands, and the two ways of
//! rounding a computed value up to a tenth.

pub mod tenths;

use crate::bounds::whole;
use crate::float::{ceil, in_binary64, magnitude_le, nearest, product, ratio, Dyadic, Float};
use crate::score::tenths::{lemma_round_up_ceiling_range, lemma_round_up_corrected_range};
use vstd::arithmetic::div_mod::*;
use vstd::prelude::*;

verus! {

/// The qualitative band of a score.
#[derive(Clone, Copy, Debug, PartialEq, Eq, Structural)]
pub enum Severity {
    /// A score of 0.0, which the standard rates "none".
    Nil,
    Low,
    Medium,
    High,
    Critical,
}

/// The band of a score given in tenths: 0 is none, 0.1 to 3.9 low, 4.0 to 6.9
/// medium, 7.0 to 8.9 high, 9.0 to 10.0 critical.
pub open spec fn band(tenths: int) -> Severity {
    if tenths <= 0 {
        Severity::Nil
    } else if tenths < 40 {
        Severity::Low
    } else if tenths < 70 {
        Severity::Medium
    } else if tenths < 90 {
        Severity::High
    } else {
        Severity::Critical
    }
}

impl Severity {
    /// The place of the band among the bands, from 0 for none to 4 for
    /// critical.
    pub open spec fn rank(self) -> int {
        match self {
            Severity::Nil => 0,
            Severity::Low => 1,
            Severity::Medium => 2,
            Severity::High => 3,
            Severity::Critical => 4,
        }
    }
}

/// Each score from 0.0 to 10.0 has the band in whose range it lies.
pub proof fn lemma_bands(tenths: int)
    requires
        0 <= tenths <= 100,
    ensures
        band(tenths) == Severity::Nil <==> tenths == 0,
        band(tenths) == Severity::Low <==> 1 <= tenths <= 39,
        band(tenths) == Severity::Medium <==> 40 <= tenths <= 69,
        band(tenths) == Severity::High <==> 70 <= tenths <= 89,
        band(tenths) == Severity::Critical <==> 90 <= tenths <= 100,
{
}

/// A higher score never has a lower band.
pub proof fn lemma_bands_rise(lower: int, higher: int)
    requires
        lower <= higher,
    ensures
        band(lower).rank() <= band(higher).rank(),
{
}

/// A value rounded up to tenths by the ceiling of its tenfold.
pub open spec fn round_up_ceiling(x: Dyadic) -> int {
    ceil(product(x, ratio(10, 1)))
}

/// A value rounded up to tenths after it was rounded to the nearest hundred
/// thousandth: a value that lies within 0.000005 above a tenth stays there.
pub open spec fn round_up_corrected(x: Dyadic) -> int {
    let i = nearest(product(x, ratio(100000, 1)));
    if i % 10000 == 0 {
        i / 10000
    } else {
        i / 10000 + 1
    }
}

/// The number ten.
pub open spec fn ten() -> Dyadic {
    whole(10, 4)
}

/// Whether a value is small enough to be rounded to tenths in 64 bits.
pub open spec fn roundable(x: Float) -> bool {
    &&& x.moderate()
    &&& x.exp <= 2
}

/// The value in tenths, rounded up by the ceiling of its tenfold.
pub fn round_to_1_decimal(x: Float) -> (t: i64)
    requires
        roundable(x),
    ensures
        t == round_up_ceiling(x@),
        !x.neg && magnitude_le(x@, ten()) ==> 0 <= t <= 100,
{
    proof {
        if !x.neg && magnitude_le(x@, ten()) {
            lemma_round_up_ceiling_range(x@);
        }
    }
    let ten: Float = Float::from_ratio(10, 1);
    x.mul(ten).ceil()
}

/// The value in tenths, rounded up after rounding to the nearest hundred
/// thousandth.
pub fn round_up_to_1_decimal(x: Float) -> (t: i64)
    requires
        roundable(x),
        x.mant != 0 ==> x.exp <= -18,
        !x.neg,
    ensures
        t == round_up_corrected(x@),
        t >= 0,
        magnitude_le(x@, ten()) ==> t <= 100,
{
    proof {
        if magnitude_le(x@, ten()) {
            lemma_round_up_corrected_range(x@);
        }
    }
    let scale: Float = Float::from_ratio(100000, 1);
    let i: i64 = x.mul(scale).nearest();
    if i % 10000 == 0 {
        i / 10000
    } else {
        i / 10000 + 1
    }
}

/// A score from 0.0 to 10.0 with one decimal digit, held in tenths.
#[derive(Clone, Copy, Debug, PartialEq, Eq, Structural)]
pub struct Score {
    tenths: u8,
}

impl View for Score {
    type V = int;

    /// The score in tenths.
    closed spec fn view(&self) -> int {
        self.tenths as int
    }
}

impl Score {
    #[verifier::type_invariant]
    spec fn in_range(&self) -> bool {
        self.tenths <= 100
    }

    /// The score of so many tenths.
    pub(crate) fn of(tenths: u8) -> (r: Score)
        requires
            tenths <= 100,
        ensures
            r@ == tenths,
            0 <= r@ <= 100,
    {
        Score { tenths }
    }

    /// The score of so many tenths, where they are at most 100.
    pub fn from_tenths(tenths: u8) -> (r: Option<Score>)
        ensures
            match r {
                Some(score) => score@ == tenths && tenths <= 100,
                None => tenths > 100,
            },
    {
        if tenths <= 100 {
            Some(Score { tenths })
        } else {
            None
        }
    }

    /// The score in tenths, from 0 to 100.
    pub fn tenths(&self) -> (t: u8)
        ensures
            t == self@,
            t <= 100,
    {
        proof {
            use_type_invariant(self);
        }
        self.tenths
    }

    /// The score as a number: its tenths divided by ten, rounded.
    pub fn value(&self) -> (r: Float)
        ensures
            r@ == ratio(self@ as nat, 10),
            r.within(-85, -47),
            !r.neg,
            in_binary64(r@),
    {
        proof {
            use_type_invariant(self);
        }
        Float::from_ratio(self.tenths as u32, 10)
    }

    /// The severity band of the score.
    pub fn severity(&self) -> (r: Severity)
        ensures
            r == band(self@),
    {
        if self.tenths == 0 {
            Severity::Nil
        } else if self.tenths < 40 {
            Severity::Low
        } else if self.tenths < 70 {
            Severity::Medium
        } else if self.tenths < 90 {
            Severity::High
        } else {
            Severity::Critical
        }
    }
}

} // verus!
