//! Parsing and scoring of CVSS vectors (versions 2.0, 3.0 and 3.1).
//!
//! A vector is read from its text (`Vector::parse`, `V2Vector::parse`,
//! `V3Vector::parse`), written back in canonical form (`to_string`) and
//! scored (`base_score`, `temporal_score`, `environmental_score`). A score has
//! one decimal digit and a severity band.
//!
//! The formulas of the standard are evaluated in binary floating-point
//! arithmetic, each step rounded, and that is what the scores are defined
//! by: the same vector can score 4.7 under version 3.0 and 4.6 under
//! version 3.1. The arithmetic is carried out on integers (module `float`),
//! so that every step is verified.

pub mod bounds;
pub mod codes;
pub mod float;
pub mod format;
pub mod interval;
pub mod metric;
pub mod order;
pub mod parse;
pub mod rounding;
pub mod roundtrip;
pub mod score;
pub mod text;
pub mod v2;
pub mod v3;
pub mod values;
pub mod vector;

pub use crate::float::Float;
pub use crate::parse::ParseError;
pub use crate::score::{Score, Severity};
pub use crate::v2::V2Vector;
pub use crate::v3::{MinorVersion, V3Vector};
pub use crate::values::MetricValue;
pub use crate::vector::{Scores, Vector};
