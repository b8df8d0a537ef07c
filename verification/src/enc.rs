//! Church encodings: numbers and truth values as terms.

pub mod bool;
pub mod naturals;
