//! Inverting the statistics: parameters out of a reference stream.
//!
//! Nothing here defaults a parameter it cannot measure: a default in the
//! emitted document is indistinguishable from a measurement.

pub mod document;
pub mod segments;
pub mod partition;
