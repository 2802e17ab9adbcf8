//! The shared model beneath a block-reference workload tool suite.
//!
//! A workload is a statistical statement about *which blocks are asked for, by
//! whom, in what order, at what size*. This crate holds the key derivation that
//! turns it into a block reference stream, the plan record codec and writer, and
//! the deterministic randomness every draw derives from.

pub mod rng;
pub mod hashing;
pub mod keys;
pub mod plan;
pub mod corpus;
pub mod dist;
pub mod text;
pub mod fit;
pub mod schema;
