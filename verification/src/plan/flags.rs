//! `flags` bits of a plan record. Bits 4-7 are reserved and MUST be zero.

use vstd::prelude::*;

verus! {

/// First key of a request.
pub const REQUEST_START: u8 = 1;

/// Last key of a request.
pub const REQUEST_END: u8 = 2;

/// Inside the warmup window; excluded from steady-state statistics.
pub const WARMUP: u8 = 4;

/// Warmup deliberately did not pre-request this key.
///
/// **Not** a predicted miss. It states a fact about the trace; whether a
/// consumer misses on it is entirely the consumer's affair.
pub const COLD: u8 = 8;

/// Bits that must be zero on write and are rejected on read.
pub const RESERVED_MASK: u8 = 0xF0;

} // verus!
