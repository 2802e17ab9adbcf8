//! Counts of adjustments applied to drawn values, reported rather than hidden.
//!
//! Integer-valued draws clamp to the caller's documented domain, and every
//! clamp is **counted** and surfaced in the plan summary rather than silently
//! applied, because a silently clamped parameter is a model that differs from
//! the document describing it.

use vstd::prelude::*;

verus! {

/// Counts of adjustments applied to drawn values.
#[derive(Debug)]
pub struct Clamps {
    /// Draws pulled up or down into the caller's domain.
    pub domain: u64,
    /// Draws from a `normal` truncated at zero for a non-negative field.
    pub normal_truncation: u64,
}

impl Default for Clamps {
    fn default() -> (r: Clamps)
        ensures
            r.domain == 0,
            r.normal_truncation == 0,
    {
        Clamps { domain: 0, normal_truncation: 0 }
    }
}

impl Clamps {
    /// Total number of adjustments recorded.
    pub fn total(&self) -> (r: u64)
        requires
            self.domain + self.normal_truncation <= u64::MAX,
        ensures
            r == self.domain + self.normal_truncation,
    {
        self.domain + self.normal_truncation
    }

    /// Count one draw pulled into the caller's domain (a counter that wraps).
    pub fn count_domain(&mut self)
        ensures
            final(self).domain == vstd::wrapping::u64_specs::wrapping_add(old(self).domain, 1),
            final(self).normal_truncation == old(self).normal_truncation,
    {
        self.domain = self.domain.wrapping_add(1);
    }

    /// Count one `normal` draw truncated at zero (a counter that wraps).
    pub fn count_normal_truncation(&mut self)
        ensures
            final(self).normal_truncation == vstd::wrapping::u64_specs::wrapping_add(
                old(self).normal_truncation,
                1,
            ),
            final(self).domain == old(self).domain,
    {
        self.normal_truncation = self.normal_truncation.wrapping_add(1);
    }
}

} // verus!
