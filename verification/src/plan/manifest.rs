//! The identity a plan manifest carries, and the format check a reader applies.
//!
//! Two things a manifest must not do. It must not let a decoder guess the
//! record layout: `plan_format` is the only signal of the record width, because
//! the record has no length prefix. And it must not let one kind of identity
//! pass for another: a bounded plan carries a hash over realised events, an
//! unbounded run carries a hash over its parameters, and a report states which.

use vstd::prelude::*;

use crate::plan::digest::PlanDigest;
use crate::text::{decimal, push_decimal};

verus! {

/// The record layout version. Bump on any change to a field's presence, order
/// or width, and refuse a version this build does not implement.
pub const PLAN_FORMAT: u32 = 1;

/// Which kind of identity the artifact carries, as written to JSON.
#[derive(Debug, Clone)]
pub enum Identity {
    /// Hash over the realised events; bounded plans only.
    ContentHash(String),
    /// Hash over normalised YAML + seed + `plan_format`; unbounded runs.
    ParameterHash(String),
}

impl PartialEq for Identity {
    fn eq(&self, other: &Identity) -> (r: bool) {
        match (self, other) {
            (Identity::ContentHash(a), Identity::ContentHash(b)) => a.eq(b),
            (Identity::ParameterHash(a), Identity::ParameterHash(b)) => a.eq(b),
            _ => false,
        }
    }
}

impl vstd::std_specs::cmp::PartialEqSpecImpl for Identity {
    open spec fn obeys_eq_spec() -> bool {
        true
    }

    open spec fn eq_spec(&self, other: &Identity) -> bool {
        match (self, other) {
            (Identity::ContentHash(a), Identity::ContentHash(b)) => a@ == b@,
            (Identity::ParameterHash(a), Identity::ParameterHash(b)) => a@ == b@,
            _ => false,
        }
    }
}

impl Eq for Identity {
}

/// The identity a digest becomes: its kind carried over, its text unchanged.
pub open spec fn identity_of(d: PlanDigest) -> Identity {
    match d {
        PlanDigest::Content(s) => Identity::ContentHash(s),
        PlanDigest::Parameters(s) => Identity::ParameterHash(s),
    }
}

impl From<PlanDigest> for Identity {
    fn from(d: PlanDigest) -> (r: Identity) {
        match d {
            PlanDigest::Content(s) => Identity::ContentHash(s),
            PlanDigest::Parameters(s) => Identity::ParameterHash(s),
        }
    }
}

impl vstd::std_specs::convert::FromSpecImpl<PlanDigest> for Identity {
    open spec fn obeys_from_spec() -> bool {
        true
    }

    open spec fn from_spec(d: PlanDigest) -> Identity {
        identity_of(d)
    }
}

impl Identity {
    /// The digest string carried by either kind.
    pub open spec fn text(&self) -> Seq<char> {
        match self {
            Identity::ContentHash(s) => s@,
            Identity::ParameterHash(s) => s@,
        }
    }

    /// The digest string.
    pub fn digest(&self) -> (r: &str)
        ensures
            r@ == self.text(),
    {
        match self {
            Identity::ContentHash(s) => s.as_str(),
            Identity::ParameterHash(s) => s.as_str(),
        }
    }

    /// A label for reports, so the two kinds are never conflated.
    pub fn label(&self) -> (r: &'static str)
        ensures
            self is ContentHash ==> r@ == "content-hash (bounded plan)"@,
            self is ParameterHash ==> r@ == "parameter-hash (unbounded run)"@,
    {
        match self {
            Identity::ContentHash(_) => "content-hash (bounded plan)",
            Identity::ParameterHash(_) => "parameter-hash (unbounded run)",
        }
    }
}

/// Why a manifest was refused.
#[derive(Debug)]
pub enum ManifestError {
    /// A `plan_format` this build does not implement.
    UnsupportedFormat { found: u32, supported: u32 },
    /// Not valid JSON, or missing a required field.
    Malformed(String),
}

impl PartialEq for ManifestError {
    fn eq(&self, other: &ManifestError) -> (r: bool) {
        match (self, other) {
            (
                ManifestError::UnsupportedFormat { found: a, supported: b },
                ManifestError::UnsupportedFormat { found: c, supported: d },
            ) => *a == *c && *b == *d,
            (ManifestError::Malformed(a), ManifestError::Malformed(b)) => a.eq(b),
            _ => false,
        }
    }
}

impl vstd::std_specs::cmp::PartialEqSpecImpl for ManifestError {
    open spec fn obeys_eq_spec() -> bool {
        true
    }

    open spec fn eq_spec(&self, other: &ManifestError) -> bool {
        match (self, other) {
            (
                ManifestError::UnsupportedFormat { found: a, supported: b },
                ManifestError::UnsupportedFormat { found: c, supported: d },
            ) => a == c && b == d,
            (ManifestError::Malformed(a), ManifestError::Malformed(b)) => a@ == b@,
            _ => false,
        }
    }
}

impl Eq for ManifestError {
}

/// The text of each manifest error.
pub open spec fn manifest_error_text(e: ManifestError) -> Seq<char> {
    match e {
        ManifestError::UnsupportedFormat { found, supported } => "plan_format "@ + decimal(
            found as nat,
        ) + " is not implemented by this build (supports "@ + decimal(supported as nat)
            + "); refusing rather than guessing the record width, which has no length prefix"@,
        ManifestError::Malformed(e) => "malformed manifest: "@ + e@,
    }
}

impl ManifestError {
    /// What is wrong with the manifest.
    pub fn message(&self) -> (r: String)
        ensures
            r@ == manifest_error_text(*self),
    {
        match self {
            ManifestError::UnsupportedFormat { found, supported } => {
                let mut out = String::from_str("plan_format ");
                push_decimal(&mut out, *found as u64);
                out.append(" is not implemented by this build (supports ");
                push_decimal(&mut out, *supported as u64);
                out.append(
                    "); refusing rather than guessing the record width, which has no length prefix",
                );
                out
            },
            ManifestError::Malformed(e) => {
                let mut out = String::from_str("malformed manifest: ");
                out.append(e.as_str());
                out
            },
        }
    }
}

/// Refuse a `plan_format` this build does not implement.
///
/// Applied to a parsed manifest before a single record is decoded, because the
/// record has no length prefix and a guessed width mis-aligns every field
/// silently.
pub fn check_plan_format(found: u32) -> (r: Result<(), ManifestError>)
    ensures
        found == PLAN_FORMAT <==> r is Ok,
        found != PLAN_FORMAT ==> r == Err::<(), ManifestError>(
            ManifestError::UnsupportedFormat { found, supported: PLAN_FORMAT },
        ),
{
    if found != PLAN_FORMAT {
        return Err(ManifestError::UnsupportedFormat { found, supported: PLAN_FORMAT });
    }
    Ok(())
}

} // verus!
