//! The plan artifact: fixed-width event records, digests, identities, and the
//! writer that enforces what the format promises its readers.

pub mod digest;
pub mod emit;
pub mod flags;
pub mod generate;
pub mod manifest;
pub mod reader;
pub mod record;
pub mod writer;

pub use digest::{parameter_hash, PlanDigest, StreamDigest};
pub use emit::{emit_request, request_node, RequestPlan};
pub use generate::{Budget, GenError, Horizon, DEFAULT_HORIZON_EVENTS};
pub use manifest::{Identity, ManifestError, PLAN_FORMAT};
pub use record::{DecodeError, PlanEvent, RECORD_BYTES};
pub use writer::{PlanStats, PlanWriter, WriteError};
