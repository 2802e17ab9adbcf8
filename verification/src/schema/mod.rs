//! The workload document's plain pieces: the enumerations and string-valued
//! sections a document is made of, the defaults it does not have to state,
//! and the passes that read it (`extends` chains, unit paths, validation
//! findings).
//!
//! There is deliberately no `system:` section: capacities and eviction are
//! properties of whatever consumes a workload, not of the workload.

pub mod extends;
pub mod facts;
pub mod merge;
pub mod normalise;
pub mod validate;

use vstd::prelude::*;

verus! {

/// The measurement window used when `run.wss_window` is not stated.
///
/// Occupancy is sessions per path *per window*, so it scales linearly with
/// this number; one shared default keeps the occupancy floor and the
/// generator from disagreeing about it.
pub const DEFAULT_WSS_WINDOW_REQUESTS: u64 = 240_000;

/// Whether the window came from the document or from the default.
#[derive(Debug, Clone, Copy, PartialEq, Eq, Structural)]
pub enum WindowSource {
    /// Written in the document, as a count.
    Stated,
    /// Written as a duration and converted through the configured rate.
    ConvertedFromDuration,
    /// Not written; [`DEFAULT_WSS_WINDOW_REQUESTS`].
    Defaulted,
}

/// The literal `auto`.
#[derive(Debug, Clone, Copy, PartialEq, Eq, Structural)]
pub enum AutoTag {
    /// Solve for the profile rather than stating one.
    Auto,
}

/// Replacement of shared content over time.
#[derive(Debug, Clone)]
pub struct Churn {
    /// `0` or absent means never: shared content, once minted, exists forever.
    pub half_life: String,
}

/// Open or closed loop.
#[derive(Debug, Clone, Copy, PartialEq, Eq, Structural)]
pub enum ArrivalModel {
    /// Absolute timestamps from a configured rate. The default.
    OpenLoop,
    /// Bounded concurrency, reactive. Arrival depends on system response.
    ClosedLoop,
}

/// The default number of spawn generations: children do not themselves spawn.
pub fn one() -> (r: u32)
    ensures
        r == 1,
{
    1
}

/// Where a spawned child runs.
#[derive(Debug, Clone, Copy, PartialEq, Eq, Structural)]
pub enum SpawnPlacement {
    /// Anywhere but the parent's node. The default, and the point of fan-out.
    OtherNodes,
    /// Uniform over all nodes.
    Any,
    /// The parent's node.
    SameNode,
}

/// Non-stationary root popularity.
///
/// Re-weights **which** shared keys are popular; it never changes **which**
/// shared keys exist — that is `churn`.
#[derive(Debug, Clone)]
pub struct Drift {
    /// `0` (default) is stationary.
    pub half_life: String,
}

/// How a session maps onto nodes.
#[derive(Debug, Clone, Copy, PartialEq, Eq, Structural)]
pub enum Placement {
    /// A session binds to one node at birth, as it binds to one root. The default.
    Sticky,
    /// Each request placed independently. For deliberate comparison only.
    PerRequest,
}

impl Default for Placement {
    fn default() -> (r: Placement)
        ensures
            r == Placement::Sticky,
    {
        Placement::Sticky
    }
}

/// A scheduled node stop or start.
#[derive(Debug, Clone)]
pub struct MembershipEvent {
    /// Absolute plan time.
    pub at: String,
    /// What happens.
    pub action: MembershipAction,
    /// Which node.
    pub node: String,
}

/// Stop or start.
#[derive(Debug, Clone, Copy, PartialEq, Eq, Structural)]
pub enum MembershipAction {
    /// Take the node out.
    Stop,
    /// Bring it back.
    Start,
}

/// The default sweep repeat count.
pub fn eight() -> (r: u32)
    ensures
        r == 8,
{
    8
}

} // verus!
