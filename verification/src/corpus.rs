//! The integer side of the shared key structure: how long a trunk path lives
//! under churn, and where a walk's next split falls.
//!
//! The trie is never materialised. A walk re-derives a session's path from the
//! root every turn, and the only state a node-level trunk process needs rides
//! along with it: "the next split is at this depth, and no run may extend past
//! this cap". So nothing is stored per node and memory stays bounded by the
//! live session population.

use vstd::prelude::*;

verus! {

/// How long a trunk path survives, when churn is configured.
///
/// A depth-`d` path lives only while all `d+1` of its nodes do, so its
/// effective half-life is `half_life/(d+1)`: shallow prefixes are stable and
/// deep ones fragile. `None` without churn.
pub fn path_lifetime_ns(churn_half_life_ns: u64, depth: u32) -> (r: Option<u64>)
    requires
        depth < u32::MAX,
    ensures
        churn_half_life_ns == 0 ==> r is None,
        churn_half_life_ns != 0 ==> r == Some(churn_half_life_ns / ((depth + 1) as u64)),
{
    if churn_half_life_ns == 0 {
        None
    } else {
        Some(churn_half_life_ns / ((depth + 1) as u64))
    }
}

/// How many of the leading entries of `starts` are at most `x`.
pub open spec fn leading_at_most(starts: Seq<u64>, x: u64) -> nat
    decreases starts.len(),
{
    if starts.len() == 0 || starts[0] > x {
        0
    } else {
        1 + leading_at_most(starts.drop_first(), x)
    }
}

/// The band in force at `x`, among bands starting at `starts` in order: the
/// last of the leading bands that start at or before `x`, or the first band
/// when even it starts later.
///
/// With ascending starts this is the last band starting at or before `x`;
/// the scan stops at the first band starting after `x` either way.
pub fn band_at(starts: &[u64], x: u64) -> (r: usize)
    requires
        starts@.len() > 0,
    ensures
        leading_at_most(starts@, x) == 0 ==> r == 0,
        leading_at_most(starts@, x) > 0 ==> r == leading_at_most(starts@, x) - 1,
{
    let mut chosen: usize = 0;
    let mut i: usize = 0;
    while i < starts.len() && starts[i] <= x
        invariant
            i <= starts@.len(),
            forall|j: int| 0 <= j < i ==> starts@[j] <= x,
            i == 0 ==> chosen == 0,
            i > 0 ==> chosen == i - 1,
        decreases starts@.len() - i,
    {
        chosen = i;
        i = i + 1;
    }
    proof {
        lemma_leading_at_most(starts@, x, i as int);
    }
    chosen
}

proof fn lemma_leading_at_most(starts: Seq<u64>, x: u64, i: int)
    requires
        0 <= i <= starts.len(),
        forall|j: int| 0 <= j < i ==> starts[j] <= x,
        i == starts.len() || starts[i] > x,
    ensures
        leading_at_most(starts, x) == i,
    decreases i,
{
    if i > 0 {
        let rest = starts.drop_first();
        assert forall|j: int| 0 <= j < i - 1 implies rest[j] <= x by {
            assert(rest[j] == starts[j + 1]);
        }
        if i - 1 < rest.len() {
            assert(rest[i - 1] == starts[i]);
        }
        lemma_leading_at_most(rest, x, i - 1);
    }
}

/// Where the trunk's next split is, carried down one walk.
#[derive(Debug, Clone, Copy)]
pub struct SplitState {
    /// Depth at which the next split happens.
    next_split_depth: u32,
    /// A cap on how deep a run may extend; `u32::MAX` is no cap.
    path_cap: u32,
}

impl SplitState {
    /// The depth of the next split.
    pub closed spec fn next(&self) -> u32 {
        self.next_split_depth
    }

    /// The cap on how deep a run may extend.
    pub closed spec fn cap(&self) -> u32 {
        self.path_cap
    }

    /// The state a walk starts in at a root.
    ///
    /// `root_run` is the run length the root's own stream draws under a
    /// node-level process, and `None` under a per-depth profile, where every
    /// depth is a potential split. The root is itself a split node, so its run
    /// is what gives each root its own preamble length — capped at `path_cap`.
    pub fn at_root_with(root_run: Option<u32>, path_cap: u32) -> (r: SplitState)
        ensures
            r.cap() == path_cap,
            root_run is None ==> r.next() == 0,
            root_run is Some ==> r.next() == (if root_run->0 < path_cap {
                root_run->0
            } else {
                path_cap
            }),
    {
        match root_run {
            None => SplitState { next_split_depth: 0, path_cap },
            Some(run) => SplitState {
                next_split_depth: if run < path_cap {
                    run
                } else {
                    path_cap
                },
                path_cap,
            },
        }
    }

    /// Re-cap the runs below this point.
    ///
    /// A run is completed by the sessions **still on it**, so the cap follows
    /// the cohort at this depth rather than the root's whole population.
    pub fn set_cap(&mut self, cap: u32)
        ensures
            final(self).cap() == cap,
            final(self).next() == old(self).next(),
    {
        self.path_cap = cap;
    }

    /// The depth at which this walk's next split falls.
    pub fn next_split(&self) -> (r: u32)
        ensures
            r == self.next(),
    {
        self.next_split_depth
    }

    /// Whether `depth` lies inside the current unary run: one child there, and
    /// the cohort walking it is not divided.
    pub fn inside_run(&self, depth: u32) -> (r: bool)
        ensures
            r == (depth < self.next()),
    {
        depth < self.next_split_depth
    }

    /// Record the split taken at `depth`, whose child's run continues `run`
    /// blocks: the next split falls there, saturating, and never past the cap.
    pub fn split_at(&mut self, depth: u32, run: u32)
        ensures
            final(self).cap() == old(self).cap(),
            final(self).next() == (if depth as int + run as int <= u32::MAX {
                if depth + run < old(self).cap() {
                    (depth + run) as u32
                } else {
                    old(self).cap()
                }
            } else {
                old(self).cap()
            }),
    {
        let reach = depth.saturating_add(run);
        self.next_split_depth = if reach < self.path_cap {
            reach
        } else {
            self.path_cap
        };
    }
}

} // verus!
