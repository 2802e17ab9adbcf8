//! The prefix trie's segment census.
//!
//! Under `rolling_prefix` identity a block id is a hash over the whole prefix
//! ending at it, so two requests carrying the same id at depth `d` have
//! identical paths `[0..d]`, and the trie a trace walks is determined exactly.
//! The census rebuilds it, one node per distinct key, in parallel arrays
//! indexed by a dense node id handed out in order of first appearance.
//!
//! A node's cohort is counted with a last-seen marker rather than a set per
//! node, which is exact only if all of one session's paths arrive together:
//! the caller must group by session.

use vstd::prelude::*;

use std::collections::HashMap;

use crate::keys::{CacheKey, SessionId};

verus! {

broadcast use vstd::std_specs::hash::group_hash_axioms;

/// No parent: this node is a root.
pub const NO_PARENT: u32 = 0xFFFF_FFFF;

/// The trie as the census holds it, indexed by node id.
pub struct TrieModel {
    /// Node id of each key seen, by the key's value.
    pub index: Map<u64, u32>,
    /// Each node's parent, or [`NO_PARENT`] for a root.
    pub parent: Seq<u32>,
    /// The depth at which each node was first seen.
    pub depth: Seq<u32>,
    /// Distinct sessions that walked each node.
    pub sessions: Seq<u32>,
    /// The last session to walk each node.
    pub last_session: Seq<u32>,
    /// Keys seen at a second depth or under a second parent.
    pub violations: u64,
}

/// What one key at depth `d` under `parent`, walked by `session`, does to the
/// trie, and the node it lands on.
///
/// A key seen before is checked against where it was first seen, and its
/// cohort grows by one when a new session reaches it (saturating). A new key
/// becomes the next node id.
pub open spec fn visit(t: TrieModel, session: u32, parent: u32, d: u32, key: u64) -> (TrieModel, u32) {
    if t.index.contains_key(key) {
        let n = t.index[key] as int;
        let bad = t.depth[n] != d || t.parent[n] != parent;
        let fresh = t.last_session[n] != session;
        (
            TrieModel {
                violations: if bad {
                    (t.violations + 1) as u64
                } else {
                    t.violations
                },
                last_session: if fresh {
                    t.last_session.update(n, session)
                } else {
                    t.last_session
                },
                sessions: if fresh {
                    t.sessions.update(
                        n,
                        if t.sessions[n] < u32::MAX {
                            (t.sessions[n] + 1) as u32
                        } else {
                            t.sessions[n]
                        },
                    )
                } else {
                    t.sessions
                },
                ..t
            },
            n as u32,
        )
    } else {
        let n = t.parent.len() as u32;
        (
            TrieModel {
                index: t.index.insert(key, n),
                parent: t.parent.push(parent),
                depth: t.depth.push(d),
                sessions: t.sessions.push(1),
                last_session: t.last_session.push(session),
                ..t
            },
            n,
        )
    }
}

/// The trie after `session` walks `rest`, the first key of which sits at
/// depth `d` below `parent`.
pub open spec fn walk(t: TrieModel, session: u32, parent: u32, d: u32, rest: Seq<u64>) -> TrieModel
    decreases rest.len(),
{
    if rest.len() == 0 {
        t
    } else {
        let (t1, node) = visit(t, session, parent, d, rest[0]);
        walk(t1, session, node, (d + 1) as u32, rest.drop_first())
    }
}

/// The key values along a path.
pub open spec fn key_values(path: Seq<CacheKey>) -> Seq<u64> {
    path.map_values(|k: CacheKey| k.0)
}


/// Children of `p` among nodes `0..k`.
pub open spec fn child_count(parent: Seq<u32>, p: int, k: int) -> nat
    decreases k,
{
    if k <= 0 {
        0
    } else {
        child_count(parent, p, k - 1) + if parent[k - 1] as int == p {
            1nat
        } else {
            0nat
        }
    }
}

/// The first child of `p` at or after `from`, or [`NO_PARENT`] when there is none.
pub open spec fn next_child(parent: Seq<u32>, p: int, from: int) -> u32
    decreases parent.len() - from,
{
    if from >= parent.len() {
        NO_PARENT
    } else if parent[from] as int == p {
        from as u32
    } else {
        next_child(parent, p, from + 1)
    }
}

/// `w` of each child's cohort, summed over the children of `p` among nodes `0..k`.
pub open spec fn children_total(
    parent: Seq<u32>,
    sessions: Seq<u32>,
    p: int,
    k: int,
    w: spec_fn(u32) -> nat,
) -> nat
    decreases k,
{
    if k <= 0 {
        0
    } else {
        children_total(parent, sessions, p, k - 1, w) + if parent[k - 1] as int == p {
            w(sessions[k - 1])
        } else {
            0nat
        }
    }
}

/// The largest cohort of at least `min` among the children of `p` in nodes
/// `0..k`, or 0.
pub open spec fn top_shared(parent: Seq<u32>, sessions: Seq<u32>, p: int, min: u32, k: int) -> u32
    decreases k,
{
    if k <= 0 {
        0
    } else {
        let prev = top_shared(parent, sessions, p, min, k - 1);
        if parent[k - 1] as int == p && sessions[k - 1] >= min && sessions[k - 1] > prev {
            sessions[k - 1]
        } else {
            prev
        }
    }
}

/// A child's cohort.
pub open spec fn fan_in() -> spec_fn(u32) -> nat {
    |f: u32| f as nat
}

/// A child's cohort, squared.
pub open spec fn fan_in_sq() -> spec_fn(u32) -> nat {
    |f: u32| (f * f) as nat
}

/// One for a child at least `min` sessions reached.
pub open spec fn shared_one(min: u32) -> spec_fn(u32) -> nat {
    |f: u32| if f >= min { 1nat } else { 0nat }
}

/// A shared child's cohort.
pub open spec fn shared_fan_in(min: u32) -> spec_fn(u32) -> nat {
    |f: u32| if f >= min { f as nat } else { 0nat }
}

/// A shared child's cohort, squared.
pub open spec fn shared_fan_in_sq(min: u32) -> spec_fn(u32) -> nat {
    |f: u32| if f >= min { (f * f) as nat } else { 0nat }
}

/// Follow a unary run down from `cur`: the node that ends it, the steps
/// taken, and what ended it.
///
/// The run continues into the only child while that child carries the same
/// cohort; it ends at a leaf, at a node with several children, or where the
/// cohort shrinks.
pub open spec fn seg_tail(parent: Seq<u32>, sessions: Seq<u32>, cur: int) -> (int, nat, SegmentEnd)
    decreases parent.len() - cur,
{
    let n = parent.len() as int;
    let c = child_count(parent, cur, n);
    if c == 0 {
        (cur, 0, SegmentEnd::Leaf)
    } else if c > 1 {
        (cur, 0, SegmentEnd::Fanout)
    } else {
        let child = next_child(parent, cur, cur + 1) as int;
        if !(cur < child < n) || sessions[child] != sessions[cur] {
            (cur, 0, SegmentEnd::Attrition)
        } else {
            let r = seg_tail(parent, sessions, child);
            (r.0, r.1 + 1, r.2)
        }
    }
}

/// Whether `node` continues its parent's segment: the parent has exactly one
/// child and the cohort did not change across the step.
pub open spec fn continues_parent(t: TrieModel, node: int) -> bool {
    let p = t.parent[node];
    &&& p != NO_PARENT
    &&& child_count(t.parent, p as int, t.parent.len() as int) == 1
    &&& t.sessions[p as int] == t.sessions[node]
}

/// The segment that starts at `node`, and the split that ends it.
pub open spec fn segment_row(t: TrieModel, node: int, min: u32) -> SegmentRow {
    let n = t.parent.len() as int;
    let tail = seg_tail(t.parent, t.sessions, node);
    let end = tail.0;
    let split = tail.2 == SegmentEnd::Fanout;
    SegmentRow {
        start_depth: t.depth[node],
        length: (tail.1 + 1) as u32,
        fan_in: t.sessions[node],
        ends: tail.2,
        out_degree: child_count(t.parent, end, n) as u32,
        shared_children: if split {
            children_total(t.parent, t.sessions, end, n, shared_one(min)) as u32
        } else {
            0
        },
        child_fan_in_sum: if split {
            children_total(t.parent, t.sessions, end, n, fan_in()) as u64
        } else {
            0
        },
        shared_fan_in_sum: if split {
            children_total(t.parent, t.sessions, end, n, shared_fan_in(min)) as u64
        } else {
            0
        },
        child_fan_in_sq: if split {
            children_total(t.parent, t.sessions, end, n, shared_fan_in_sq(min)) as u128
        } else {
            0
        },
        child_fan_in_sq_all: if split {
            children_total(t.parent, t.sessions, end, n, fan_in_sq()) as u128
        } else {
            0
        },
        top_child_fan_in: if split {
            top_shared(t.parent, t.sessions, end, min, n)
        } else {
            0
        },
    }
}

/// The segments starting among nodes `0..k` whose cohort is at least `min`,
/// in node order.
pub open spec fn segment_rows(t: TrieModel, min: u32, k: int) -> Seq<SegmentRow>
    decreases k,
{
    if k <= 0 {
        Seq::empty()
    } else {
        let prev = segment_rows(t, min, k - 1);
        if !continues_parent(t, k - 1) && t.sessions[k - 1] >= min {
            prev.push(segment_row(t, k - 1, min))
        } else {
            prev
        }
    }
}

/// One segment of the trie: a maximal unary run one cohort walks together.
///
/// The squared cohort sums are exact integers; a ratio built from them is a
/// reader's business.
#[derive(Debug, Clone, Copy, PartialEq, Eq, Structural)]
pub struct SegmentRow {
    /// Depth of the segment's first node.
    pub start_depth: u32,
    /// Nodes in the unary run.
    pub length: u32,
    /// Distinct sessions walking it — the cohort.
    pub fan_in: u32,
    /// What ended it.
    pub ends: SegmentEnd,
    /// Children at the ending node, **including single-session ones**.
    pub out_degree: u32,
    /// Children at least `min_sessions` sessions reached.
    pub shared_children: u32,
    /// Summed fan-in over **all** children.
    pub child_fan_in_sum: u64,
    /// Summed fan-in over the **shared** children only.
    pub shared_fan_in_sum: u64,
    /// Summed squared fan-in over shared children.
    pub child_fan_in_sq: u128,
    /// Summed squared fan-in over **all** children.
    pub child_fan_in_sq_all: u128,
    /// The most-taken shared child's fan-in.
    pub top_child_fan_in: u32,
}


/// Every parent is an older node.
pub open spec fn parents_precede(parent: Seq<u32>) -> bool {
    forall|i: int| 0 <= i < parent.len() ==> #[trigger] parent[i] == NO_PARENT || parent[i] < i
}

pub(crate) proof fn lemma_child_count_le(parent: Seq<u32>, p: int, k: int)
    requires
        0 <= k,
    ensures
        child_count(parent, p, k) <= k,
    decreases k,
{
    if k > 0 {
        lemma_child_count_le(parent, p, k - 1);
    }
}

proof fn lemma_children_total_le(
    parent: Seq<u32>,
    sessions: Seq<u32>,
    p: int,
    k: int,
    w: spec_fn(u32) -> nat,
    b: nat,
)
    requires
        0 <= k,
        forall|f: u32| #[trigger] w(f) <= b,
    ensures
        children_total(parent, sessions, p, k, w) <= k * b,
    decreases k,
{
    if k > 0 {
        lemma_children_total_le(parent, sessions, p, k - 1, w, b);
        assert(w(sessions[k - 1]) <= b);
        assert((k - 1) * b + b == k * b) by (nonlinear_arith);
    }
}

/// The first child of `p` at or after `from`, or the node count when there is none.
pub open spec fn child_or_end(parent: Seq<u32>, p: int, from: int) -> int {
    let j = next_child(parent, p, from);
    if j == NO_PARENT {
        parent.len() as int
    } else {
        j as int
    }
}

/// Between `from` and the next child of `p` nothing changes: no child is
/// counted, summed or ranked there.
pub(crate) proof fn lemma_next_child(parent: Seq<u32>, sessions: Seq<u32>, p: int, from: int)
    requires
        0 <= from <= parent.len(),
        parent.len() < u32::MAX,
    ensures
        next_child(parent, p, from) == NO_PARENT || (from <= next_child(parent, p, from)
            < parent.len() && parent[next_child(parent, p, from) as int] as int == p),
        from <= child_or_end(parent, p, from) <= parent.len(),
        child_count(parent, p, child_or_end(parent, p, from)) == child_count(parent, p, from),
        forall|w: spec_fn(u32) -> nat| #[trigger]
            children_total(parent, sessions, p, child_or_end(parent, p, from), w)
                == children_total(parent, sessions, p, from, w),
        forall|min: u32| #[trigger]
            top_shared(parent, sessions, p, min, child_or_end(parent, p, from)) == top_shared(
                parent,
                sessions,
                p,
                min,
                from,
            ),
    decreases parent.len() - from,
{
    if from < parent.len() && parent[from] as int != p {
        lemma_next_child(parent, sessions, p, from + 1);
        let to = child_or_end(parent, p, from);
        assert(to == child_or_end(parent, p, from + 1));
        assert forall|w: spec_fn(u32) -> nat| #[trigger]
            children_total(parent, sessions, p, to, w) == children_total(
                parent,
                sessions,
                p,
                from,
                w,
            ) by {
            assert(children_total(parent, sessions, p, to, w) == children_total(
                parent,
                sessions,
                p,
                from + 1,
                w,
            ));
        }
        assert forall|min: u32| #[trigger]
            top_shared(parent, sessions, p, min, to) == top_shared(parent, sessions, p, min, from) by {
            assert(top_shared(parent, sessions, p, min, to) == top_shared(
                parent,
                sessions,
                p,
                min,
                from + 1,
            ));
        }
    }
}

/// No node up to `q` is a child of `q`.
pub(crate) proof fn lemma_no_early_child(parent: Seq<u32>, q: int, from: int)
    requires
        parents_precede(parent),
        parent.len() < u32::MAX,
        0 <= q < parent.len(),
        0 <= from <= q + 1,
    ensures
        next_child(parent, q, from) == next_child(parent, q, q + 1),
        child_count(parent, q, from) == 0,
    decreases q + 1 - from,
{
    if from < q + 1 {
        assert(parent[from] == NO_PARENT || parent[from] < from);
        lemma_no_early_child(parent, q, from + 1);
    }
    if from > 0 {
        lemma_no_early_child_count(parent, q, from);
    }
}

pub(crate) proof fn lemma_no_early_child_count(parent: Seq<u32>, q: int, k: int)
    requires
        parents_precede(parent),
        parent.len() < u32::MAX,
        0 <= q < parent.len(),
        0 <= k <= q + 1,
    ensures
        child_count(parent, q, k) == 0,
    decreases k,
{
    if k > 0 {
        assert(parent[k - 1] == NO_PARENT || parent[k - 1] < k - 1);
        lemma_no_early_child_count(parent, q, k - 1);
    }
}

/// The trie under construction, in parallel arrays indexed by a dense node id.
#[derive(Debug)]
pub struct Census {
    index: HashMap<u64, u32>,
    parent: Vec<u32>,
    depth: Vec<u32>,
    sessions: Vec<u32>,
    last_session: Vec<u32>,
    /// Keys seen at two different depths or under two different parents.
    ///
    /// Impossible under `rolling_prefix`, so a non-zero count means the trace
    /// contradicts its own manifest. Counted rather than repaired.
    violations: u64,
}

impl View for Census {
    type V = TrieModel;

    closed spec fn view(&self) -> TrieModel {
        TrieModel {
            index: self.index@,
            parent: self.parent@,
            depth: self.depth@,
            sessions: self.sessions@,
            last_session: self.last_session@,
            violations: self.violations,
        }
    }
}

/// A trie whose arrays agree: one entry per node, every key naming a node,
/// distinct keys naming distinct nodes, a parent always older than its
/// child, and every node walked by at least one session.
pub open spec fn trie_wf(t: TrieModel) -> bool {
    let n = t.parent.len();
    &&& t.depth.len() == n
    &&& t.sessions.len() == n
    &&& t.last_session.len() == n
    &&& n < u32::MAX
    &&& forall|k: u64| #[trigger] t.index.contains_key(k) ==> t.index[k] < n
    &&& forall|k1: u64, k2: u64|
        #![trigger t.index[k1], t.index[k2]]
        t.index.contains_key(k1) && t.index.contains_key(k2) && t.index[k1] == t.index[k2] ==> k1
            == k2
    &&& forall|i: int| 0 <= i < n ==> #[trigger] t.parent[i] == NO_PARENT || t.parent[i] < i
    &&& forall|i: int| 0 <= i < n ==> #[trigger] t.sessions[i] >= 1
}

/// The trie before anything is walked.
pub open spec fn empty_trie() -> TrieModel {
    TrieModel {
        index: Map::empty(),
        parent: Seq::empty(),
        depth: Seq::empty(),
        sessions: Seq::empty(),
        last_session: Seq::empty(),
        violations: 0,
    }
}

/// Walking a key visits an existing node or the next new one.
proof fn lemma_visit_wf(t: TrieModel, session: u32, parent: u32, d: u32, key: u64)
    requires
        trie_wf(t),
        parent == NO_PARENT || parent < t.parent.len(),
        t.parent.len() + 1 < u32::MAX,
    ensures
        trie_wf(visit(t, session, parent, d, key).0),
        visit(t, session, parent, d, key).1 < visit(t, session, parent, d, key).0.parent.len(),
        visit(t, session, parent, d, key).0.parent.len() <= t.parent.len() + 1,
        visit(t, session, parent, d, key).0.violations <= t.violations + 1,
{
    let (t1, node) = visit(t, session, parent, d, key);
    if !t.index.contains_key(key) {
        let n = t.parent.len() as u32;
        assert forall|k1: u64, k2: u64|
            #![trigger t1.index[k1], t1.index[k2]]
            t1.index.contains_key(k1) && t1.index.contains_key(k2) && t1.index[k1] == t1.index[k2]
                implies k1 == k2 by {
            if k1 != key && k2 != key {
                assert(t.index[k1] == t.index[k2]);
            } else if k1 == key && k2 != key {
                assert(t.index[k2] < n);
            } else if k2 == key && k1 != key {
                assert(t.index[k1] < n);
            }
        }
        assert forall|i: int| 0 <= i < t1.parent.len() implies #[trigger] t1.parent[i] == NO_PARENT
            || t1.parent[i] < i by {
            if i < t.parent.len() {
                assert(t1.parent[i] == t.parent[i]);
            }
        }
    }
}



/// Two tries that agree on everything but the violation count.
pub open spec fn same_cohorts(a: TrieModel, b: TrieModel) -> bool {
    &&& a.index == b.index
    &&& a.parent == b.parent
    &&& a.depth == b.depth
    &&& a.sessions == b.sessions
    &&& a.last_session == b.last_session
}

/// Whether every key of `keys` names a node `session` was the last to walk.
pub open spec fn walked_last_by(t: TrieModel, session: u32, keys: Seq<u64>) -> bool {
    forall|k: u64|
        #[trigger] keys.contains(k) ==> t.index.contains_key(k) && t.last_session[t.index[k] as int]
            == session
}

proof fn lemma_walk_marks(t: TrieModel, session: u32, parent: u32, d: u32, seen: Seq<u64>, rest: Seq<u64>)
    requires
        trie_wf(t),
        parent == NO_PARENT || parent < t.parent.len(),
        t.parent.len() + rest.len() < u32::MAX,
        walked_last_by(t, session, seen),
    ensures
        trie_wf(walk(t, session, parent, d, rest)),
        walked_last_by(walk(t, session, parent, d, rest), session, seen + rest),
    decreases rest.len(),
{
    if rest.len() == 0 {
        assert(seen + rest =~= seen);
    } else {
        let key = rest[0];
        let (t1, node) = visit(t, session, parent, d, key);
        lemma_visit_wf(t, session, parent, d, key);
        let seen1 = seen.push(key);
        assert(t1.index.contains_key(key) && t1.index[key] == node);
        assert(t1.last_session[node as int] == session);
        assert forall|k: u64| #[trigger] seen1.contains(k) implies t1.index.contains_key(k)
            && t1.last_session[t1.index[k] as int] == session by {
            if k != key {
                let i = choose|i: int| 0 <= i < seen1.len() && seen1[i] == k;
                assert(seen[i] == k);
                assert(seen.contains(k));
                assert(t.index.contains_key(k));
                assert(t1.index[k] == t.index[k]);
            }
        }
        lemma_walk_marks(t1, session, node, (d + 1) as u32, seen1, rest.drop_first());
        assert(seen1 + rest.drop_first() =~= seen + rest);
    }
}

proof fn lemma_rewalk(t: TrieModel, session: u32, parent: u32, d: u32, rest: Seq<u64>)
    requires
        trie_wf(t),
        walked_last_by(t, session, rest),
    ensures
        same_cohorts(walk(t, session, parent, d, rest), t),
    decreases rest.len(),
{
    if rest.len() > 0 {
        let key = rest[0];
        assert(rest.contains(key));
        let (t1, node) = visit(t, session, parent, d, key);
        assert(t1.last_session =~= t.last_session);
        assert(t1.sessions =~= t.sessions);
        assert forall|k: u64| #[trigger] rest.drop_first().contains(k) implies t1.index.contains_key(k)
            && t1.last_session[t1.index[k] as int] == session by {
            let i = choose|i: int| 0 <= i < rest.drop_first().len() && rest.drop_first()[i] == k;
            assert(rest[i + 1] == k);
            assert(rest.contains(k));
        }
        lemma_rewalk(t1, session, node, (d + 1) as u32, rest.drop_first());
    }
}

proof fn lemma_top_shared(parent: Seq<u32>, sessions: Seq<u32>, p: int, min: u32, k: int)
    requires
        k <= parent.len(),
        k <= sessions.len(),
    ensures
        forall|c: int|
            0 <= c < k && parent[c] as int == p && sessions[c] >= min ==> #[trigger] sessions[c]
                <= top_shared(parent, sessions, p, min, k),
        top_shared(parent, sessions, p, min, k) == 0 || exists|c: int|
            0 <= c < k && parent[c] as int == p && sessions[c] >= min && #[trigger] sessions[c]
                == top_shared(parent, sessions, p, min, k),
    decreases k,
{
    if k > 0 {
        lemma_top_shared(parent, sessions, p, min, k - 1);
    }
}

/// A split's most-taken shared child: for a segment that ends in a split,
/// `top_child_fan_in` is at least the cohort of every child of the ending
/// node that `min` or more sessions reached, and is one of those cohorts — or
/// 0 when no child was reached that often.
pub proof fn law_the_top_child_is_the_most_taken(t: TrieModel, node: int, min: u32)
    requires
        trie_wf(t),
    ensures
        ({
            let row = segment_row(t, node, min);
            let end = seg_tail(t.parent, t.sessions, node).0;
            row.ends == SegmentEnd::Fanout ==> {
                &&& forall|c: int|
                    0 <= c < t.parent.len() && t.parent[c] as int == end && t.sessions[c] >= min
                        ==> #[trigger] t.sessions[c] <= row.top_child_fan_in
                &&& (row.top_child_fan_in == 0 || exists|c: int|
                    0 <= c < t.parent.len() && t.parent[c] as int == end && t.sessions[c] >= min
                        && #[trigger] t.sessions[c] == row.top_child_fan_in)
            }
        }),
{
    let end = seg_tail(t.parent, t.sessions, node).0;
    lemma_top_shared(t.parent, t.sessions, end, min, t.parent.len() as int);
}

proof fn lemma_seg_tail_fanout(parent: Seq<u32>, sessions: Seq<u32>, cur: int)
    ensures
        seg_tail(parent, sessions, cur).2 == SegmentEnd::Fanout ==> child_count(
            parent,
            seg_tail(parent, sessions, cur).0,
            parent.len() as int,
        ) > 1,
    decreases parent.len() - cur,
{
    let n = parent.len() as int;
    let c = child_count(parent, cur, n);
    if c == 1 {
        let child = next_child(parent, cur, cur + 1) as int;
        if cur < child < n && sessions[child] == sessions[cur] {
            lemma_seg_tail_fanout(parent, sessions, child);
        }
    }
}

proof fn lemma_children_total_mono(
    parent: Seq<u32>,
    sessions: Seq<u32>,
    p: int,
    k: int,
    w1: spec_fn(u32) -> nat,
    w2: spec_fn(u32) -> nat,
)
    requires
        forall|f: u32| #[trigger] w1(f) <= w2(f),
    ensures
        children_total(parent, sessions, p, k, w1) <= children_total(parent, sessions, p, k, w2),
    decreases k,
{
    if k > 0 {
        lemma_children_total_mono(parent, sessions, p, k - 1, w1, w2);
        assert(w1(sessions[k - 1]) <= w2(sessions[k - 1]));
    }
}

proof fn lemma_shared_count_le(parent: Seq<u32>, sessions: Seq<u32>, p: int, k: int, min: u32)
    ensures
        children_total(parent, sessions, p, k, shared_one(min)) <= child_count(parent, p, k),
    decreases k,
{
    if k > 0 {
        lemma_shared_count_le(parent, sessions, p, k - 1, min);
    }
}

proof fn lemma_fan_in_covers_children(parent: Seq<u32>, sessions: Seq<u32>, p: int, k: int)
    requires
        k <= sessions.len(),
        forall|c: int| 0 <= c < k ==> #[trigger] sessions[c] >= 1,
    ensures
        child_count(parent, p, k) <= children_total(parent, sessions, p, k, fan_in()),
    decreases k,
{
    if k > 0 {
        lemma_fan_in_covers_children(parent, sessions, p, k - 1);
        assert(sessions[k - 1] >= 1);
    }
}

proof fn lemma_child_in_total(parent: Seq<u32>, sessions: Seq<u32>, p: int, k: int, c: int, w: spec_fn(u32) -> nat)
    requires
        0 <= c < k,
        parent[c] as int == p,
    ensures
        w(sessions[c]) <= children_total(parent, sessions, p, k, w),
    decreases k,
{
    if c < k - 1 {
        lemma_child_in_total(parent, sessions, p, k - 1, c, w);
    }
}

/// The statistics of a split agree with one another: a split has at least two
/// children, every one of them walked by some session; the shared children
/// are among them and their cohorts among theirs; and the most-taken shared
/// child's cohort is part of the shared total.
pub proof fn law_split_statistics_are_consistent(t: TrieModel, node: int, min: u32)
    requires
        trie_wf(t),
    ensures
        ({
            let row = segment_row(t, node, min);
            row.ends == SegmentEnd::Fanout ==> {
                &&& row.out_degree >= 2
                &&& row.shared_children <= row.out_degree
                &&& row.out_degree <= row.child_fan_in_sum
                &&& row.shared_fan_in_sum <= row.child_fan_in_sum
                &&& row.top_child_fan_in <= row.shared_fan_in_sum
            }
        }),
{
    let n = t.parent.len() as int;
    let tail = seg_tail(t.parent, t.sessions, node);
    let end = tail.0;
    if tail.2 == SegmentEnd::Fanout {
        lemma_seg_tail_fanout(t.parent, t.sessions, node);
        lemma_child_count_le(t.parent, end, n);
        lemma_shared_count_le(t.parent, t.sessions, end, n, min);
        lemma_fan_in_covers_children(t.parent, t.sessions, end, n);
        lemma_children_total_le(t.parent, t.sessions, end, n, fan_in(), u32::MAX as nat);
        lemma_children_total_le(t.parent, t.sessions, end, n, shared_fan_in(min), u32::MAX as nat);
        lemma_children_total_mono(t.parent, t.sessions, end, n, shared_fan_in(min), fan_in());
        assert(n * (u32::MAX as nat) <= u64::MAX) by (nonlinear_arith)
            requires
                0 <= n < u32::MAX,
        ;
        lemma_top_shared(t.parent, t.sessions, end, min, n);
        let top = top_shared(t.parent, t.sessions, end, min, n);
        if top != 0 {
            let c = choose|c: int|
                0 <= c < n && t.parent[c] as int == end && t.sessions[c] >= min && #[trigger] t.sessions[c]
                    == top;
            lemma_child_in_total(t.parent, t.sessions, end, n, c, shared_fan_in(min));
        }
    }
}

/// Each reported segment is the segment of a node that starts one: a node
/// that does not continue its parent's run and that at least `min` sessions
/// walked.
pub proof fn law_each_row_is_a_segment_start(t: TrieModel, min: u32, k: int)
    ensures
        forall|i: int|
            0 <= i < segment_rows(t, min, k).len() ==> exists|s: int|
                0 <= s < k && !continues_parent(t, s) && t.sessions[s] >= min
                    && #[trigger] segment_rows(t, min, k)[i] == segment_row(t, s, min),
    decreases k,
{
    if k > 0 {
        law_each_row_is_a_segment_start(t, min, k - 1);
        let prev = segment_rows(t, min, k - 1);
        let rows = segment_rows(t, min, k);
        assert forall|i: int| 0 <= i < rows.len() implies exists|s: int|
            0 <= s < k && !continues_parent(t, s) && t.sessions[s] >= min && #[trigger] rows[i]
                == segment_row(t, s, min) by {
            if i < prev.len() {
                assert(rows[i] == prev[i]);
                let s = choose|s: int|
                    0 <= s < k - 1 && !continues_parent(t, s) && t.sessions[s] >= min
                        && #[trigger] prev[i] == segment_row(t, s, min);
                assert(rows[i] == segment_row(t, s, min));
            } else {
                assert(rows[i] == segment_row(t, k - 1, min));
            }
        }
    }
}

/// Every split the census reports names its most-taken shared child: the
/// row's `top_child_fan_in` is at least the cohort of each child of the split
/// that `min` or more sessions reached, and is one of them (0 when none was).
pub proof fn law_every_reported_split_names_its_most_taken_child(t: TrieModel, min: u32)
    requires
        trie_wf(t),
    ensures
        forall|i: int|
            0 <= i < segment_rows(t, min, t.parent.len() as int).len() && (#[trigger] segment_rows(
                t,
                min,
                t.parent.len() as int,
            )[i]).ends == SegmentEnd::Fanout ==> exists|s: int|
                0 <= s < t.parent.len() && segment_rows(t, min, t.parent.len() as int)[i]
                    == segment_row(t, s, min) && (forall|c: int|
                    0 <= c < t.parent.len() && t.parent[c] as int == seg_tail(t.parent, t.sessions, s).0
                        && t.sessions[c] >= min ==> #[trigger] t.sessions[c]
                        <= segment_rows(t, min, t.parent.len() as int)[i].top_child_fan_in),
{
    let n = t.parent.len() as int;
    law_each_row_is_a_segment_start(t, min, n);
    let rows = segment_rows(t, min, n);
    assert forall|i: int| 0 <= i < rows.len() && (#[trigger] rows[i]).ends == SegmentEnd::Fanout implies exists|s: int|
        0 <= s < n && rows[i] == segment_row(t, s, min) && (forall|c: int|
            0 <= c < n && t.parent[c] as int == seg_tail(t.parent, t.sessions, s).0 && t.sessions[c]
                >= min ==> #[trigger] t.sessions[c] <= rows[i].top_child_fan_in) by {
        let s = choose|s: int|
            0 <= s < n && !continues_parent(t, s) && t.sessions[s] >= min && #[trigger] rows[i]
                == segment_row(t, s, min);
        law_the_top_child_is_the_most_taken(t, s, min);
    }
}

/// A key is a violation exactly when it is seen again somewhere it was not
/// first seen: at another depth, or under another parent. Walking one key
/// already in the trie adds one violation when either differs and none when
/// both agree; a key not yet in the trie adds none.
pub proof fn law_a_key_seen_elsewhere_is_a_violation(t: TrieModel, session: u32, parent: u32, d: u32, k: u64)
    requires
        t.violations < u64::MAX,
    ensures
        t.index.contains_key(k) && t.parent[t.index[k] as int] != parent ==> walk(
            t,
            session,
            parent,
            d,
            seq![k],
        ).violations == t.violations + 1,
        t.index.contains_key(k) && t.depth[t.index[k] as int] != d ==> walk(
            t,
            session,
            parent,
            d,
            seq![k],
        ).violations == t.violations + 1,
        t.index.contains_key(k) && t.depth[t.index[k] as int] == d && t.parent[t.index[k] as int]
            == parent ==> walk(t, session, parent, d, seq![k]).violations == t.violations,
        !t.index.contains_key(k) ==> walk(t, session, parent, d, seq![k]).violations == t.violations,
{
    let rest = seq![k];
    assert(rest.drop_first() =~= Seq::<u64>::empty());
    let (t1, node) = visit(t, session, parent, d, k);
    assert(walk(t, session, parent, d, rest) == walk(t1, session, node, (d + 1) as u32, rest.drop_first()));
}

/// Walking a path adds exactly one node per distinct key the trie had not
/// seen — however often the path repeats it — and afterwards every key of the
/// path is known.
pub proof fn law_a_walk_adds_a_node_per_new_key(t: TrieModel, session: u32, parent: u32, d: u32, rest: Seq<u64>)
    ensures
        walk(t, session, parent, d, rest).index.dom() == t.index.dom() + rest.to_set(),
        walk(t, session, parent, d, rest).parent.len() == t.parent.len() + (rest.to_set()
            - t.index.dom()).len(),
    decreases rest.len(),
{
    broadcast use vstd::seq_lib::group_seq_properties, vstd::set_lib::group_set_lib_default;

    if rest.len() == 0 {
        assert(rest.to_set() =~= Set::<u64>::empty());
        assert(t.index.dom() + rest.to_set() =~= t.index.dom());
        assert(rest.to_set() - t.index.dom() =~= Set::<u64>::empty());
    } else {
        let x = rest[0];
        let tail = rest.drop_first();
        let (t1, node) = visit(t, session, parent, d, x);
        law_a_walk_adds_a_node_per_new_key(t1, session, node, (d + 1) as u32, tail);
        assert(rest =~= seq![x] + tail);
        assert(rest.to_set() =~= tail.to_set().insert(x)) by {
            assert forall|k: u64| rest.to_set().contains(k) <==> tail.to_set().insert(x).contains(k) by {
                if rest.to_set().contains(k) {
                    let i = choose|i: int| 0 <= i < rest.len() && rest[i] == k;
                    if i > 0 {
                        assert(tail[i - 1] == k);
                    }
                }
                if tail.to_set().contains(k) {
                    let i = choose|i: int| 0 <= i < tail.len() && tail[i] == k;
                    assert(rest[i + 1] == k);
                }
                if k == x {
                    assert(rest[0] == k);
                }
            }
        }
        assert(t1.index.dom() =~= t.index.dom().insert(x));
        assert(t.index.dom() + rest.to_set() =~= t1.index.dom() + tail.to_set());
        let d0 = t.index.dom();
        let d1 = t1.index.dom();
        let fresh = tail.to_set() - d1;
        assert(fresh.finite()) by {
            vstd::set_lib::lemma_len_subset(fresh, tail.to_set());
        }
        if d0.contains(x) {
            assert(rest.to_set() - d0 =~= fresh);
        } else {
            assert(rest.to_set() - d0 =~= fresh.insert(x));
            assert(!fresh.contains(x));
        }
    }
}

/// How many positions of `rest`, walked from depth `d` below `parent`, name a
/// key already in the trie — seen in an earlier walk or earlier on this one —
/// whose first sighting was at another depth or under another node than the
/// key before it now names.
pub open spec fn clashes(t: TrieModel, session: u32, parent: u32, d: u32, rest: Seq<u64>) -> nat
    decreases rest.len(),
{
    if rest.len() == 0 {
        0
    } else {
        let k = rest[0];
        let (t1, node) = visit(t, session, parent, d, k);
        let here: nat = if t.index.contains_key(k) && (t.depth[t.index[k] as int] != d
            || t.parent[t.index[k] as int] != parent) {
            1
        } else {
            0
        };
        here + clashes(t1, session, node, (d + 1) as u32, rest.drop_first())
    }
}

/// Walking a path adds one violation per position that contradicts where its
/// key was first seen, and no other.
pub proof fn law_a_walk_counts_each_contradiction(
    t: TrieModel,
    session: u32,
    parent: u32,
    d: u32,
    rest: Seq<u64>,
)
    requires
        t.violations + rest.len() <= u64::MAX,
    ensures
        clashes(t, session, parent, d, rest) <= rest.len(),
        walk(t, session, parent, d, rest).violations == t.violations + clashes(t, session, parent, d, rest),
    decreases rest.len(),
{
    if rest.len() > 0 {
        let (t1, node) = visit(t, session, parent, d, rest[0]);
        law_a_walk_counts_each_contradiction(t1, session, node, (d + 1) as u32, rest.drop_first());
    }
}

/// A path of keys the trie has never seen, none repeated, contradicts
/// nothing: walking it leaves the violation count where it was.
pub proof fn law_a_fresh_path_contradicts_nothing(t: TrieModel, session: u32, parent: u32, d: u32, rest: Seq<u64>)
    requires
        rest.no_duplicates(),
        forall|i: int| 0 <= i < rest.len() ==> !t.index.contains_key(#[trigger] rest[i]),
    ensures
        walk(t, session, parent, d, rest).violations == t.violations,
    decreases rest.len(),
{
    if rest.len() > 0 {
        let (t1, node) = visit(t, session, parent, d, rest[0]);
        let tail = rest.drop_first();
        assert forall|i: int| 0 <= i < tail.len() implies !t1.index.contains_key(#[trigger] tail[i]) by {
            assert(tail[i] == rest[i + 1]);
            assert(rest[i + 1] != rest[0]);
        }
        law_a_fresh_path_contradicts_nothing(t1, session, node, (d + 1) as u32, tail);
    }
}

/// A session re-walking its own path counts once toward every cohort on it:
/// after a session walks a path, walking it again — or any prefix of it, as
/// the next turn of a conversation re-reads the last — changes no node and no
/// cohort. Only the violation count can move, since a contradicting key is
/// counted each time it is seen.
pub proof fn law_rewalking_a_path_changes_no_cohort(t: TrieModel, session: u32, path: Seq<u64>, n: int)
    requires
        trie_wf(t),
        t.parent.len() + path.len() < u32::MAX,
        0 <= n <= path.len(),
    ensures
        same_cohorts(
            walk(walk(t, session, NO_PARENT, 0, path), session, NO_PARENT, 0, path.take(n)),
            walk(t, session, NO_PARENT, 0, path),
        ),
{
    assert(walked_last_by(t, session, Seq::empty()));
    lemma_walk_marks(t, session, NO_PARENT, 0, Seq::empty(), path);
    assert(Seq::<u64>::empty() + path =~= path);
    let t1 = walk(t, session, NO_PARENT, 0, path);
    assert forall|k: u64| #[trigger] path.take(n).contains(k) implies t1.index.contains_key(k)
        && t1.last_session[t1.index[k] as int] == session by {
        let i = choose|i: int| 0 <= i < path.take(n).len() && path.take(n)[i] == k;
        assert(path[i] == k);
        assert(path.contains(k));
    }
    lemma_rewalk(t1, session, NO_PARENT, 0, path.take(n));
}


/// An observation's weight: its own, or one where it carries none.
pub open spec fn obs_weight(w: u64) -> nat {
    if w == 0 {
        1
    } else {
        w as nat
    }
}

/// The weight of every observation of value `v` among `pairs`.
pub open spec fn weight_at(pairs: Seq<(u64, u64)>, v: u64) -> nat
    decreases pairs.len(),
{
    if pairs.len() == 0 {
        0
    } else {
        weight_at(pairs.drop_last(), v) + if pairs.last().0 == v {
            obs_weight(pairs.last().1)
        } else {
            0nat
        }
    }
}

/// The weight of every observation among `pairs`.
pub open spec fn weight_total(pairs: Seq<(u64, u64)>) -> nat
    decreases pairs.len(),
{
    if pairs.len() == 0 {
        0
    } else {
        weight_total(pairs.drop_last()) + obs_weight(pairs.last().1)
    }
}

/// Whether some observation among `pairs` has value `v`.
pub open spec fn observed_value(pairs: Seq<(u64, u64)>, v: u64) -> bool {
    exists|i: int| 0 <= i < pairs.len() && #[trigger] pairs[i].0 == v
}

proof fn lemma_weight_at_le_total(pairs: Seq<(u64, u64)>, v: u64)
    ensures
        weight_at(pairs, v) <= weight_total(pairs),
    decreases pairs.len(),
{
    if pairs.len() > 0 {
        lemma_weight_at_le_total(pairs.drop_last(), v);
    }
}

proof fn lemma_weight_total_prefix(pairs: Seq<(u64, u64)>, k: int)
    requires
        0 <= k <= pairs.len(),
    ensures
        weight_total(pairs.take(k)) <= weight_total(pairs),
    decreases pairs.len() - k,
{
    if k < pairs.len() {
        lemma_weight_total_prefix(pairs, k + 1);
        assert(pairs.take(k + 1).drop_last() =~= pairs.take(k));
    } else {
        assert(pairs.take(k) =~= pairs);
    }
}

/// One bucket per distinct observed value, ascending: the value as both ends
/// of the bucket, and the summed weight of its observations, an observation
/// with no weight counting one.
pub fn weighted_buckets(pairs: &[(u64, u64)]) -> (r: Vec<(u64, u64, u64)>)
    requires
        weight_total(pairs@) <= u64::MAX,
    ensures
        forall|i: int, j: int| 0 <= i < j < r@.len() ==> r@[i].0 < r@[j].0,
        forall|i: int| 0 <= i < r@.len() ==> r@[i].0 == r@[i].1,
        forall|i: int| 0 <= i < r@.len() ==> r@[i].2 == weight_at(pairs@, r@[i].0),
        forall|v: u64|
            observed_value(pairs@, v) <==> exists|i: int| 0 <= i < r@.len() && #[trigger] r@[i].0 == v,
{
    let mut buckets: Vec<(u64, u64, u64)> = Vec::new();
    let mut k: usize = 0;
    while k < pairs.len()
        invariant
            k <= pairs@.len(),
            weight_total(pairs@) <= u64::MAX,
            forall|i: int, j: int| 0 <= i < j < buckets@.len() ==> buckets@[i].0 < buckets@[j].0,
            forall|i: int| 0 <= i < buckets@.len() ==> buckets@[i].0 == buckets@[i].1,
            forall|i: int|
                0 <= i < buckets@.len() ==> buckets@[i].2 == weight_at(pairs@.take(k as int), buckets@[i].0),
            forall|v: u64|
                observed_value(pairs@.take(k as int), v) <==> exists|i: int|
                    0 <= i < buckets@.len() && #[trigger] buckets@[i].0 == v,
        decreases pairs@.len() - k,
    {
        let (v, w) = pairs[k];
        let wt: u64 = if w == 0 {
            1
        } else {
            w
        };
        let ghost before = buckets@;
        let ghost done = pairs@.take(k as int);
        let ghost next = pairs@.take(k + 1);
        proof {
            assert(next.drop_last() =~= done);
            assert(next.last() == (v, w));
            lemma_weight_total_prefix(pairs@, k + 1);
            lemma_weight_at_le_total(next, v);
            assert forall|u: u64| observed_value(next, u) <==> (observed_value(done, u) || u == v) by {
                if observed_value(next, u) && u != v {
                    let i = choose|i: int| 0 <= i < next.len() && #[trigger] next[i].0 == u;
                    assert(done[i].0 == u);
                }
                if observed_value(done, u) {
                    let i = choose|i: int| 0 <= i < done.len() && #[trigger] done[i].0 == u;
                    assert(next[i].0 == u);
                }
                if u == v {
                    assert(next[k as int].0 == u);
                }
            }
        }
        let mut pos: usize = 0;
        while pos < buckets.len() && buckets[pos].0 < v
            invariant
                pos <= buckets@.len(),
                forall|i: int| 0 <= i < pos ==> buckets@[i].0 < v,
            decreases buckets@.len() - pos,
        {
            pos = pos + 1;
        }
        if pos < buckets.len() && buckets[pos].0 == v {
            let (lo, hi, c) = buckets[pos];
            proof {
                assert(c == weight_at(done, v));
                assert(weight_at(next, v) == c + wt);
            }
            buckets.set(pos, (lo, hi, c + wt));
            proof {
                assert forall|i: int| 0 <= i < buckets@.len() implies buckets@[i].2 == weight_at(
                    next,
                    buckets@[i].0,
                ) by {
                    if i != pos {
                        assert(buckets@[i].0 != v);
                    }
                }
                assert forall|u: u64| observed_value(next, u) <==> exists|i: int|
                    0 <= i < buckets@.len() && #[trigger] buckets@[i].0 == u by {
                    if observed_value(next, u) {
                        if u == v {
                            assert(buckets@[pos as int].0 == u);
                        } else {
                            let i = choose|i: int| 0 <= i < before.len() && #[trigger] before[i].0 == u;
                            assert(buckets@[i].0 == u);
                        }
                    }
                    if exists|i: int| 0 <= i < buckets@.len() && #[trigger] buckets@[i].0 == u {
                        let i = choose|i: int| 0 <= i < buckets@.len() && #[trigger] buckets@[i].0 == u;
                        assert(before[i].0 == u);
                    }
                }
            }
        } else {
            proof {
                assert forall|i: int| 0 <= i < before.len() implies before[i].0 != v by {
                    if i >= pos {
                        assert(before[pos as int].0 > v);
                        if i > pos {
                            assert(before[pos as int].0 < before[i].0);
                        }
                    }
                }
                assert(!observed_value(done, v));
                assert(weight_at(done, v) == 0) by {
                    lemma_weight_at_unobserved(done, v);
                }
            }
            buckets.insert(pos, (v, v, wt));
            proof {
                assert forall|i: int, j: int| 0 <= i < j < buckets@.len() implies buckets@[i].0
                    < buckets@[j].0 by {
                    if j < pos {
                        assert(buckets@[i] == before[i] && buckets@[j] == before[j]);
                    } else if j == pos {
                        assert(buckets@[i] == before[i]);
                    } else if i < pos {
                        assert(buckets@[j] == before[j - 1]);
                        assert(before[pos as int].0 > v);
                        if j - 1 > pos {
                            assert(before[pos as int].0 < before[j - 1].0);
                        }
                    } else if i == pos {
                        assert(buckets@[j] == before[j - 1]);
                        assert(before[pos as int].0 > v);
                        if j - 1 > pos {
                            assert(before[pos as int].0 < before[j - 1].0);
                        }
                    } else {
                        assert(buckets@[i] == before[i - 1] && buckets@[j] == before[j - 1]);
                    }
                }
                assert forall|i: int| 0 <= i < buckets@.len() implies buckets@[i].0 == buckets@[i].1
                    && buckets@[i].2 == weight_at(next, buckets@[i].0) by {
                    if i < pos {
                        assert(buckets@[i] == before[i]);
                    } else if i > pos {
                        assert(buckets@[i] == before[i - 1]);
                    }
                }
                assert forall|u: u64| observed_value(next, u) <==> exists|i: int|
                    0 <= i < buckets@.len() && #[trigger] buckets@[i].0 == u by {
                    if observed_value(next, u) {
                        if u == v {
                            assert(buckets@[pos as int].0 == u);
                        } else {
                            let i = choose|i: int| 0 <= i < before.len() && #[trigger] before[i].0 == u;
                            if i < pos {
                                assert(buckets@[i].0 == u);
                            } else {
                                assert(buckets@[i + 1].0 == u);
                            }
                        }
                    }
                    if exists|i: int| 0 <= i < buckets@.len() && #[trigger] buckets@[i].0 == u {
                        let i = choose|i: int| 0 <= i < buckets@.len() && #[trigger] buckets@[i].0 == u;
                        if i < pos {
                            assert(before[i].0 == u);
                        } else if i > pos {
                            assert(before[i - 1].0 == u);
                        }
                    }
                }
            }
        }
        k = k + 1;
    }
    proof {
        assert(pairs@.take(pairs@.len() as int) =~= pairs@);
    }
    buckets
}

proof fn lemma_weight_at_unobserved(pairs: Seq<(u64, u64)>, v: u64)
    requires
        !observed_value(pairs, v),
    ensures
        weight_at(pairs, v) == 0,
    decreases pairs.len(),
{
    if pairs.len() > 0 {
        let p = pairs.drop_last();
        assert(!observed_value(p, v)) by {
            if observed_value(p, v) {
                let i = choose|i: int| 0 <= i < p.len() && #[trigger] p[i].0 == v;
                assert(pairs[i].0 == v);
            }
        }
        assert(pairs[pairs.len() - 1].0 != v);
        lemma_weight_at_unobserved(p, v);
    }
}

/// `n` copies of `v`.
fn filled(n: usize, v: u32) -> (r: Vec<u32>)
    ensures
        r@ == Seq::new(n as nat, |_i: int| v),
{
    let mut r: Vec<u32> = Vec::new();
    while r.len() < n
        invariant
            r.len() <= n,
            forall|i: int| 0 <= i < r.len() ==> r@[i] == v,
        decreases n - r.len(),
    {
        r.push(v);
    }
    assert(r@ =~= Seq::new(n as nat, |_i: int| v));
    r
}

/// The children counts and first-child / next-sibling links of a trie.
pub open spec fn links_wf(t: TrieModel, children: Seq<u32>, first: Seq<u32>, next: Seq<u32>) -> bool {
    let n = t.parent.len();
    &&& children.len() == n
    &&& first.len() == n
    &&& next.len() == n
    &&& forall|q: int| 0 <= q < n ==> #[trigger] children[q] == child_count(t.parent, q, n as int)
    &&& forall|q: int| 0 <= q < n ==> #[trigger] first[q] == next_child(t.parent, q, 0)
    &&& forall|i: int|
        0 <= i < n && t.parent[i] != NO_PARENT ==> #[trigger] next[i] == next_child(
            t.parent,
            t.parent[i] as int,
            i + 1,
        )
}

impl Census {
    /// The arrays agree.
    pub open spec fn wf(&self) -> bool {
        trie_wf(self@)
    }

    /// An empty census.
    pub fn new() -> (r: Census)
        ensures
            r.wf(),
            r@ == empty_trie(),
    {
        Census {
            index: HashMap::new(),
            parent: Vec::new(),
            depth: Vec::new(),
            sessions: Vec::new(),
            last_session: Vec::new(),
            violations: 0,
        }
    }

    /// Record one request's path. **Call grouped by session**.
    ///
    /// The key at position `d` sits at depth `d` below the key before it; the
    /// first key is a root.
    pub fn observe(&mut self, session: SessionId, path: &[CacheKey])
        requires
            old(self).wf(),
            old(self)@.parent.len() + path@.len() < u32::MAX,
            old(self)@.violations + path@.len() <= u64::MAX,
        ensures
            final(self).wf(),
            final(self)@ == walk(old(self)@, session.0, NO_PARENT, 0, key_values(path@)),
            final(self)@.parent.len() == old(self)@.parent.len() + (key_values(path@).to_set()
                - old(self)@.index.dom()).len(),
            final(self)@.violations == old(self)@.violations + clashes(
                old(self)@,
                session.0,
                NO_PARENT,
                0,
                key_values(path@),
            ),
    {
        let ghost whole = key_values(path@);
        proof {
            law_a_walk_adds_a_node_per_new_key(self@, session.0, NO_PARENT, 0, whole);
            law_a_walk_counts_each_contradiction(self@, session.0, NO_PARENT, 0, whole);
        }
        let ghost start = self@;
        let mut parent: u32 = NO_PARENT;
        let mut d: usize = 0;
        assert(whole.subrange(0, whole.len() as int) =~= whole);
        while d < path.len()
            invariant
                self.wf(),
                d <= path@.len(),
                path@.len() < u32::MAX,
                whole == key_values(path@),
                parent == NO_PARENT || parent < self@.parent.len(),
                self@.parent.len() + (path@.len() - d) < u32::MAX,
                self@.violations + (path@.len() - d) <= u64::MAX,
                walk(self@, session.0, parent, d as u32, whole.subrange(d as int, whole.len() as int))
                    == walk(start, session.0, NO_PARENT, 0, whole),
            decreases path@.len() - d,
        {
            let key = path[d].0;
            let dd = d as u32;
            let ghost before = self@;
            let ghost above = parent;
            let ghost rest = whole.subrange(d as int, whole.len() as int);
            proof {
                lemma_visit_wf(before, session.0, parent, dd, key);
                assert(rest[0] == key);
                assert(rest.drop_first() =~= whole.subrange(d + 1, whole.len() as int));
            }
            let node: u32 = match self.index.get(&key) {
                Some(n) => {
                    let n = *n;
                    let nu = n as usize;
                    if self.depth[nu] != dd || self.parent[nu] != parent {
                        self.violations = self.violations + 1;
                    }
                    if self.last_session[nu] != session.0 {
                        self.last_session[nu] = session.0;
                        let c = self.sessions[nu];
                        self.sessions[nu] = c.saturating_add(1);
                    }
                    n
                },
                None => {
                    let n = self.parent.len() as u32;
                    self.index.insert(key, n);
                    self.parent.push(parent);
                    self.depth.push(dd);
                    self.sessions.push(1);
                    self.last_session.push(session.0);
                    n
                },
            };
            proof {
                let (t1, n1) = visit(before, session.0, parent, dd, key);
                assert(self@.parent =~= t1.parent);
                assert(self@.depth =~= t1.depth);
                assert(self@.sessions =~= t1.sessions);
                assert(self@.last_session =~= t1.last_session);
                assert(self@.index =~= t1.index);
                assert(self@ == t1);
                assert(node == n1);
                assert(walk(before, session.0, above, dd, rest) == walk(
                    t1,
                    session.0,
                    n1,
                    (dd + 1) as u32,
                    rest.drop_first(),
                ));
            }
            parent = node;
            d = d + 1;
        }
        assert(whole.subrange(d as int, whole.len() as int) =~= Seq::<u64>::empty());
    }


    /// Follow the unary run that starts at `node` to the node that ends it.
    fn walk_segment(&self, children: &Vec<u32>, first: &Vec<u32>, node: usize) -> (r: (usize, u32, SegmentEnd))
        requires
            self.wf(),
            node < self@.parent.len(),
            children@.len() == self@.parent.len(),
            first@.len() == self@.parent.len(),
            forall|q: int|
                0 <= q < self@.parent.len() ==> #[trigger] children@[q] == child_count(
                    self@.parent,
                    q,
                    self@.parent.len() as int,
                ),
            forall|q: int|
                0 <= q < self@.parent.len() ==> #[trigger] first@[q] == next_child(self@.parent, q, 0),
        ensures
            r.0 == seg_tail(self@.parent, self@.sessions, node as int).0,
            r.1 == seg_tail(self@.parent, self@.sessions, node as int).1 + 1,
            r.2 == seg_tail(self@.parent, self@.sessions, node as int).2,
            r.0 < self@.parent.len(),
    {
        let ghost par = self@.parent;
        let ghost ses = self@.sessions;
        let mut length: u32 = 1;
        let mut cur: usize = node;
        loop
            invariant
                self.wf(),
                par == self@.parent,
                ses == self@.sessions,
                children@.len() == par.len(),
                first@.len() == par.len(),
                forall|q: int| 0 <= q < par.len() ==> #[trigger] children@[q] == child_count(par, q, par.len() as int),
                forall|q: int| 0 <= q < par.len() ==> #[trigger] first@[q] == next_child(par, q, 0),
                node <= cur < par.len(),
                1 <= length <= cur - node + 1,
                seg_tail(par, ses, node as int) == (
                    seg_tail(par, ses, cur as int).0,
                    (seg_tail(par, ses, cur as int).1 + (length - 1)) as nat,
                    seg_tail(par, ses, cur as int).2,
                ),
            decreases par.len() - cur,
        {
            let c = children[cur];
            if c == 0 {
                return (cur, length, SegmentEnd::Leaf);
            }
            if c > 1 {
                return (cur, length, SegmentEnd::Fanout);
            }
            let child = first[cur] as usize;
            proof {
                lemma_no_early_child(par, cur as int, 0);
                lemma_next_child(par, ses, cur as int, cur + 1);
                lemma_no_early_child_count(par, cur as int, cur + 1);
            }
            if self.sessions[child] != self.sessions[cur] {
                return (cur, length, SegmentEnd::Attrition);
            }
            cur = child;
            length = length + 1;
        }
    }

    /// The cohorts of the children of `cur`: how many are shared, their
    /// summed and squared fan-ins over all and over shared children, and the
    /// largest shared one.
    fn split_stats(&self, first: &Vec<u32>, next: &Vec<u32>, children: &Vec<u32>, cur: usize, min: u32) -> (r: (
        u32,
        u64,
        u64,
        u128,
        u128,
        u32,
    ))
        requires
            self.wf(),
            cur < self@.parent.len(),
            links_wf(self@, children@, first@, next@),
        ensures
            ({
                let n = self@.parent.len() as int;
                let (par, ses) = (self@.parent, self@.sessions);
                &&& r.0 == children_total(par, ses, cur as int, n, shared_one(min))
                &&& r.1 == children_total(par, ses, cur as int, n, fan_in())
                &&& r.2 == children_total(par, ses, cur as int, n, shared_fan_in(min))
                &&& r.3 == children_total(par, ses, cur as int, n, shared_fan_in_sq(min))
                &&& r.4 == children_total(par, ses, cur as int, n, fan_in_sq())
                &&& r.5 == top_shared(par, ses, cur as int, min, n)
            }),
    {
        let ghost par = self@.parent;
        let ghost ses = self@.sessions;
        let ghost n = par.len() as int;
        let mut shared: u32 = 0;
        let mut sum_all: u64 = 0;
        let mut sum_shared: u64 = 0;
        let mut sq_shared: u128 = 0;
        let mut sq_all: u128 = 0;
        let mut top: u32 = 0;
        let mut c: u32 = first[cur];
        proof {
            lemma_next_child(par, ses, cur as int, 0);
        }
        let ghost mut upto: int = child_or_end(par, cur as int, 0);
        while c != NO_PARENT
            invariant
                self.wf(),
                par == self@.parent,
                ses == self@.sessions,
                n == par.len(),
                links_wf(self@, children@, first@, next@),
                cur < n,
                0 <= upto <= n,
                c == NO_PARENT ==> upto == n,
                c != NO_PARENT ==> upto == c && c < n && par[c as int] == cur,
                shared == children_total(par, ses, cur as int, upto, shared_one(min)),
                sum_all == children_total(par, ses, cur as int, upto, fan_in()),
                sum_shared == children_total(par, ses, cur as int, upto, shared_fan_in(min)),
                sq_shared == children_total(par, ses, cur as int, upto, shared_fan_in_sq(min)),
                sq_all == children_total(par, ses, cur as int, upto, fan_in_sq()),
                top == top_shared(par, ses, cur as int, min, upto),
            decreases n - upto,
        {
            let ci = c as usize;
            let f = self.sessions[ci];
            proof {
                let k = upto + 1;
                assert(forall|g: u32| #[trigger] shared_one(min)(g) <= 1);
                assert(forall|g: u32| #[trigger] fan_in()(g) <= u32::MAX);
                assert(forall|g: u32| #[trigger] shared_fan_in(min)(g) <= u32::MAX);
                assert forall|g: u32| #[trigger] fan_in_sq()(g) <= u32::MAX * u32::MAX by {
                    assert(g * g <= u32::MAX * u32::MAX) by (nonlinear_arith)
                        requires
                            g <= u32::MAX,
                    ;
                }
                assert forall|g: u32| #[trigger] shared_fan_in_sq(min)(g) <= u32::MAX * u32::MAX by {
                    assert(g * g <= u32::MAX * u32::MAX) by (nonlinear_arith)
                        requires
                            g <= u32::MAX,
                    ;
                }
                lemma_children_total_le(par, ses, cur as int, k, shared_one(min), 1);
                lemma_children_total_le(par, ses, cur as int, k, fan_in(), u32::MAX as nat);
                lemma_children_total_le(par, ses, cur as int, k, shared_fan_in(min), u32::MAX as nat);
                lemma_children_total_le(
                    par,
                    ses,
                    cur as int,
                    k,
                    fan_in_sq(),
                    (u32::MAX * u32::MAX) as nat,
                );
                lemma_children_total_le(
                    par,
                    ses,
                    cur as int,
                    k,
                    shared_fan_in_sq(min),
                    (u32::MAX * u32::MAX) as nat,
                );
                assert(k * u32::MAX <= u32::MAX * u32::MAX) by (nonlinear_arith)
                    requires
                        k <= u32::MAX,
                ;
                assert(k * (u32::MAX * u32::MAX) <= u32::MAX * (u32::MAX * u32::MAX)) by (nonlinear_arith)
                    requires
                        k <= u32::MAX,
                ;
                assert(f * f <= u32::MAX * u32::MAX) by (nonlinear_arith)
                    requires
                        f <= u32::MAX,
                ;
            }
            let wide = f as u64;
            let sq = (wide as u128) * (wide as u128);
            sum_all = sum_all + wide;
            sq_all = sq_all + sq;
            if f >= min {
                shared = shared + 1;
                sum_shared = sum_shared + wide;
                sq_shared = sq_shared + sq;
                if f > top {
                    top = f;
                }
            }
            let nc = next[ci];
            proof {
                lemma_next_child(par, ses, cur as int, upto + 1);
                upto = child_or_end(par, cur as int, upto + 1);
            }
            c = nc;
        }
        (shared, sum_all, sum_shared, sq_shared, sq_all, top)
    }

    /// Every segment whose cohort is at least `min_sessions`, plus the split
    /// that ends it, in order of the node that starts it.
    ///
    /// One pass to count children, one to link them, one to walk — each node
    /// belongs to exactly one segment, so the walk is linear.
    pub fn finish(&self, min_sessions: u32) -> (r: Vec<SegmentRow>)
        requires
            self.wf(),
        ensures
            r@ == segment_rows(self@, min_sessions, self@.parent.len() as int),
    {
        let ghost par = self@.parent;
        let ghost ses = self@.sessions;
        let n = self.parent.len();
        let mut children = filled(n, 0);
        let mut i: usize = 0;
        while i < n
            invariant
                self.wf(),
                par == self@.parent,
                n == par.len(),
                i <= n,
                children@.len() == n,
                forall|q: int| 0 <= q < n ==> #[trigger] children@[q] == child_count(par, q, i as int),
            decreases n - i,
        {
            let p = self.parent[i];
            proof {
                assert(par[i as int] == NO_PARENT || par[i as int] < i);
            }
            if p != NO_PARENT {
                proof {
                    lemma_child_count_le(par, p as int, i as int);
                }
                let pu = p as usize;
                children[pu] = children[pu] + 1;
            }
            proof {
                assert forall|q: int| 0 <= q < n implies #[trigger] children@[q] == child_count(
                    par,
                    q,
                    i + 1,
                ) by {
                    assert(child_count(par, q, i + 1) == child_count(par, q, i as int) + if par[i as int] as int
                        == q {
                        1nat
                    } else {
                        0nat
                    });
                }
            }
            i = i + 1;
        }
        let mut first = filled(n, NO_PARENT);
        let mut next = filled(n, NO_PARENT);
        let mut k: usize = n;
        while k > 0
            invariant
                self.wf(),
                par == self@.parent,
                n == par.len(),
                k <= n,
                first@.len() == n,
                next@.len() == n,
                forall|q: int| 0 <= q < n ==> #[trigger] first@[q] == next_child(par, q, k as int),
                forall|j: int|
                    k <= j < n && par[j] != NO_PARENT ==> #[trigger] next@[j] == next_child(
                        par,
                        par[j] as int,
                        j + 1,
                    ),
            decreases k,
        {
            k = k - 1;
            let p = self.parent[k];
            proof {
                assert(par[k as int] == NO_PARENT || par[k as int] < k);
            }
            if p != NO_PARENT {
                let pu = p as usize;
                next[k] = first[pu];
                first[pu] = k as u32;
            }
            proof {
                assert forall|q: int| 0 <= q < n implies #[trigger] first@[q] == next_child(par, q, k as int) by {
                    assert(next_child(par, q, k as int) == if par[k as int] as int == q {
                        k as u32
                    } else {
                        next_child(par, q, k + 1)
                    });
                }
            }
        }
        let mut out: Vec<SegmentRow> = Vec::new();
        let mut node: usize = 0;
        while node < n
            invariant
                self.wf(),
                par == self@.parent,
                ses == self@.sessions,
                n == par.len(),
                node <= n,
                links_wf(self@, children@, first@, next@),
                out@ == segment_rows(self@, min_sessions, node as int),
            decreases n - node,
        {
            let p = self.parent[node];
            let continues = p != NO_PARENT && children[p as usize] == 1 && self.sessions[p as usize]
                == self.sessions[node];
            proof {
                assert(par[node as int] == NO_PARENT || par[node as int] < node);
            }
            if !continues && self.sessions[node] >= min_sessions {
                let (end, length, ends) = self.walk_segment(&children, &first, node);
                proof {
                    lemma_child_count_le(par, end as int, n as int);
                }
                let mut row = SegmentRow {
                    start_depth: self.depth[node],
                    length,
                    fan_in: self.sessions[node],
                    ends,
                    out_degree: children[end],
                    shared_children: 0,
                    child_fan_in_sum: 0,
                    shared_fan_in_sum: 0,
                    child_fan_in_sq: 0,
                    child_fan_in_sq_all: 0,
                    top_child_fan_in: 0,
                };
                if ends == SegmentEnd::Fanout {
                    let (shared, sum_all, sum_shared, sq_shared, sq_all, top) = self.split_stats(
                        &first,
                        &next,
                        &children,
                        end,
                        min_sessions,
                    );
                    row.shared_children = shared;
                    row.child_fan_in_sum = sum_all;
                    row.shared_fan_in_sum = sum_shared;
                    row.child_fan_in_sq = sq_shared;
                    row.child_fan_in_sq_all = sq_all;
                    row.top_child_fan_in = top;
                }
                out.push(row);
            }
            node = node + 1;
        }
        out
    }

    /// Distinct keys seen.
    pub fn nodes(&self) -> (r: usize)
        requires
            self.wf(),
        ensures
            r == self@.parent.len(),
    {
        self.parent.len()
    }

    /// Keys contradicting `rolling_prefix` identity.
    pub fn violations(&self) -> (r: u64)
        ensures
            r == self@.violations,
    {
        self.violations
    }
}

/// How a segment stops.
#[derive(Debug, Clone, Copy, PartialEq, Eq, Structural)]
pub enum SegmentEnd {
    /// The last node has more than one child: a genuine cohort **split**.
    Fanout,
    /// Out-degree 1 but a smaller cohort below — sessions ended *on the trunk*.
    Attrition,
    /// Nothing below.
    Leaf,
}

} // verus!
