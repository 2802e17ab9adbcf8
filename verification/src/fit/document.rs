//! The root layer of a fit, and why a fitted document can be refused.
//!
//! `roots.popularity` is a distribution over sessions per root. A session binds
//! to one root at birth and stays on it, so the first root seen for a session
//! is its binding and later requests cannot move it or double its weight.
//!
//! Two parameters a trace cannot supply are refused rather than guessed: a
//! number in the emitted document is indistinguishable from a measurement.

use vstd::prelude::*;

use std::collections::HashMap;

use crate::keys::CacheKey;
use crate::text::{decimal, push_decimal};

verus! {

broadcast use vstd::std_specs::hash::group_hash_axioms;

/// The distinct root key values a binding map reaches.
pub open spec fn bound_roots(m: Map<u32, CacheKey>) -> Set<u64> {
    Set::new(|r: u64| exists|s: u32| #[trigger] m.contains_key(s) && m[s].0 == r)
}

/// The sessions bound to the root whose key value is `r`.
pub open spec fn sessions_on(m: Map<u32, CacheKey>, r: u64) -> Set<u32> {
    m.dom().filter(|s: u32| m[s].0 == r)
}

/// Sessions per root, which is what `roots.popularity` is a distribution over.
pub struct RootPopularity {
    /// Root key of each session's first request.
    root_of_session: HashMap<u32, CacheKey>,
    /// Where each root's count sits in `per_root`, by the root's key value.
    slot_of_root: HashMap<u64, usize>,
    /// Sessions bound to each root, in the order the roots were first seen.
    per_root: Vec<u64>,
    /// The roots in the order they were first seen.
    order: Ghost<Seq<u64>>,
}

impl View for RootPopularity {
    type V = Map<u32, CacheKey>;

    /// Each observed session's binding.
    closed spec fn view(&self) -> Map<u32, CacheKey> {
        self.root_of_session@
    }
}

impl RootPopularity {
    /// The per-root counts agree with the bindings.
    pub closed spec fn wf(&self) -> bool {
        let m = self.root_of_session@;
        let order = self.order@;
        &&& order.len() == self.per_root@.len()
        &&& order.no_duplicates()
        &&& forall|r: u64| #[trigger] bound_roots(m).contains(r) <==> order.contains(r)
        &&& forall|r: u64| #[trigger] self.slot_of_root@.contains_key(r) <==> order.contains(r)
        &&& forall|i: int|
            0 <= i < order.len() ==> self.slot_of_root@[#[trigger] order[i]] == i
                && self.per_root@[i] == sessions_on(m, order[i]).len()
    }

    /// The roots in the order they were first seen.
    pub closed spec fn root_order(&self) -> Seq<u64> {
        self.order@
    }

    /// An empty accumulator.
    pub fn new() -> (r: RootPopularity)
        ensures
            r.wf(),
            r@ == Map::<u32, CacheKey>::empty(),
    {
        let r = RootPopularity {
            root_of_session: HashMap::new(),
            slot_of_root: HashMap::new(),
            per_root: Vec::new(),
            order: Ghost(Seq::empty()),
        };
        assert(bound_roots(r.root_of_session@) =~= Set::<u64>::empty());
        r
    }

    /// Record a session's root — the depth-0 block of its first request.
    ///
    /// The first root seen for a session is its binding; a later one is
    /// ignored, so a session that appears twice counts once.
    pub fn observe(&mut self, session: u32, root: CacheKey)
        requires
            old(self).wf(),
        ensures
            final(self).wf(),
            final(self)@ == if old(self)@.contains_key(session) {
                old(self)@
            } else {
                old(self)@.insert(session, root)
            },
    {
        if self.root_of_session.contains_key(&session) {
            return ;
        }
        let ghost m0 = self.root_of_session@;
        let ghost order0 = self.order@;
        let ghost counts0 = self.per_root@;
        self.root_of_session.insert(session, root);
        let total: usize = self.root_of_session.len();
        let ghost m1 = self.root_of_session@;
        proof {
            lemma_rebind(m0, session, root);
            assert(m1 == m0.insert(session, root));
            vstd::set_lib::lemma_len_subset(sessions_on(m1, root.0), m1.dom());
        }
        match self.slot_of_root.get(&root.0) {
            Some(slot) => {
                let i = *slot;
                proof {
                    let j = choose|j: int| 0 <= j < order0.len() && order0[j] == root.0;
                    assert(self.slot_of_root@[order0[j]] == j);
                    assert(i == j);
                }
                let before = self.per_root[i];
                self.per_root[i] = before + 1;
                proof {
                    let m = self.root_of_session@;
                    assert forall|r: u64| #[trigger] bound_roots(m).contains(r) <==> self.order@.contains(r) by {
                        if r == root.0 {
                            assert(order0[i as int] == root.0);
                        }
                    }
                    assert forall|k: int| 0 <= k < self.order@.len() implies self.slot_of_root@[
                        #[trigger] self.order@[k]] == k && self.per_root@[k] == sessions_on(
                        m,
                        self.order@[k],
                    ).len() by {
                        if k != i {
                            assert(order0[k] != root.0);
                        }
                    }
                }
            },
            None => {
                let n = self.per_root.len();
                proof {
                    assert(!order0.contains(root.0));
                    assert(sessions_on(m0, root.0) =~= Set::<u32>::empty()) by {
                        if exists|s: u32| #[trigger] sessions_on(m0, root.0).contains(s) {
                            let s = choose|s: u32| #[trigger] sessions_on(m0, root.0).contains(s);
                            assert(bound_roots(m0).contains(root.0));
                        }
                    }
                }
                self.slot_of_root.insert(root.0, n);
                self.per_root.push(1);
                proof {
                    self.order@ = order0.push(root.0);
                    let m = self.root_of_session@;
                    let order = self.order@;
                    assert(order[n as int] == root.0);
                    assert forall|r: u64| #[trigger] bound_roots(m).contains(r) <==> order.contains(r) by {
                        if r == root.0 {
                            assert(order[n as int] == r);
                        } else if order.contains(r) {
                            let j = choose|j: int| 0 <= j < order.len() && order[j] == r;
                            assert(order0[j] == r);
                            assert(order0.contains(r));
                        } else if order0.contains(r) {
                            let j = choose|j: int| 0 <= j < order0.len() && order0[j] == r;
                            assert(order[j] == r);
                        }
                    }
                    assert forall|r: u64| #[trigger] self.slot_of_root@.contains_key(r) <==> order.contains(r) by {
                        if r == root.0 {
                            assert(order[n as int] == r);
                        } else if order.contains(r) {
                            let j = choose|j: int| 0 <= j < order.len() && order[j] == r;
                            assert(order0[j] == r);
                            assert(order0.contains(r));
                        } else if order0.contains(r) {
                            let j = choose|j: int| 0 <= j < order0.len() && order0[j] == r;
                            assert(order[j] == r);
                        }
                    }
                    assert forall|k: int| 0 <= k < order.len() implies self.slot_of_root@[
                        #[trigger] order[k]] == k && self.per_root@[k] == sessions_on(m, order[k]).len() by {
                        if k < n {
                            assert(order[k] == order0[k]);
                            assert(order0[k] != root.0);
                        }
                    }
                    assert forall|a: int, b: int| 0 <= a < b < order.len() implies order[a] != order[b] by {
                        if b == n {
                            assert(order0[a] == order[a]);
                        }
                    }
                }
            },
        }
    }

    /// Distinct roots observed, shared or not.
    pub fn roots(&self) -> (r: u64)
        requires
            self.wf(),
        ensures
            r == bound_roots(self@).len(),
    {
        proof {
            self.order@.unique_seq_to_set();
            assert(self.order@.to_set() =~= bound_roots(self@));
        }
        self.per_root.len() as u64
    }
}

impl Default for RootPopularity {
    fn default() -> (r: RootPopularity)
        ensures
            r.wf(),
            r@ == Map::<u32, CacheKey>::empty(),
    {
        RootPopularity::new()
    }
}

/// How many entries of `s` equal `c`.
pub open spec fn occurrences(s: Seq<u64>, c: u64) -> nat
    decreases s.len(),
{
    if s.len() == 0 {
        0
    } else {
        occurrences(s.drop_last(), c) + if s.last() == c {
            1nat
        } else {
            0nat
        }
    }
}

/// The roots bound to exactly `c` sessions.
pub open spec fn roots_with(m: Map<u32, CacheKey>, c: nat) -> Set<u64> {
    bound_roots(m).filter(|r: u64| sessions_on(m, r).len() == c)
}

/// The roots of `q` bound to exactly `c` sessions, in order.
pub open spec fn matching(q: Seq<u64>, m: Map<u32, CacheKey>, c: nat) -> Seq<u64>
    decreases q.len(),
{
    if q.len() == 0 {
        Seq::empty()
    } else if sessions_on(m, q.last()).len() == c {
        matching(q.drop_last(), m, c).push(q.last())
    } else {
        matching(q.drop_last(), m, c)
    }
}

/// Whether `s` never increases.
pub open spec fn descending(s: Seq<u64>) -> bool {
    forall|i: int, j: int| 0 <= i < j < s.len() ==> s[i] >= s[j]
}

/// The root layer ranked by popularity.
pub struct RankedRoots {
    /// Session counts of the roots two or more sessions bound to, most popular
    /// first: rank 1 is the first.
    pub shared: Vec<u64>,
    /// Distinct roots observed, singletons included.
    pub observed: u64,
    /// Sessions that bound to any root at all.
    pub sessions: u64,
    /// Sessions whose root no other session bound to.
    pub singleton_sessions: u64,
}

proof fn lemma_occurrences_concat(a: Seq<u64>, b: Seq<u64>, c: u64)
    ensures
        occurrences(a + b, c) == occurrences(a, c) + occurrences(b, c),
    decreases b.len(),
{
    if b.len() == 0 {
        assert(a + b =~= a);
    } else {
        lemma_occurrences_concat(a, b.drop_last(), c);
        assert((a + b).drop_last() =~= a + b.drop_last());
    }
}

proof fn lemma_occurrences_insert(s: Seq<u64>, pos: int, x: u64, c: u64)
    requires
        0 <= pos <= s.len(),
    ensures
        occurrences(s.insert(pos, x), c) == occurrences(s, c) + if x == c {
            1nat
        } else {
            0nat
        },
{
    let a = s.take(pos);
    let b = s.skip(pos);
    assert(s =~= a + b);
    assert(s.insert(pos, x) =~= (a + seq![x]) + b);
    lemma_occurrences_concat(a, b, c);
    lemma_occurrences_concat(a + seq![x], b, c);
    lemma_occurrences_concat(a, seq![x], c);
    assert(seq![x].drop_last() =~= Seq::<u64>::empty());
    assert(occurrences(Seq::<u64>::empty(), c) == 0);
    assert(occurrences(seq![x], c) == occurrences(seq![x].drop_last(), c) + if x == c {
        1nat
    } else {
        0nat
    });
}

/// Counting a count among the roots' counts is counting the roots that have it.
proof fn lemma_occurrences_of_counts(q: Seq<u64>, counts: Seq<u64>, m: Map<u32, CacheKey>, c: u64)
    requires
        counts.len() == q.len(),
        forall|i: int| 0 <= i < q.len() ==> #[trigger] counts[i] == sessions_on(m, q[i]).len(),
    ensures
        occurrences(counts, c) == matching(q, m, c as nat).len(),
    decreases q.len(),
{
    if q.len() > 0 {
        lemma_occurrences_of_counts(q.drop_last(), counts.drop_last(), m, c);
        assert(counts.last() == sessions_on(m, q.last()).len());
    }
}

proof fn lemma_matching_set(q: Seq<u64>, m: Map<u32, CacheKey>, c: nat)
    requires
        q.no_duplicates(),
    ensures
        matching(q, m, c).no_duplicates(),
        forall|r: u64| #[trigger] matching(q, m, c).contains(r) <==> (q.contains(r) && sessions_on(m, r).len() == c),
    decreases q.len(),
{
    if q.len() > 0 {
        let p = q.drop_last();
        assert(p.no_duplicates());
        lemma_matching_set(p, m, c);
        assert forall|r: u64| #[trigger] q.contains(r) <==> (p.contains(r) || r == q.last()) by {
            if q.contains(r) && r != q.last() {
                let i = choose|i: int| 0 <= i < q.len() && q[i] == r;
                assert(p[i] == r);
            }
            if p.contains(r) {
                let i = choose|i: int| 0 <= i < p.len() && p[i] == r;
                assert(q[i] == r);
            }
            if r == q.last() {
                assert(q[q.len() - 1] == r);
            }
        }
        assert(!p.contains(q.last())) by {
            if p.contains(q.last()) {
                let i = choose|i: int| 0 <= i < p.len() && p[i] == q.last();
                assert(q[i] == q[q.len() - 1]);
            }
        }
        let mp = matching(p, m, c);
        if sessions_on(m, q.last()).len() == c {
            let mq = mp.push(q.last());
            assert forall|r: u64| #[trigger] mq.contains(r) <==> (mp.contains(r) || r == q.last()) by {
                if mq.contains(r) && r != q.last() {
                    let i = choose|i: int| 0 <= i < mq.len() && mq[i] == r;
                    assert(mp[i] == r);
                }
                if mp.contains(r) {
                    let i = choose|i: int| 0 <= i < mp.len() && mp[i] == r;
                    assert(mq[i] == r);
                }
                if r == q.last() {
                    assert(mq[mq.len() - 1] == r);
                }
            }
            assert forall|a: int, b: int| 0 <= a < b < mq.len() implies mq[a] != mq[b] by {
                if b == mq.len() - 1 {
                    assert(mp.contains(mq[a]));
                }
            }
        }
    }
}

/// The counts in `roots_with` are exactly what a no-duplicate list of every
/// bound root says they are.
proof fn lemma_roots_with_len(q: Seq<u64>, counts: Seq<u64>, m: Map<u32, CacheKey>, c: u64)
    requires
        q.no_duplicates(),
        forall|r: u64| #[trigger] bound_roots(m).contains(r) <==> q.contains(r),
        counts.len() == q.len(),
        forall|i: int| 0 <= i < q.len() ==> #[trigger] counts[i] == sessions_on(m, q[i]).len(),
    ensures
        occurrences(counts, c) == roots_with(m, c as nat).len(),
{
    lemma_occurrences_of_counts(q, counts, m, c);
    lemma_matching_set(q, m, c as nat);
    let mq = matching(q, m, c as nat);
    mq.unique_seq_to_set();
    assert(mq.to_set() =~= roots_with(m, c as nat));
}

impl RootPopularity {
    /// The root layer ranked: shared roots by session count, most popular
    /// first, and the population they were measured over.
    ///
    /// **Shared roots only** in the ranking: a root one session reached shares
    /// no prefix with anything, so it is counted in `singleton_sessions`
    /// rather than folded into the ranks.
    pub fn ranked(&self) -> (r: RankedRoots)
        requires
            self.wf(),
        ensures
            r.observed == bound_roots(self@).len(),
            r.sessions == self@.dom().len(),
            r.singleton_sessions == roots_with(self@, 1).len(),
            descending(r.shared@),
            forall|i: int| 0 <= i < r.shared@.len() ==> r.shared@[i] >= 2,
            forall|c: u64| c >= 2 ==> occurrences(r.shared@, c) == roots_with(self@, c as nat).len(),
    {
        let ghost m = self.root_of_session@;
        let ghost order = self.order@;
        let n = self.per_root.len();
        let mut shared: Vec<u64> = Vec::new();
        let mut singles: u64 = 0;
        let mut i: usize = 0;
        while i < n
            invariant
                self.wf(),
                m == self.root_of_session@,
                order == self.order@,
                n == self.per_root@.len(),
                i <= n,
                shared@.len() <= i,
                singles <= i,
                descending(shared@),
                forall|k: int| 0 <= k < shared@.len() ==> shared@[k] >= 2,
                forall|c: u64| c >= 2 ==> occurrences(shared@, c) == occurrences(self.per_root@.take(i as int), c),
                forall|c: u64| c < 2 ==> occurrences(shared@, c) == 0,
                singles == occurrences(self.per_root@.take(i as int), 1),
            decreases n - i,
        {
            let c = self.per_root[i];
            proof {
                let r = order[i as int];
                assert(order.contains(r));
                assert(bound_roots(m).contains(r));
                let s = choose|s: u32| #[trigger] m.contains_key(s) && m[s].0 == r;
                assert(sessions_on(m, r).contains(s));
                vstd::set_lib::lemma_len_subset(sessions_on(m, r), m.dom());
                assert(sessions_on(m, r).len() > 0);
                assert(c == sessions_on(m, r).len());
                assert(self.per_root@.take(i + 1).drop_last() =~= self.per_root@.take(i as int));
            }
            if c < 2 {
                singles = singles + 1;
            } else {
                let mut pos: usize = 0;
                while pos < shared.len() && shared[pos] >= c
                    invariant
                        pos <= shared@.len(),
                        forall|k: int| 0 <= k < pos ==> shared@[k] >= c,
                    decreases shared@.len() - pos,
                {
                    pos = pos + 1;
                }
                let ghost before = shared@;
                shared.insert(pos, c);
                proof {
                    assert forall|x: u64| #[trigger] occurrences(shared@, x) == occurrences(before, x) + if c == x {
                        1nat
                    } else {
                        0nat
                    } by {
                        lemma_occurrences_insert(before, pos as int, c, x);
                    }
                    assert forall|a: int, b: int| 0 <= a < b < shared@.len() implies shared@[a] >= shared@[b] by {
                        if b < pos {
                        } else if a < pos && b == pos {
                        } else if a < pos {
                            assert(shared@[b] == before[b - 1]);
                            if (pos as int) < before.len() {
                                assert(before[pos as int] < c);
                                assert(before[pos as int] >= before[b - 1]);
                            }
                        } else if a == pos {
                            assert(before[pos as int] < c);
                            assert(before[pos as int] >= before[b - 1]);
                        } else {
                            assert(before[a - 1] >= before[b - 1]);
                        }
                    }
                }
            }
            i = i + 1;
        }
        proof {
            assert(self.per_root@.take(n as int) =~= self.per_root@);
            assert forall|c: u64| c >= 2 implies occurrences(shared@, c) == roots_with(m, c as nat).len() by {
                lemma_roots_with_len(order, self.per_root@, m, c);
            }
            lemma_roots_with_len(order, self.per_root@, m, 1);
            order.unique_seq_to_set();
            assert(order.to_set() =~= bound_roots(m));
        }
        RankedRoots {
            shared,
            observed: n as u64,
            sessions: self.root_of_session.len() as u64,
            singleton_sessions: singles,
        }
    }
}

/// Ranks a fitted `roots.popularity` is emitted at before ranks are grouped.
///
/// One step per rank up to this many, so **every** rank in the support is
/// reachable: a step CDF's steps have zero width, so a sampler can only ever
/// return one of the step values themselves.
pub const RANK_MAX_STEPS: usize = 4096;

/// The first `k` entries of `s`, summed.
pub open spec fn prefix_sum(s: Seq<u64>, k: int) -> nat
    decreases k,
{
    if k <= 0 {
        0
    } else {
        prefix_sum(s, k - 1) + s[k - 1] as nat
    }
}

/// How many consecutive ranks share one step among `len` ranks.
pub open spec fn rank_group(len: nat) -> nat {
    if len == 0 {
        1
    } else {
        ((len + RANK_MAX_STEPS - 1) / (RANK_MAX_STEPS as int)) as nat
    }
}

/// Whether the rank at index `i` of `len` closes a step: every
/// `rank_group(len)`-th rank, and the last.
pub open spec fn closes_step(len: nat, i: int) -> bool {
    (i + 1) % (rank_group(len) as int) == 0 || i + 1 == len
}

/// The steps among the first `k` ranks of `counts`: each closing rank,
/// 1-based, with the sessions on every rank up to it.
pub open spec fn rank_steps_spec(counts: Seq<u64>, k: int) -> Seq<(u64, u64)>
    decreases k,
{
    if k <= 0 {
        Seq::empty()
    } else {
        let prev = rank_steps_spec(counts, k - 1);
        if closes_step(counts.len(), k - 1) {
            prev.push((k as u64, prefix_sum(counts, k) as u64))
        } else {
            prev
        }
    }
}

proof fn lemma_prefix_sum_monotone(s: Seq<u64>, j: int, k: int)
    requires
        0 <= j <= k <= s.len(),
    ensures
        prefix_sum(s, j) <= prefix_sum(s, k),
    decreases k - j,
{
    if j < k {
        lemma_prefix_sum_monotone(s, j, k - 1);
    }
}

/// The steps of the rank distribution over ranked session counts: one step
/// per rank up to [`RANK_MAX_STEPS`] ranks, grouped above it, and always a
/// step at the last rank so the support reaches the shared-root count. Each
/// step carries its 1-based rank and the sessions on every rank up to it.
pub fn rank_steps(counts: &[u64]) -> (r: Vec<(u64, u64)>)
    requires
        prefix_sum(counts@, counts@.len() as int) <= u64::MAX,
    ensures
        r@ == rank_steps_spec(counts@, counts@.len() as int),
{
    let n = counts.len();
    let group: usize = if n == 0 {
        1
    } else {
        (n - 1) / RANK_MAX_STEPS + 1
    };
    proof {
        if n > 0 {
            assert((n - 1) / 4096 + 1 == (n + 4095) / 4096) by (nonlinear_arith)
                requires
                    n >= 1,
            ;
        }
    }
    let mut steps: Vec<(u64, u64)> = Vec::new();
    let mut acc: u64 = 0;
    let mut i: usize = 0;
    while i < n
        invariant
            n == counts@.len(),
            group == rank_group(n as nat),
            group >= 1,
            i <= n,
            acc == prefix_sum(counts@, i as int),
            prefix_sum(counts@, n as int) <= u64::MAX,
            steps@ == rank_steps_spec(counts@, i as int),
        decreases n - i,
    {
        proof {
            lemma_prefix_sum_monotone(counts@, i + 1, n as int);
        }
        acc = acc + counts[i];
        if (i + 1) % group == 0 || i + 1 == n {
            steps.push(((i + 1) as u64, acc));
        }
        i = i + 1;
    }
    steps
}

/// What binding a new session to `root` does to the per-root session sets.
proof fn lemma_rebind(m: Map<u32, CacheKey>, session: u32, root: CacheKey)
    requires
        m.dom().finite(),
        !m.contains_key(session),
    ensures
        bound_roots(m.insert(session, root)) == bound_roots(m).insert(root.0),
        sessions_on(m.insert(session, root), root.0) == sessions_on(m, root.0).insert(session),
        !sessions_on(m, root.0).contains(session),
        sessions_on(m, root.0).finite(),
        forall|r: u64| r != root.0 ==> #[trigger] sessions_on(m.insert(session, root), r) == sessions_on(m, r),
{
    let m1 = m.insert(session, root);
    assert(m1.contains_key(session));
    assert forall|r: u64| bound_roots(m).contains(r) implies #[trigger] bound_roots(m1).contains(r) by {
        let s = choose|s: u32| #[trigger] m.contains_key(s) && m[s].0 == r;
        assert(m1.contains_key(s) && m1[s].0 == r);
    }
    assert forall|r: u64| bound_roots(m1).contains(r) implies #[trigger] bound_roots(m).insert(
        root.0,
    ).contains(r) by {
        let s = choose|s: u32| #[trigger] m1.contains_key(s) && m1[s].0 == r;
        if s != session {
            assert(m.contains_key(s) && m[s].0 == r);
        }
    }
    assert(bound_roots(m1).contains(root.0));
    assert(bound_roots(m1) =~= bound_roots(m).insert(root.0));
    assert(sessions_on(m1, root.0) =~= sessions_on(m, root.0).insert(session));
    assert forall|r: u64| r != root.0 implies #[trigger] sessions_on(m1, r) == sessions_on(m, r) by {
        assert(sessions_on(m1, r) =~= sessions_on(m, r));
    }
}

/// Why a document could not be assembled.
#[derive(Debug)]
pub enum FitError {
    /// A measurement the schema requires came back empty.
    Unmeasured(&'static str),
    /// The trace has no usable timestamps and no rate was supplied.
    NoArrivalRate,
}

/// The text of a refusal that names the parameter `what`.
pub open spec fn unmeasured_text(what: Seq<char>) -> Seq<char> {
    "MODEL LIMITATION (FR-054a), not a defect in the trace: `"@ + what
        + "` could not be measured from it and this model's schema requires it, so the binding restriction is that the schema admits no document with `"@
        + what
        + "` absent. Refusing rather than emitting a default, which in the output YAML would be indistinguishable from a measurement (FR-055)"@
}

/// The text of the refusal for a trace with no arrival rate.
pub open spec fn no_arrival_rate_text() -> Seq<char> {
    "MODEL LIMITATION (FR-054a), not a defect in the trace: it carries no usable timestamps, so the arrival rate is not measurable, and this model has no timeless form — `run.arrival` is required and sets the plan's whole time axis. Supply a rate explicitly, or fit a trace whose `request_start` is native: an invented rate would look fitted"@
}

impl FitError {
    /// What this refusal says. Both refusals classify as a model limitation
    /// and name the restriction that binds.
    pub fn message(&self) -> (r: String)
        ensures
            r@ == match *self {
                FitError::Unmeasured(what) => unmeasured_text(what@),
                FitError::NoArrivalRate => no_arrival_rate_text(),
            },
    {
        match self {
            FitError::Unmeasured(what) => {
                let mut out = String::from_str("MODEL LIMITATION (FR-054a), not a defect in the trace: `");
                out.append(what);
                out.append(
                    "` could not be measured from it and this model's schema requires it, so the binding restriction is that the schema admits no document with `",
                );
                out.append(what);
                out.append(
                    "` absent. Refusing rather than emitting a default, which in the output YAML would be indistinguishable from a measurement (FR-055)",
                );
                out
            },
            FitError::NoArrivalRate => String::from_str(
                "MODEL LIMITATION (FR-054a), not a defect in the trace: it carries no usable timestamps, so the arrival rate is not measurable, and this model has no timeless form — `run.arrival` is required and sets the plan's whole time axis. Supply a rate explicitly, or fit a trace whose `request_start` is native: an invented rate would look fitted",
            ),
        }
    }
}

/// Which of the measurements a document requires came back.
#[derive(Debug, Clone, Copy)]
pub struct Measured {
    /// Turns per session.
    pub turns: bool,
    /// The private path depth.
    pub private_depth: bool,
    /// The shared path depth.
    pub shared_depth: bool,
    /// Think time between turns.
    pub think_time: bool,
    /// An arrival rate, measured or supplied.
    pub rate: bool,
}

/// Whether the root layer can be fitted: some root was observed and some root
/// is shared.
pub open spec fn roots_fittable(r: RankedRoots) -> bool {
    r.observed > 0 && r.shared@.len() > 0
}

/// Why a document cannot be assembled from these measurements, the first
/// missing one in the order the schema needs them; `None` when nothing is
/// missing.
pub fn assembly_refusal(m: &Measured, roots: &RankedRoots) -> (r: Option<FitError>)
    ensures
        !m.turns ==> (r matches Some(FitError::Unmeasured(w)) && w@ == "turns"@),
        m.turns && !m.private_depth ==> (r matches Some(FitError::Unmeasured(w)) && w@
            == "private_depth"@),
        m.turns && m.private_depth && !m.shared_depth ==> (r matches Some(FitError::Unmeasured(w))
            && w@ == "shared_depth"@),
        m.turns && m.private_depth && m.shared_depth && !roots_fittable(*roots) ==> (r matches Some(
            FitError::Unmeasured(w),
        ) && w@ == "roots.popularity"@),
        m.turns && m.private_depth && m.shared_depth && roots_fittable(*roots) && !m.think_time
            ==> (r matches Some(FitError::Unmeasured(w)) && w@ == "think_time"@),
        m.turns && m.private_depth && m.shared_depth && roots_fittable(*roots) && m.think_time
            && !m.rate ==> r matches Some(FitError::NoArrivalRate),
        m.turns && m.private_depth && m.shared_depth && roots_fittable(*roots) && m.think_time
            && m.rate ==> r is None,
{
    if !m.turns {
        return Some(FitError::Unmeasured("turns"));
    }
    if !m.private_depth {
        return Some(FitError::Unmeasured("private_depth"));
    }
    if !m.shared_depth {
        return Some(FitError::Unmeasured("shared_depth"));
    }
    if roots.observed == 0 || roots.shared.len() == 0 {
        return Some(FitError::Unmeasured("roots.popularity"));
    }
    if !m.think_time {
        return Some(FitError::Unmeasured("think_time"));
    }
    if !m.rate {
        return Some(FitError::NoArrivalRate);
    }
    None
}

/// The texts of a list of strings.
pub open spec fn texts(v: Seq<String>) -> Seq<Seq<char>> {
    v.map_values(|s: String| s@)
}

/// The caveat on sessions alone on their root.
pub open spec fn singleton_caveat(r: RankedRoots) -> Seq<char> {
    "MODEL LIMITATION (FR-054a): "@ + decimal(r.singleton_sessions as nat) + " of "@ + decimal(
        r.sessions as nat,
    )
        + " sessions bound to a root no other session used, and `roots.count` is the SHARED root layer ("@
        + decimal(r.shared@.len()) + " of "@ + decimal(r.observed as nat)
        + " distinct first-request roots), so those sessions are not represented in `roots.popularity`. A generated model puts every session on a shared root, giving them sharing the trace gave them none of. A session alone on its root is ordinary workload \u{2014} a one-off prompt \u{2014} so the gap is in the model's root layer, not in the trace"@
}

/// The caveat on the two counts of the shared root layer disagreeing.
pub open spec fn root_count_caveat(count: nat, trunk_roots: u64) -> Seq<char> {
    "`roots.count` is "@ + decimal(count)
        + " \u{2014} shared roots by session binding \u{2014} while the trunk width at depth 0 counts "@
        + decimal(trunk_roots as nat)
        + " shared keys. The two rules differ: a session binds to its FIRST request's root (FR-019a) whereas the width counts a key shared if two sessions reached it at any invocation, and a few sessions in a real trace start at more than one root. `roots.count` follows the binding, because that is the population `roots.popularity` is a distribution over"@
}

/// What the root layer's caveats are, in order: sessions alone on their root,
/// when there are any, and the two counts of the shared layer, when they
/// disagree.
pub open spec fn root_caveats(r: RankedRoots, trunk_roots: u64) -> Seq<Seq<char>> {
    (if r.singleton_sessions > 0 {
        seq![singleton_caveat(r)]
    } else {
        Seq::empty()
    }) + (if trunk_roots != r.shared@.len() {
        seq![root_count_caveat(r.shared@.len(), trunk_roots)]
    } else {
        Seq::empty()
    })
}

/// The caveats a fitted root layer carries, given how many depth-0 keys the
/// trunk report counted as shared.
pub fn root_layer_caveats(roots: &RankedRoots, trunk_roots: u64) -> (r: Vec<String>)
    ensures
        texts(r@) == root_caveats(*roots, trunk_roots),
{
    let mut out: Vec<String> = Vec::new();
    let count = roots.shared.len();
    if roots.singleton_sessions > 0 {
        let mut m = String::from_str("MODEL LIMITATION (FR-054a): ");
        push_decimal(&mut m, roots.singleton_sessions);
        m.append(" of ");
        push_decimal(&mut m, roots.sessions);
        m.append(
            " sessions bound to a root no other session used, and `roots.count` is the SHARED root layer (",
        );
        push_decimal(&mut m, count as u64);
        m.append(" of ");
        push_decimal(&mut m, roots.observed);
        m.append(
            " distinct first-request roots), so those sessions are not represented in `roots.popularity`. A generated model puts every session on a shared root, giving them sharing the trace gave them none of. A session alone on its root is ordinary workload \u{2014} a one-off prompt \u{2014} so the gap is in the model's root layer, not in the trace",
        );
        out.push(m);
    }
    let ghost first = texts(out@);
    if trunk_roots != count as u64 {
        let mut m = String::from_str("`roots.count` is ");
        push_decimal(&mut m, count as u64);
        m.append(
            " \u{2014} shared roots by session binding \u{2014} while the trunk width at depth 0 counts ",
        );
        push_decimal(&mut m, trunk_roots);
        m.append(
            " shared keys. The two rules differ: a session binds to its FIRST request's root (FR-019a) whereas the width counts a key shared if two sessions reached it at any invocation, and a few sessions in a real trace start at more than one root. `roots.count` follows the binding, because that is the population `roots.popularity` is a distribution over",
        );
        out.push(m);
    }
    assert(texts(out@) =~= root_caveats(*roots, trunk_roots));
    out
}

} // verus!
