//! Every node of a census belongs to exactly one segment.
//!
//! A node either starts a segment or continues its parent's, and a segment
//! is the chain a start's unary run walks. So the segments partition the
//! trie: reported with a cohort minimum of at most one, their lengths add up
//! to the node count — which is also why walking every segment is linear.

use vstd::prelude::*;

use crate::fit::segments::{
    child_count, continues_parent, lemma_child_count_le, lemma_next_child, lemma_no_early_child,
    lemma_no_early_child_count, next_child, seg_tail, segment_row, segment_rows, trie_wf,
    TrieModel, NO_PARENT,
};

verus! {

/// The start of the segment `i` belongs to: `i` itself when it starts one,
/// otherwise the start of its parent's.
pub open spec fn head(t: TrieModel, i: int) -> int
    decreases i,
{
    if 0 <= i < t.parent.len() && continues_parent(t, i) && t.parent[i] < i {
        head(t, t.parent[i] as int)
    } else {
        i
    }
}

/// The `j`-th node of the unary run that starts at `s`.
pub open spec fn chain_node(t: TrieModel, s: int, j: nat) -> int
    decreases j,
{
    if j == 0 {
        s
    } else {
        let prev = chain_node(t, s, (j - 1) as nat);
        next_child(t.parent, prev, prev + 1) as int
    }
}

/// How many nodes among `0..k` belong to the segment started by `s`.
pub open spec fn count_head(t: TrieModel, s: int, k: int) -> nat
    decreases k,
{
    if k <= 0 {
        0
    } else {
        count_head(t, s, k - 1) + if head(t, k - 1) == s {
            1nat
        } else {
            0nat
        }
    }
}

/// The steps the unary run from `s` takes.
pub open spec fn steps(t: TrieModel, s: int) -> nat {
    seg_tail(t.parent, t.sessions, s).1
}

/// The lengths of `rows`, summed.
pub open spec fn total_length(rows: Seq<crate::fit::segments::SegmentRow>) -> nat
    decreases rows.len(),
{
    if rows.len() == 0 {
        0
    } else {
        total_length(rows.drop_last()) + rows.last().length as nat
    }
}

proof fn lemma_steps_bound(t: TrieModel, c: int)
    requires
        trie_wf(t),
        0 <= c < t.parent.len(),
    ensures
        seg_tail(t.parent, t.sessions, c).1 + c < t.parent.len(),
    decreases t.parent.len() - c,
{
    let n = t.parent.len() as int;
    let cc = child_count(t.parent, c, n);
    if cc == 1 {
        let child = next_child(t.parent, c, c + 1) as int;
        if c < child < n && t.sessions[child] == t.sessions[c] {
            lemma_steps_bound(t, child);
        }
    }
}

/// Down the run from a start `s`: the `j`-th node is still on it, one step
/// further down than the one before, and the rest of the run from it is the
/// rest of the run from `s`.
proof fn lemma_tail_chain(t: TrieModel, s: int, j: nat)
    requires
        trie_wf(t),
        0 <= s < t.parent.len(),
        j <= steps(t, s),
    ensures
        s <= chain_node(t, s, j) < t.parent.len(),
        seg_tail(t.parent, t.sessions, chain_node(t, s, j)).0 == seg_tail(t.parent, t.sessions, s).0,
        seg_tail(t.parent, t.sessions, chain_node(t, s, j)).1 == steps(t, s) - j,
        j > 0 ==> chain_node(t, s, (j - 1) as nat) < chain_node(t, s, j),
        j > 0 ==> t.parent[chain_node(t, s, j)] as int == chain_node(t, s, (j - 1) as nat),
        j > 0 ==> continues_parent(t, chain_node(t, s, j)),
    decreases j,
{
    if j > 0 {
        lemma_tail_chain(t, s, (j - 1) as nat);
        let n = t.parent.len() as int;
        let prev = chain_node(t, s, (j - 1) as nat);
        let cur = chain_node(t, s, j);
        assert(seg_tail(t.parent, t.sessions, prev).1 >= 1);
        assert(child_count(t.parent, prev, n) == 1);
        assert(cur == next_child(t.parent, prev, prev + 1) as int);
        assert(prev < cur < n);
        lemma_next_child(t.parent, t.sessions, prev, prev + 1);
        assert(t.parent[cur] as int == prev);
    }
}

proof fn lemma_head(t: TrieModel, i: int)
    requires
        trie_wf(t),
        0 <= i < t.parent.len(),
    ensures
        0 <= head(t, i) <= i,
        !continues_parent(t, head(t, i)),
    decreases i,
{
    assert(t.parent[i] == NO_PARENT || t.parent[i] < i);
    if continues_parent(t, i) && t.parent[i] < i {
        lemma_head(t, t.parent[i] as int);
    }
}

proof fn lemma_child_count_monotone(parent: Seq<u32>, p: int, a: int, b: int)
    requires
        0 <= a <= b,
    ensures
        child_count(parent, p, a) <= child_count(parent, p, b),
    decreases b - a,
{
    if a < b {
        lemma_child_count_monotone(parent, p, a, b - 1);
    }
}

/// A node with one child has that child first after it.
proof fn lemma_only_child(t: TrieModel, p: int, i: int)
    requires
        trie_wf(t),
        0 <= p < t.parent.len(),
        0 <= i < t.parent.len(),
        t.parent[i] as int == p,
        child_count(t.parent, p, t.parent.len() as int) == 1,
    ensures
        next_child(t.parent, p, p + 1) as int == i,
{
    let n = t.parent.len() as int;
    assert(t.parent[i] == NO_PARENT || t.parent[i] < i);
    lemma_no_early_child_count(t.parent, p, p + 1);
    lemma_next_child(t.parent, t.sessions, p, p + 1);
    let j = next_child(t.parent, p, p + 1);
    if j == NO_PARENT {
        assert(child_count(t.parent, p, n) == child_count(t.parent, p, p + 1));
    } else {
        let jj = j as int;
        if jj < i {
            lemma_child_count_monotone(t.parent, p, jj + 1, i);
            lemma_child_count_monotone(t.parent, p, i + 1, n);
            lemma_child_count_monotone(t.parent, p, p + 1, jj);
            assert(child_count(t.parent, p, jj + 1) == child_count(t.parent, p, jj) + 1);
            assert(child_count(t.parent, p, i + 1) == child_count(t.parent, p, i) + 1);
        } else if jj > i {
            lemma_child_count_monotone(t.parent, p, i + 1, jj);
            lemma_child_count_monotone(t.parent, p, p + 1, i);
            assert(child_count(t.parent, p, i + 1) == child_count(t.parent, p, i) + 1);
        }
    }
}

/// The nodes whose segment `s` starts are exactly the nodes of the run from `s`.
proof fn lemma_head_is_chain(t: TrieModel, s: int, i: int)
    requires
        trie_wf(t),
        0 <= s < t.parent.len(),
        !continues_parent(t, s),
        0 <= i < t.parent.len(),
    ensures
        head(t, i) == s <==> exists|j: nat| j <= steps(t, s) && #[trigger] chain_node(t, s, j) == i,
    decreases i,
{
    let n = t.parent.len() as int;
    if head(t, i) == s {
        assert(t.parent[i] == NO_PARENT || t.parent[i] < i);
        if continues_parent(t, i) && t.parent[i] < i {
            let p = t.parent[i] as int;
            lemma_head_is_chain(t, s, p);
            let j = choose|j: nat| j <= steps(t, s) && #[trigger] chain_node(t, s, j) == p;
            lemma_tail_chain(t, s, j);
            lemma_only_child(t, p, i);
            if j == steps(t, s) {
                assert(seg_tail(t.parent, t.sessions, p).1 == 0);
                assert(p < i < n && t.sessions[i] == t.sessions[p]);
                assert(false);
            }
            assert(chain_node(t, s, j + 1) == i);
        } else {
            assert(chain_node(t, s, 0) == i);
        }
    }
    if exists|j: nat| j <= steps(t, s) && #[trigger] chain_node(t, s, j) == i {
        let j = choose|j: nat| j <= steps(t, s) && #[trigger] chain_node(t, s, j) == i;
        lemma_chain_heads(t, s, j);
    }
}

/// Every node of the run from `s` belongs to the segment `s` starts.
proof fn lemma_chain_heads(t: TrieModel, s: int, j: nat)
    requires
        trie_wf(t),
        0 <= s < t.parent.len(),
        !continues_parent(t, s),
        j <= steps(t, s),
    ensures
        head(t, chain_node(t, s, j)) == s,
    decreases j,
{
    lemma_tail_chain(t, s, j);
    if j > 0 {
        lemma_chain_heads(t, s, (j - 1) as nat);
    }
}

proof fn lemma_chain_increasing(t: TrieModel, s: int, a: nat, b: nat)
    requires
        trie_wf(t),
        0 <= s < t.parent.len(),
        a <= b <= steps(t, s),
    ensures
        chain_node(t, s, a) <= chain_node(t, s, b),
        a < b ==> chain_node(t, s, a) < chain_node(t, s, b),
    decreases b - a,
{
    if a < b {
        lemma_chain_increasing(t, s, a, (b - 1) as nat);
        lemma_tail_chain(t, s, b);
    }
}

proof fn lemma_count_head_flat(t: TrieModel, s: int, a: int, b: int)
    requires
        0 <= a <= b,
        forall|i: int| a <= i < b ==> head(t, i) != s,
    ensures
        count_head(t, s, b) == count_head(t, s, a),
    decreases b - a,
{
    if a < b {
        lemma_count_head_flat(t, s, a, b - 1);
    }
}

/// No node after the `j`-th of the run and before the next belongs to the
/// segment, nor any after the last.
proof fn lemma_between_chain(t: TrieModel, s: int, j: nat, i: int)
    requires
        trie_wf(t),
        0 <= s < t.parent.len(),
        !continues_parent(t, s),
        j <= steps(t, s),
        chain_node(t, s, j) < i < t.parent.len(),
        j < steps(t, s) ==> i < chain_node(t, s, j + 1),
    ensures
        head(t, i) != s,
{
    lemma_head_is_chain(t, s, i);
    if head(t, i) == s {
        let m = choose|m: nat| m <= steps(t, s) && #[trigger] chain_node(t, s, m) == i;
        if m <= j {
            lemma_chain_increasing(t, s, m, j);
        } else {
            lemma_chain_increasing(t, s, j + 1, m);
        }
    }
}

proof fn lemma_count_chain(t: TrieModel, s: int, j: nat)
    requires
        trie_wf(t),
        0 <= s < t.parent.len(),
        !continues_parent(t, s),
        j <= steps(t, s),
    ensures
        count_head(t, s, chain_node(t, s, j) + 1) == j + 1,
    decreases j,
{
    let c = chain_node(t, s, j);
    lemma_tail_chain(t, s, j);
    lemma_chain_heads(t, s, j);
    if j == 0 {
        assert forall|i: int| 0 <= i < s implies head(t, i) != s by {
            lemma_head(t, i);
        }
        lemma_count_head_flat(t, s, 0, s);
    } else {
        let prev = chain_node(t, s, (j - 1) as nat);
        lemma_count_chain(t, s, (j - 1) as nat);
        assert forall|i: int| prev + 1 <= i < c implies head(t, i) != s by {
            lemma_between_chain(t, s, (j - 1) as nat, i);
        }
        lemma_count_head_flat(t, s, prev + 1, c);
    }
}

/// A segment holds as many nodes as its run is long.
proof fn lemma_count_head(t: TrieModel, s: int)
    requires
        trie_wf(t),
        0 <= s < t.parent.len(),
        !continues_parent(t, s),
    ensures
        count_head(t, s, t.parent.len() as int) == steps(t, s) + 1,
{
    let k = steps(t, s);
    lemma_count_chain(t, s, k);
    lemma_tail_chain(t, s, k);
    let last = chain_node(t, s, k);
    assert forall|i: int| last + 1 <= i < t.parent.len() implies head(t, i) != s by {
        lemma_between_chain(t, s, k, i);
    }
    lemma_count_head_flat(t, s, last + 1, t.parent.len() as int);
}

/// The nodes among `0..k` belonging to segments started among `0..m`.
pub open spec fn starts_total(t: TrieModel, m: int, k: int) -> nat
    decreases m,
{
    if m <= 0 {
        0
    } else {
        starts_total(t, m - 1, k) + if !continues_parent(t, m - 1) {
            count_head(t, m - 1, k)
        } else {
            0nat
        }
    }
}

/// Whether node `k` belongs to a segment started among `0..m`, as 0 or 1.
pub open spec fn heads_at(t: TrieModel, m: int, k: int) -> nat
    decreases m,
{
    if m <= 0 {
        0
    } else {
        heads_at(t, m - 1, k) + if !continues_parent(t, m - 1) && head(t, k) == m - 1 {
            1nat
        } else {
            0nat
        }
    }
}

proof fn lemma_starts_total_zero(t: TrieModel, m: int)
    ensures
        starts_total(t, m, 0) == 0,
    decreases m,
{
    if m > 0 {
        lemma_starts_total_zero(t, m - 1);
    }
}

proof fn lemma_starts_total_step(t: TrieModel, m: int, k: int)
    requires
        k >= 0,
    ensures
        starts_total(t, m, k + 1) == starts_total(t, m, k) + heads_at(t, m, k),
    decreases m,
{
    if m > 0 {
        lemma_starts_total_step(t, m - 1, k);
    }
}

proof fn lemma_heads_at(t: TrieModel, m: int, k: int)
    requires
        trie_wf(t),
        0 <= k < t.parent.len(),
    ensures
        heads_at(t, m, k) == if head(t, k) < m {
            1nat
        } else {
            0nat
        },
    decreases m,
{
    lemma_head(t, k);
    if m > 0 {
        lemma_heads_at(t, m - 1, k);
    }
}

proof fn lemma_starts_total(t: TrieModel, k: int)
    requires
        trie_wf(t),
        0 <= k <= t.parent.len(),
    ensures
        starts_total(t, t.parent.len() as int, k) == k,
    decreases k,
{
    let n = t.parent.len() as int;
    if k == 0 {
        lemma_starts_total_zero(t, n);
    } else {
        lemma_starts_total(t, k - 1);
        lemma_starts_total_step(t, n, k - 1);
        lemma_heads_at(t, n, k - 1);
        lemma_head(t, k - 1);
    }
}

proof fn lemma_rows_total(t: TrieModel, m: int)
    requires
        trie_wf(t),
        0 <= m <= t.parent.len(),
    ensures
        total_length(segment_rows(t, 0, m)) == starts_total(t, m, t.parent.len() as int),
    decreases m,
{
    if m > 0 {
        lemma_rows_total(t, m - 1);
        let s = m - 1;
        if !continues_parent(t, s) {
            lemma_count_head(t, s);
            lemma_steps_bound(t, s);
            let rows = segment_rows(t, 0, m);
            assert(rows == segment_rows(t, 0, m - 1).push(segment_row(t, s, 0)));
            assert(rows.drop_last() =~= segment_rows(t, 0, m - 1));
            assert(segment_row(t, s, 0).length == steps(t, s) + 1);
        }
    }
}

/// With a cohort minimum of at most one, no segment is filtered out, since
/// every node was walked by some session: the rows are the same lengths as
/// with no minimum at all.
proof fn lemma_low_minimum_keeps_lengths(t: TrieModel, min: u32, k: int)
    requires
        trie_wf(t),
        min <= 1,
        0 <= k <= t.parent.len(),
    ensures
        total_length(segment_rows(t, min, k)) == total_length(segment_rows(t, 0, k)),
    decreases k,
{
    if k > 0 {
        lemma_low_minimum_keeps_lengths(t, min, k - 1);
        let a = segment_rows(t, min, k);
        let b = segment_rows(t, 0, k);
        if !continues_parent(t, k - 1) {
            assert(t.sessions[k - 1] >= 1);
            assert(a.drop_last() =~= segment_rows(t, min, k - 1));
            assert(b.drop_last() =~= segment_rows(t, 0, k - 1));
            assert(a.last().length == b.last().length);
        }
    }
}

/// Every node of a census belongs to exactly one segment: reported with a
/// cohort minimum of at most one, the segments' lengths add up to the number
/// of nodes.
pub proof fn law_segments_partition_the_trie(t: TrieModel, min: u32)
    requires
        trie_wf(t),
        min <= 1,
    ensures
        total_length(segment_rows(t, min, t.parent.len() as int)) == t.parent.len(),
{
    lemma_rows_total(t, t.parent.len() as int);
    lemma_starts_total(t, t.parent.len() as int);
    lemma_low_minimum_keeps_lengths(t, min, t.parent.len() as int);
}

} // verus!
