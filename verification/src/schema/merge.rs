//! The merge behind `extends`: a preset beneath a document.
//!
//! The including document wins on every conflicting leaf, and **lists replace
//! rather than append**: a mixture is a whole, so appending to a base's `mix`
//! would silently produce a four-entry mixture from two two-entry documents.
//! Only mappings merge; anything else the including document states replaces
//! what the base had.
//!
//! The tree is the document's shape and nothing more: each mapping key and
//! each non-mapping value is an id, equal ids standing for equal values.
//! Entries keep insertion order; a key the including document restates is
//! taken out of its place by moving the last entry into it, and the merged
//! entry goes to the end.

use vstd::prelude::*;

verus! {

/// A document's shape: a mapping of keys to subtrees, or anything else.
#[derive(Debug, PartialEq, Eq)]
pub enum Tree {
    /// A mapping, in order; keys are distinct.
    Mapping(Vec<(u64, Tree)>),
    /// Anything that is not a mapping: a scalar or a whole list.
    Other(u64),
}

/// The value a [`Tree`] denotes.
pub enum TreeValue {
    /// A mapping, in order.
    Mapping(Seq<(u64, TreeValue)>),
    /// Anything that is not a mapping.
    Other(u64),
}

/// The value of a tree.
pub open spec fn value_of(t: Tree) -> TreeValue
    decreases t,
{
    match t {
        Tree::Mapping(v) => TreeValue::Mapping(entries_of(v@)),
        Tree::Other(x) => TreeValue::Other(x),
    }
}

/// The values of a mapping's entries.
pub open spec fn entries_of(s: Seq<(u64, Tree)>) -> Seq<(u64, TreeValue)>
    decreases s,
{
    if s.len() == 0 {
        Seq::empty()
    } else {
        entries_of(s.drop_last()).push((s.last().0, value_of(s.last().1)))
    }
}

/// Where key `k` sits among `s`'s first `n` entries, the earliest place first.
pub open spec fn key_index(s: Seq<(u64, TreeValue)>, k: u64, n: int) -> Option<int>
    decreases n,
{
    if n <= 0 {
        None
    } else {
        match key_index(s, k, n - 1) {
            Some(i) => Some(i),
            None => if s[n - 1].0 == k {
                Some(n - 1)
            } else {
                None
            },
        }
    }
}

/// `s` with entry `p` taken out by moving the last entry into its place.
pub open spec fn swap_removed(s: Seq<(u64, TreeValue)>, p: int) -> Seq<(u64, TreeValue)> {
    s.update(p, s.last()).drop_last()
}

/// `over` merged onto `base`.
pub open spec fn merged(base: TreeValue, over: TreeValue) -> TreeValue
    decreases over,
{
    match over {
        TreeValue::Mapping(oe) => match base {
            TreeValue::Mapping(be) => TreeValue::Mapping(merged_entries(be, oe)),
            TreeValue::Other(_) => over,
        },
        TreeValue::Other(_) => over,
    }
}

/// The entries of `over` merged, one after the other, onto those of `base`.
pub open spec fn merged_entries(base: Seq<(u64, TreeValue)>, over: Seq<(u64, TreeValue)>) -> Seq<
    (u64, TreeValue),
>
    decreases over,
{
    if over.len() == 0 {
        base
    } else {
        let prev = merged_entries(base, over.drop_last());
        let k = over.last().0;
        let ov = over.last().1;
        match key_index(prev, k, prev.len() as int) {
            Some(p) => swap_removed(prev, p).push((k, merged(prev[p].1, ov))),
            None => prev.push((k, ov)),
        }
    }
}

proof fn lemma_entries_of_len(s: Seq<(u64, Tree)>)
    ensures
        entries_of(s).len() == s.len(),
        forall|i: int|
            0 <= i < s.len() ==> #[trigger] entries_of(s)[i] == (s[i].0, value_of(s[i].1)),
    decreases s,
{
    if s.len() > 0 {
        lemma_entries_of_len(s.drop_last());
    }
}

proof fn lemma_entries_of_push(s: Seq<(u64, Tree)>, e: (u64, Tree))
    ensures
        entries_of(s.push(e)) == entries_of(s).push((e.0, value_of(e.1))),
{
    assert(s.push(e).drop_last() =~= s);
}

proof fn lemma_entries_of_swap_remove(s: Seq<(u64, Tree)>, p: int)
    requires
        0 <= p < s.len(),
    ensures
        entries_of(s.update(p, s.last()).drop_last()) == swap_removed(entries_of(s), p),
{
    let a = s.update(p, s.last()).drop_last();
    lemma_entries_of_len(a);
    lemma_entries_of_len(s);
    assert(entries_of(a) =~= swap_removed(entries_of(s), p));
}

proof fn lemma_key_index(s: Seq<(u64, TreeValue)>, k: u64, n: int)
    requires
        0 <= n <= s.len(),
    ensures
        key_index(s, k, n) matches Some(i) ==> 0 <= i < n && s[i].0 == k && forall|j: int|
            0 <= j < i ==> s[j].0 != k,
        key_index(s, k, n) is None ==> forall|j: int| 0 <= j < n ==> s[j].0 != k,
    decreases n,
{
    if n > 0 {
        lemma_key_index(s, k, n - 1);
    }
}

/// Where key `k` sits in a mapping's entries.
fn find_key(v: &Vec<(u64, Tree)>, k: u64) -> (r: Option<usize>)
    ensures
        r matches Some(i) ==> key_index(entries_of(v@), k, v@.len() as int) == Some(i as int),
        r is None ==> key_index(entries_of(v@), k, v@.len() as int) is None,
{
    proof {
        lemma_entries_of_len(v@);
        lemma_key_index(entries_of(v@), k, v@.len() as int);
    }
    let mut i: usize = 0;
    while i < v.len()
        invariant
            i <= v@.len(),
            entries_of(v@).len() == v@.len(),
            forall|j: int| 0 <= j < v@.len() ==> #[trigger] entries_of(v@)[j] == (v@[j].0, value_of(v@[j].1)),
            forall|j: int| 0 <= j < i ==> v@[j].0 != k,
        decreases v@.len() - i,
    {
        if v[i].0 == k {
            proof {
                lemma_key_index_first(entries_of(v@), k, v@.len() as int, i as int);
            }
            return Some(i);
        }
        i = i + 1;
    }
    proof {
        lemma_key_index_absent(entries_of(v@), k, v@.len() as int);
    }
    None
}

proof fn lemma_key_index_first(s: Seq<(u64, TreeValue)>, k: u64, n: int, i: int)
    requires
        0 <= i < n <= s.len(),
        s[i].0 == k,
        forall|j: int| 0 <= j < i ==> s[j].0 != k,
    ensures
        key_index(s, k, n) == Some(i),
    decreases n,
{
    if n - 1 > i {
        lemma_key_index_first(s, k, n - 1, i);
    } else {
        lemma_key_index_absent(s, k, n - 1);
    }
}

proof fn lemma_key_index_absent(s: Seq<(u64, TreeValue)>, k: u64, n: int)
    requires
        0 <= n <= s.len(),
        forall|j: int| 0 <= j < n ==> s[j].0 != k,
    ensures
        key_index(s, k, n) is None,
    decreases n,
{
    if n > 0 {
        lemma_key_index_absent(s, k, n - 1);
    }
}

/// Merge `over` onto `base`: mappings merge key by key, recursively, and
/// anything else `over` states replaces what `base` had.
pub fn merge(base: Tree, over: Tree) -> (r: Tree)
    ensures
        value_of(r) == merged(value_of(base), value_of(over)),
    decreases over,
{
    let ghost orig = over;
    match over {
        Tree::Mapping(o) => match base {
            Tree::Mapping(b) => {
                let ghost be = entries_of(b@);
                let ghost oe = entries_of(o@);
                let ghost whole = o@;
                let mut out = b;
                let mut rest = o;
                let mut i: usize = 0;
                let n: usize = rest.len();
                proof {
                    lemma_entries_of_len(whole);
                    assert(oe.take(0) =~= Seq::<(u64, TreeValue)>::empty());
                    assert(rest@ =~= whole.subrange(0, whole.len() as int));
                }
                while rest.len() > 0
                    invariant
                        oe == entries_of(whole),
                        oe.len() == whole.len(),
                        forall|j: int| 0 <= j < whole.len() ==> #[trigger] oe[j] == (whole[j].0, value_of(whole[j].1)),
                        i <= whole.len(),
                        n == whole.len(),
                        rest@ == whole.subrange(i as int, whole.len() as int),
                        entries_of(out@) == merged_entries(be, oe.take(i as int)),
                        orig is Mapping,
                        orig->Mapping_0@ == whole,
                        orig == over,
                    decreases rest@.len(),
                {
                    assert(rest@.len() == whole.len() - i);
                    assert(i < whole.len());
                    let (k, ov) = rest.remove(0);
                    assert(k == whole[i as int].0 && ov == whole[i as int].1);
                    let ghost prev = entries_of(out@);
                    proof {
                        assert(oe.take(i + 1).drop_last() =~= oe.take(i as int));
                        assert(oe.take(i + 1).last() == (k, value_of(ov)));
                    }
                    match find_key(&out, k) {
                        Some(p) => {
                            proof {
                                lemma_entries_of_len(out@);
                                lemma_key_index(entries_of(out@), k, out@.len() as int);
                                lemma_entries_of_swap_remove(out@, p as int);
                            }
                            let ghost before = out@;
                            let (_, bv) = out.swap_remove(p);
                            assert(value_of(bv) == prev[p as int].1);
                            proof {
                                let v = orig->Mapping_0;
                                assert(decreases_to!(orig => v));
                                assert(decreases_to!(v => v@));
                                assert(decreases_to!(v@ => v@[i as int]));
                                assert(decreases_to!(v@[i as int] => v@[i as int].1));
                            }
                            let m = merge(bv, ov);
                            proof {
                                lemma_entries_of_push(out@, (k, m));
                            }
                            out.push((k, m));
                            proof {
                                let t = oe.take(i + 1);
                                assert(merged_entries(be, t) == swap_removed(prev, p as int).push(
                                    (k, merged(prev[p as int].1, value_of(ov))),
                                ));
                            }
                        },
                        None => {
                            proof {
                                lemma_entries_of_len(out@);
                                lemma_entries_of_push(out@, (k, ov));
                            }
                            out.push((k, ov));
                            proof {
                                let t = oe.take(i + 1);
                                assert(merged_entries(be, t) == prev.push((k, value_of(ov))));
                            }
                        },
                    }
                    i = i + 1;
                    proof {
                        assert(rest@ =~= whole.subrange(i as int, whole.len() as int));
                    }
                }
                proof {
                    assert(oe.take(i as int) =~= oe);
                }
                Tree::Mapping(out)
            },
            Tree::Other(_) => Tree::Mapping(o),
        },
        Tree::Other(x) => Tree::Other(x),
    }
}

/// The value `s` holds under key `k`, if any.
pub open spec fn lookup(s: Seq<(u64, TreeValue)>, k: u64) -> Option<TreeValue> {
    match key_index(s, k, s.len() as int) {
        Some(i) => Some(s[i].1),
        None => None,
    }
}

/// No key occurs twice among `s`'s entries.
pub open spec fn distinct_keys(s: Seq<(u64, TreeValue)>) -> bool {
    forall|i: int, j: int| 0 <= i < j < s.len() ==> #[trigger] s[i].0 != #[trigger] s[j].0
}

/// What a merge holds under `k`: the including document's value where only it
/// states one, the base's where only the base does, and the two merged where
/// both do.
pub open spec fn merged_lookup(base: Seq<(u64, TreeValue)>, over: Seq<(u64, TreeValue)>, k: u64) -> Option<
    TreeValue,
> {
    match lookup(over, k) {
        None => lookup(base, k),
        Some(ov) => match lookup(base, k) {
            None => Some(ov),
            Some(bv) => Some(merged(bv, ov)),
        },
    }
}

proof fn lemma_lookup_at(s: Seq<(u64, TreeValue)>, k: u64, i: int)
    requires
        distinct_keys(s),
        0 <= i < s.len(),
        s[i].0 == k,
    ensures
        lookup(s, k) == Some(s[i].1),
{
    assert forall|j: int| 0 <= j < i implies s[j].0 != k by {
        assert(s[j].0 != s[i].0);
    }
    lemma_key_index_first(s, k, s.len() as int, i);
}

proof fn lemma_lookup_none(s: Seq<(u64, TreeValue)>, k: u64)
    requires
        forall|j: int| 0 <= j < s.len() ==> s[j].0 != k,
    ensures
        lookup(s, k) is None,
{
    lemma_key_index_absent(s, k, s.len() as int);
}

proof fn lemma_lookup_cases(s: Seq<(u64, TreeValue)>, k: u64)
    requires
        distinct_keys(s),
    ensures
        lookup(s, k) is None <==> forall|j: int| 0 <= j < s.len() ==> s[j].0 != k,
        lookup(s, k) matches Some(v) ==> exists|i: int| 0 <= i < s.len() && s[i].0 == k && s[i].1 == v,
{
    lemma_key_index(s, k, s.len() as int);
}

/// Merging the entries of `over` onto those of `base`, each without repeated
/// keys, repeats no key, and holds under each key what [`merged_lookup`]
/// says: the including document wins every conflict, mappings merge
/// recursively, and a key neither states stays absent.
pub proof fn law_the_including_document_wins(base: Seq<(u64, TreeValue)>, over: Seq<(u64, TreeValue)>)
    requires
        distinct_keys(base),
        distinct_keys(over),
    ensures
        distinct_keys(merged_entries(base, over)),
        forall|k: u64| #[trigger] lookup(merged_entries(base, over), k) == merged_lookup(base, over, k),
    decreases over.len(),
{
    if over.len() == 0 {
        assert forall|k: u64| #[trigger] lookup(merged_entries(base, over), k) == merged_lookup(base, over, k) by {
            lemma_lookup_none(over, k);
        }
    } else {
        let o2 = over.drop_last();
        let k0 = over.last().0;
        let ov0 = over.last().1;
        assert(distinct_keys(o2));
        law_the_including_document_wins(base, o2);
        let prev = merged_entries(base, o2);
        lemma_key_index(prev, k0, prev.len() as int);
        // `k0` is not among the earlier entries of `over`.
        assert forall|j: int| 0 <= j < o2.len() implies o2[j].0 != k0 by {
            assert(over[j].0 != over[over.len() - 1].0);
        }
        lemma_lookup_none(o2, k0);
        let m = merged_entries(base, over);
        match key_index(prev, k0, prev.len() as int) {
            Some(p) => {
                let a = swap_removed(prev, p);
                let mv = merged(prev[p].1, ov0);
                assert(m == a.push((k0, mv)));
                let last = prev.len() - 1;
                // Where each entry of `prev` other than `p` sits in `a`.
                assert forall|i: int| 0 <= i < a.len() implies #[trigger] a[i] == (if i == p {
                    prev[last]
                } else {
                    prev[i]
                }) by {}
                assert forall|i: int, j: int| 0 <= i < j < m.len() implies #[trigger] m[i].0 != #[trigger] m[j].0 by {
                    let pi = if i == p && i < a.len() { last } else { i };
                    if j == m.len() - 1 {
                        assert(m[j].0 == k0);
                        assert(m[i] == a[i]);
                        assert(prev[pi].0 != prev[p].0);
                    } else {
                        let pj = if j == p { last } else { j };
                        assert(m[i] == a[i] && m[j] == a[j]);
                        assert(pi != pj);
                        if pi < pj {
                            assert(prev[pi].0 != prev[pj].0);
                        } else {
                            assert(prev[pj].0 != prev[pi].0);
                        }
                    }
                }
                assert forall|k: u64| #[trigger] lookup(m, k) == merged_lookup(base, over, k) by {
                    lemma_lookup_cases(prev, k);
                    lemma_lookup_cases(over, k);
                    lemma_lookup_cases(o2, k);
                    if k == k0 {
                        lemma_lookup_at(m, k, m.len() - 1);
                        lemma_lookup_at(over, k, over.len() - 1);
                        lemma_lookup_at(prev, k, p);
                    } else {
                        assert(lookup(over, k) == lookup(o2, k)) by {
                            if lookup(o2, k) is Some {
                                let i = choose|i: int| 0 <= i < o2.len() && o2[i].0 == k && o2[i].1 == lookup(o2, k)->0;
                                lemma_lookup_at(over, k, i);
                            } else {
                                assert forall|j: int| 0 <= j < over.len() implies over[j].0 != k by {
                                    if j < o2.len() {
                                        assert(over[j] == o2[j]);
                                    }
                                }
                                lemma_lookup_none(over, k);
                            }
                        }
                        if lookup(prev, k) is Some {
                            let q = choose|q: int| 0 <= q < prev.len() && prev[q].0 == k && prev[q].1 == lookup(prev, k)->0;
                            let at = if q == last { p } else { q };
                            assert(m[at] == prev[q]);
                            lemma_lookup_at(m, k, at);
                        } else {
                            assert forall|j: int| 0 <= j < m.len() implies m[j].0 != k by {
                                if j < a.len() {
                                    if j == p {
                                        assert(m[j] == prev[last]);
                                    } else {
                                        assert(m[j] == prev[j]);
                                    }
                                }
                            }
                            lemma_lookup_none(m, k);
                        }
                    }
                }
            },
            None => {
                assert(m == prev.push((k0, ov0)));
                assert forall|i: int, j: int| 0 <= i < j < m.len() implies #[trigger] m[i].0 != #[trigger] m[j].0 by {
                    if j == m.len() - 1 {
                        assert(m[i] == prev[i]);
                    } else {
                        assert(m[i] == prev[i] && m[j] == prev[j]);
                    }
                }
                assert forall|k: u64| #[trigger] lookup(m, k) == merged_lookup(base, over, k) by {
                    lemma_lookup_cases(prev, k);
                    lemma_lookup_cases(o2, k);
                    if k == k0 {
                        lemma_lookup_at(m, k, m.len() - 1);
                        lemma_lookup_at(over, k, over.len() - 1);
                    } else {
                        assert(lookup(over, k) == lookup(o2, k)) by {
                            if lookup(o2, k) is Some {
                                let i = choose|i: int| 0 <= i < o2.len() && o2[i].0 == k && o2[i].1 == lookup(o2, k)->0;
                                lemma_lookup_at(over, k, i);
                            } else {
                                assert forall|j: int| 0 <= j < over.len() implies over[j].0 != k by {
                                    if j < o2.len() {
                                        assert(over[j] == o2[j]);
                                    }
                                }
                                lemma_lookup_none(over, k);
                            }
                        }
                        if lookup(prev, k) is Some {
                            let q = choose|q: int| 0 <= q < prev.len() && prev[q].0 == k && prev[q].1 == lookup(prev, k)->0;
                            assert(m[q] == prev[q]);
                            lemma_lookup_at(m, k, q);
                        } else {
                            assert forall|j: int| 0 <= j < m.len() implies m[j].0 != k by {
                                if j < prev.len() {
                                    assert(m[j] == prev[j]);
                                }
                            }
                            lemma_lookup_none(m, k);
                        }
                    }
                }
            },
        }
    }
}

/// Only two mappings merge: wherever either side is not a mapping, what the
/// including document states replaces the base — a list is replaced, never
/// appended to.
pub proof fn law_anything_but_a_mapping_replaces(base: TreeValue, over: TreeValue)
    requires
        !(base is Mapping && over is Mapping),
    ensures
        merged(base, over) == over,
{
}

} // verus!
