//! Which paths of a workload document hold a distribution, and in what unit.
//!
//! A bare `3` means three *seconds* under `think_time` and three *bytes* under
//! `block_bytes`: the unit is a property of the field, not of the value, so it
//! comes from the **path**, the one place it is unambiguous. A pattern is a
//! dotted path in which `*` matches any one segment, and it must match the
//! whole path, never a prefix of it.

use vstd::prelude::*;

verus! {

/// The unit a distribution's scalars are written in.
#[derive(Debug, Clone, Copy, PartialEq, Eq, Structural)]
pub enum Unit {
    /// Unitless. `_` separators are still stripped; a suffix is an error.
    Count,
    /// Bytes.
    Bytes,
    /// Seconds — **not** nanoseconds: a bare `3` is three seconds.
    Seconds,
}

/// A scalar that could not be read as the unit its field is written in.
#[derive(Debug, Clone, PartialEq, Eq)]
pub struct NormaliseError {
    /// Dotted path to the offending scalar.
    pub path: String,
    /// What was wrong with it.
    pub err: String,
}

impl NormaliseError {
    /// `path: err`.
    pub fn message(&self) -> (r: String)
        ensures
            r@ == self.path@ + ": "@ + self.err@,
    {
        let mut out = self.path.clone();
        out.append(": ");
        out.append(self.err.as_str());
        out
    }
}

/// Every path that holds a distribution, and the unit its scalars are in.
///
/// There are twelve `Dist`-typed fields in the schema and all twelve are here;
/// the `*` entries cover every `workload.mix` element.
pub open spec fn dist_path_table() -> Seq<(Seq<char>, Unit)> {
    seq![
        ("corpus.block_bytes"@, Unit::Bytes),
        ("corpus.trees.shared_depth"@, Unit::Count),
        ("corpus.trees.roots.popularity"@, Unit::Count),
        ("workload.sessions.turns"@, Unit::Count),
        ("workload.sessions.think_time"@, Unit::Seconds),
        ("workload.sessions.private_depth"@, Unit::Count),
        ("workload.sessions.growth_per_turn"@, Unit::Count),
        ("workload.sessions.spawn.at_turn"@, Unit::Count),
        ("workload.mix.*.turns"@, Unit::Count),
        ("workload.mix.*.think_time"@, Unit::Seconds),
        ("workload.mix.*.private_depth"@, Unit::Count),
        ("workload.mix.*.growth_per_turn"@, Unit::Count),
        ("topology.replication.nodes_per_key"@, Unit::Count),
    ]
}

/// Keys inside a distribution whose value carries the distribution's unit.
///
/// `sigma`, `s`, `n` and `alpha` are dimensionless and absent on purpose.
pub open spec fn unit_bearing_table() -> Seq<Seq<char>> {
    seq!["value"@, "min"@, "max"@, "mean"@, "stddev"@, "median"@, "scale"@]
}

/// The table of distribution paths and their units, in match order.
pub fn dist_paths() -> (r: Vec<(&'static str, Unit)>)
    ensures
        r@.len() == dist_path_table().len(),
        forall|i: int|
            0 <= i < r@.len() ==> (#[trigger] r@[i]).0@ == dist_path_table()[i].0 && r@[i].1
                == dist_path_table()[i].1,
{
    let r = vec![
        ("corpus.block_bytes", Unit::Bytes),
        ("corpus.trees.shared_depth", Unit::Count),
        ("corpus.trees.roots.popularity", Unit::Count),
        ("workload.sessions.turns", Unit::Count),
        ("workload.sessions.think_time", Unit::Seconds),
        ("workload.sessions.private_depth", Unit::Count),
        ("workload.sessions.growth_per_turn", Unit::Count),
        ("workload.sessions.spawn.at_turn", Unit::Count),
        ("workload.mix.*.turns", Unit::Count),
        ("workload.mix.*.think_time", Unit::Seconds),
        ("workload.mix.*.private_depth", Unit::Count),
        ("workload.mix.*.growth_per_turn", Unit::Count),
        ("topology.replication.nodes_per_key", Unit::Count),
    ];
    r
}

/// The keys whose values carry their distribution's unit.
pub fn unit_bearing() -> (r: Vec<&'static str>)
    ensures
        r@.len() == unit_bearing_table().len(),
        forall|i: int| 0 <= i < r@.len() ==> (#[trigger] r@[i])@ == unit_bearing_table()[i],
{
    let r = vec!["value", "min", "max", "mean", "stddev", "median", "scale"];
    r
}

/// The segments of a dotted string, as `str::split('.')` yields them: one
/// more than there are dots, empty segments included.
pub open spec fn dot_segments(s: Seq<char>) -> Seq<Seq<char>>
    decreases s.len(),
{
    if s.len() == 0 {
        seq![Seq::empty()]
    } else {
        let prev = dot_segments(s.drop_last());
        if s.last() == '.' {
            prev.push(Seq::empty())
        } else {
            prev.update(prev.len() - 1, prev.last().push(s.last()))
        }
    }
}

proof fn lemma_dot_segments_nonempty(s: Seq<char>)
    ensures
        dot_segments(s).len() >= 1,
    decreases s.len(),
{
    if s.len() > 0 {
        lemma_dot_segments_nonempty(s.drop_last());
    }
}

/// Whether a pattern's segments match a path's: as many of them, each equal
/// or `*`.
pub open spec fn segments_match(pattern: Seq<Seq<char>>, path: Seq<Seq<char>>) -> bool {
    &&& pattern.len() == path.len()
    &&& forall|i: int| 0 <= i < path.len() ==> #[trigger] pattern[i] == "*"@ || pattern[i] == path[i]
}

/// The text of each segment of a path.
pub open spec fn texts(path: Seq<String>) -> Seq<Seq<char>> {
    path.map_values(|s: String| s@)
}

/// The contents of each of a list of character vectors.
pub open spec fn char_texts(v: Seq<Vec<char>>) -> Seq<Seq<char>> {
    v.map_values(|c: Vec<char>| c@)
}

/// The unit of the first table entry, from `k` on, whose pattern matches `path`.
pub open spec fn first_unit(path: Seq<Seq<char>>, k: int) -> Option<Unit>
    decreases dist_path_table().len() - k,
{
    if k < 0 || k >= dist_path_table().len() {
        None
    } else if segments_match(dot_segments(dist_path_table()[k].0), path) {
        Some(dist_path_table()[k].1)
    } else {
        first_unit(path, k + 1)
    }
}

/// Whether `path` names a distribution, and in what unit.
pub open spec fn unit_of_path(path: Seq<Seq<char>>) -> Option<Unit> {
    first_unit(path, 0)
}

/// The unit a `sweep` axis carries: the axis names a distribution itself, or
/// a unit-bearing parameter inside one.
pub open spec fn unit_of_axis(axis: Seq<char>) -> Option<Unit> {
    let segments = dot_segments(axis);
    if unit_of_path(segments) is Some {
        unit_of_path(segments)
    } else if unit_bearing_table().contains(segments.last()) {
        unit_of_path(segments.drop_last())
    } else {
        None
    }
}

/// The characters of `s`, in order.
fn chars_of(s: &str) -> (r: Vec<char>)
    ensures
        r@ == s@,
{
    let n = s.unicode_len();
    let mut r: Vec<char> = Vec::new();
    let mut i: usize = 0;
    while i < n
        invariant
            n == s@.len(),
            i <= n,
            r@ == s@.take(i as int),
        decreases n - i,
    {
        let c = s.get_char(i);
        r.push(c);
        i = i + 1;
        proof {
            assert(r@ =~= s@.take(i as int));
        }
    }
    proof {
        assert(s@.take(n as int) =~= s@);
    }
    r
}

/// Split `s` at every `.`.
fn split_dots(s: &str) -> (r: Vec<Vec<char>>)
    ensures
        char_texts(r@) == dot_segments(s@),
{
    let n = s.unicode_len();
    let mut r: Vec<Vec<char>> = Vec::new();
    let mut cur: Vec<char> = Vec::new();
    let mut i: usize = 0;
    while i < n
        invariant
            n == s@.len(),
            i <= n,
            char_texts(r@).push(cur@) == dot_segments(s@.take(i as int)),
        decreases n - i,
    {
        let c = s.get_char(i);
        let ghost before = s@.take(i as int);
        let ghost after = s@.take(i + 1);
        proof {
            assert(after.drop_last() =~= before);
            assert(after.last() == c);
        }
        if c == '.' {
            let done = cur;
            r.push(done);
            cur = Vec::new();
            proof {
                assert(char_texts(r@).push(cur@) =~= dot_segments(before).push(Seq::empty()));
            }
        } else {
            cur.push(c);
            proof {
                let prev = dot_segments(before);
                assert(char_texts(r@).push(cur@) =~= prev.update(
                    prev.len() - 1,
                    prev.last().push(c),
                ));
            }
        }
        i = i + 1;
    }
    r.push(cur);
    proof {
        assert(s@.take(n as int) =~= s@);
        assert(char_texts(r@) =~= dot_segments(s@));
    }
    r
}

/// Whether two character vectors hold the same characters.
fn same_chars(a: &Vec<char>, b: &Vec<char>) -> (r: bool)
    ensures
        r == (a@ == b@),
{
    if a.len() != b.len() {
        return false;
    }
    let mut i: usize = 0;
    while i < a.len()
        invariant
            a@.len() == b@.len(),
            i <= a@.len(),
            forall|j: int| 0 <= j < i ==> a@[j] == b@[j],
        decreases a@.len() - i,
    {
        if a[i] != b[i] {
            return false;
        }
        i = i + 1;
    }
    assert(a@ =~= b@);
    true
}

/// Whether a pattern's segments match a path's segments.
fn segments_match_exec(pattern: &Vec<Vec<char>>, path: &Vec<Vec<char>>) -> (r: bool)
    ensures
        r == segments_match(char_texts(pattern@), char_texts(path@)),
{
    proof {
        reveal_strlit("*");
    }
    if pattern.len() != path.len() {
        return false;
    }
    let mut i: usize = 0;
    while i < path.len()
        invariant
            pattern@.len() == path@.len(),
            i <= path@.len(),
            forall|j: int|
                0 <= j < i ==> #[trigger] char_texts(pattern@)[j] == "*"@ || char_texts(pattern@)[j]
                    == char_texts(path@)[j],
        decreases path@.len() - i,
    {
        let seg = &pattern[i];
        let star = seg.len() == 1 && seg[0] == '*';
        proof {
            reveal_strlit("*");
            if seg@.len() == 1 && seg@[0] == '*' {
                assert(seg@ =~= "*"@);
            }
            if seg@ == "*"@ {
                assert(seg@.len() == 1 && seg@[0] == '*');
            }
        }
        if !star && !same_chars(seg, &path[i]) {
            proof {
                assert(char_texts(pattern@)[i as int] == seg@);
                assert(char_texts(path@)[i as int] == path@[i as int]@);
                assert(!(char_texts(pattern@)[i as int] == "*"@ || char_texts(pattern@)[i as int]
                    == char_texts(path@)[i as int]));
            }
            return false;
        }
        i = i + 1;
    }
    true
}

/// The unit of the first table entry whose pattern matches `path`.
fn unit_for_segments(path: &Vec<Vec<char>>) -> (r: Option<Unit>)
    ensures
        r == unit_of_path(char_texts(path@)),
{
    let table = dist_paths();
    let mut k: usize = 0;
    while k < table.len()
        invariant
            table@.len() == dist_path_table().len(),
            forall|i: int|
                0 <= i < table@.len() ==> (#[trigger] table@[i]).0@ == dist_path_table()[i].0
                    && table@[i].1 == dist_path_table()[i].1,
            k <= table@.len(),
            unit_of_path(char_texts(path@)) == first_unit(char_texts(path@), k as int),
        decreases table@.len() - k,
    {
        let (pattern, unit) = table[k];
        let segs = split_dots(pattern);
        if segments_match_exec(&segs, path) {
            return Some(unit);
        }
        k = k + 1;
    }
    None
}

/// The characters of each segment of a path.
fn path_chars(path: &[String]) -> (r: Vec<Vec<char>>)
    ensures
        char_texts(r@) == texts(path@),
{
    let mut r: Vec<Vec<char>> = Vec::new();
    let mut i: usize = 0;
    while i < path.len()
        invariant
            i <= path@.len(),
            char_texts(r@) == texts(path@).take(i as int),
        decreases path@.len() - i,
    {
        let c = chars_of(path[i].as_str());
        let ghost prev = char_texts(r@);
        proof {
            assert(c@ == path@[i as int]@);
        }
        r.push(c);
        i = i + 1;
        proof {
            assert(char_texts(r@) =~= prev.push(c@));
            assert(texts(path@).take(i as int) =~= texts(path@).take(i - 1).push(path@[i - 1]@));
            assert(char_texts(r@) =~= texts(path@).take(i as int));
        }
    }
    proof {
        assert(texts(path@).take(path@.len() as int) =~= texts(path@));
    }
    r
}

/// Match a dotted pattern against a path, `*` matching any one segment.
///
/// The whole path must match: a pattern does not match a path it is only a
/// prefix of, nor one that is a prefix of it.
pub fn matches_path(pattern: &str, path: &[String]) -> (r: bool)
    ensures
        r == segments_match(dot_segments(pattern@), texts(path@)),
{
    let segs = split_dots(pattern);
    let actual = path_chars(path);
    segments_match_exec(&segs, &actual)
}

/// Whether `path` names a distribution, and in what unit.
pub fn unit_for(path: &[String]) -> (r: Option<Unit>)
    ensures
        r == unit_of_path(texts(path@)),
{
    let actual = path_chars(path);
    unit_for_segments(&actual)
}

/// The unit of a `sweep` axis path, or `None` if it names no unit-bearing scalar.
///
/// The axis may name the distribution itself (`...think_time`) or a
/// parameter inside it (`...think_time.median`).
pub fn sweep_axis_unit(axis: &str) -> (r: Option<Unit>)
    ensures
        r == unit_of_axis(axis@),
{
    let mut segments = split_dots(axis);
    let whole = unit_for_segments(&segments);
    if whole.is_some() {
        return whole;
    }
    proof {
        lemma_dot_segments_nonempty(axis@);
    }
    let ghost all = char_texts(segments@);
    let last = segments.pop().unwrap();
    proof {
        assert(char_texts(segments@) =~= all.drop_last());
        assert(last@ == all.last());
    }
    let keys = unit_bearing();
    let mut k: usize = 0;
    let mut bearing = false;
    while k < keys.len()
        invariant
            keys@.len() == unit_bearing_table().len(),
            forall|i: int| 0 <= i < keys@.len() ==> (#[trigger] keys@[i])@ == unit_bearing_table()[i],
            k <= keys@.len(),
            bearing == exists|i: int| 0 <= i < k && unit_bearing_table()[i] == last@,
        decreases keys@.len() - k,
    {
        let key = chars_of(keys[k]);
        if same_chars(&key, &last) {
            bearing = true;
        }
        k = k + 1;
    }
    if !bearing {
        return None;
    }
    unit_for_segments(&segments)
}

/// Whether `w` holds no `.`.
pub open spec fn no_dot(w: Seq<char>) -> bool {
    forall|i: int| 0 <= i < w.len() ==> w[i] != '.'
}

proof fn lemma_no_dot_segments(w: Seq<char>)
    requires
        no_dot(w),
    ensures
        dot_segments(w) == seq![w],
    decreases w.len(),
{
    if w.len() > 0 {
        lemma_no_dot_segments(w.drop_last());
        assert(w.drop_last().push(w.last()) =~= w);
    } else {
        assert(w =~= Seq::<char>::empty());
    }
}

/// Splitting at a dot splits the segments there.
pub proof fn lemma_dot_concat(s: Seq<char>, t: Seq<char>)
    ensures
        dot_segments(s + seq!['.'] + t) == dot_segments(s) + dot_segments(t),
    decreases t.len(),
{
    lemma_dot_segments_nonempty(s);
    if t.len() == 0 {
        assert((s + seq!['.'] + t).drop_last() =~= s);
        assert(s + seq!['.'] + t =~= s.push('.'));
        assert(dot_segments(t) =~= seq![Seq::<char>::empty()]);
        assert(dot_segments(s).push(Seq::empty()) =~= dot_segments(s) + seq![Seq::<char>::empty()]);
    } else {
        let t2 = t.drop_last();
        let c = t.last();
        lemma_dot_concat(s, t2);
        lemma_dot_segments_nonempty(t2);
        let whole = s + seq!['.'] + t;
        assert(whole.drop_last() =~= s + seq!['.'] + t2);
        assert(whole.last() == c);
        let a = dot_segments(s);
        let b = dot_segments(t2);
        if c == '.' {
            assert((a + b).push(Seq::empty()) =~= a + b.push(Seq::empty()));
        } else {
            assert((a + b).update((a + b).len() - 1, (a + b).last().push(c)) =~= a + b.update(
                b.len() - 1,
                b.last().push(c),
            ));
        }
    }
}

proof fn lemma_split2(a: Seq<char>, b: Seq<char>)
    requires
        no_dot(a),
        no_dot(b),
    ensures
        dot_segments(a + seq!['.'] + b) == seq![a, b],
{
    lemma_dot_concat(a, b);
    lemma_no_dot_segments(a);
    lemma_no_dot_segments(b);
    assert(seq![a] + seq![b] =~= seq![a, b]);
}

proof fn lemma_split3(a: Seq<char>, b: Seq<char>, c: Seq<char>)
    requires
        no_dot(a),
        no_dot(b),
        no_dot(c),
    ensures
        dot_segments(a + seq!['.'] + b + seq!['.'] + c) == seq![a, b, c],
{
    lemma_split2(a, b);
    lemma_dot_concat(a + seq!['.'] + b, c);
    lemma_no_dot_segments(c);
    assert(seq![a, b] + seq![c] =~= seq![a, b, c]);
}

proof fn lemma_split4(a: Seq<char>, b: Seq<char>, c: Seq<char>, d: Seq<char>)
    requires
        no_dot(a),
        no_dot(b),
        no_dot(c),
        no_dot(d),
    ensures
        dot_segments(a + seq!['.'] + b + seq!['.'] + c + seq!['.'] + d) == seq![a, b, c, d],
{
    lemma_split3(a, b, c);
    lemma_dot_concat(a + seq!['.'] + b + seq!['.'] + c, d);
    lemma_no_dot_segments(d);
    assert(seq![a, b, c] + seq![d] =~= seq![a, b, c, d]);
}

proof fn lemma_entry_0()
    ensures
        dot_segments(dist_path_table()[0].0) == seq!["corpus"@, "block_bytes"@],
{
    reveal_strlit("corpus.block_bytes");
    reveal_strlit("corpus");
    reveal_strlit("block_bytes");
    assert("corpus.block_bytes"@ =~= "corpus"@ + seq!['.'] + "block_bytes"@);
    lemma_split2("corpus"@, "block_bytes"@);
}

proof fn lemma_entry_1()
    ensures
        dot_segments(dist_path_table()[1].0) == seq!["corpus"@, "trees"@, "shared_depth"@],
{
    reveal_strlit("corpus.trees.shared_depth");
    reveal_strlit("corpus");
    reveal_strlit("trees");
    reveal_strlit("shared_depth");
    assert("corpus.trees.shared_depth"@ =~= "corpus"@ + seq!['.'] + "trees"@ + seq!['.'] + "shared_depth"@);
    lemma_split3("corpus"@, "trees"@, "shared_depth"@);
}

proof fn lemma_entry_2()
    ensures
        dot_segments(dist_path_table()[2].0) == seq!["corpus"@, "trees"@, "roots"@, "popularity"@],
{
    reveal_strlit("corpus.trees.roots.popularity");
    reveal_strlit("corpus");
    reveal_strlit("trees");
    reveal_strlit("roots");
    reveal_strlit("popularity");
    assert("corpus.trees.roots.popularity"@ =~= "corpus"@ + seq!['.'] + "trees"@ + seq!['.'] + "roots"@ + seq!['.'] + "popularity"@);
    lemma_split4("corpus"@, "trees"@, "roots"@, "popularity"@);
}

proof fn lemma_entry_3()
    ensures
        dot_segments(dist_path_table()[3].0) == seq!["workload"@, "sessions"@, "turns"@],
{
    reveal_strlit("workload.sessions.turns");
    reveal_strlit("workload");
    reveal_strlit("sessions");
    reveal_strlit("turns");
    assert("workload.sessions.turns"@ =~= "workload"@ + seq!['.'] + "sessions"@ + seq!['.'] + "turns"@);
    lemma_split3("workload"@, "sessions"@, "turns"@);
}

proof fn lemma_entry_4()
    ensures
        dot_segments(dist_path_table()[4].0) == seq!["workload"@, "sessions"@, "think_time"@],
{
    reveal_strlit("workload.sessions.think_time");
    reveal_strlit("workload");
    reveal_strlit("sessions");
    reveal_strlit("think_time");
    assert("workload.sessions.think_time"@ =~= "workload"@ + seq!['.'] + "sessions"@ + seq!['.'] + "think_time"@);
    lemma_split3("workload"@, "sessions"@, "think_time"@);
}

proof fn lemma_entry_5()
    ensures
        dot_segments(dist_path_table()[5].0) == seq!["workload"@, "sessions"@, "private_depth"@],
{
    reveal_strlit("workload.sessions.private_depth");
    reveal_strlit("workload");
    reveal_strlit("sessions");
    reveal_strlit("private_depth");
    assert("workload.sessions.private_depth"@ =~= "workload"@ + seq!['.'] + "sessions"@ + seq!['.'] + "private_depth"@);
    lemma_split3("workload"@, "sessions"@, "private_depth"@);
}

proof fn lemma_entry_6()
    ensures
        dot_segments(dist_path_table()[6].0) == seq!["workload"@, "sessions"@, "growth_per_turn"@],
{
    reveal_strlit("workload.sessions.growth_per_turn");
    reveal_strlit("workload");
    reveal_strlit("sessions");
    reveal_strlit("growth_per_turn");
    assert("workload.sessions.growth_per_turn"@ =~= "workload"@ + seq!['.'] + "sessions"@ + seq!['.'] + "growth_per_turn"@);
    lemma_split3("workload"@, "sessions"@, "growth_per_turn"@);
}

proof fn lemma_entry_7()
    ensures
        dot_segments(dist_path_table()[7].0) == seq!["workload"@, "sessions"@, "spawn"@, "at_turn"@],
{
    reveal_strlit("workload.sessions.spawn.at_turn");
    reveal_strlit("workload");
    reveal_strlit("sessions");
    reveal_strlit("spawn");
    reveal_strlit("at_turn");
    assert("workload.sessions.spawn.at_turn"@ =~= "workload"@ + seq!['.'] + "sessions"@ + seq!['.'] + "spawn"@ + seq!['.'] + "at_turn"@);
    lemma_split4("workload"@, "sessions"@, "spawn"@, "at_turn"@);
}

proof fn lemma_entry_8()
    ensures
        dot_segments(dist_path_table()[8].0) == seq!["workload"@, "mix"@, "*"@, "turns"@],
{
    reveal_strlit("workload.mix.*.turns");
    reveal_strlit("workload");
    reveal_strlit("mix");
    reveal_strlit("*");
    reveal_strlit("turns");
    assert("workload.mix.*.turns"@ =~= "workload"@ + seq!['.'] + "mix"@ + seq!['.'] + "*"@ + seq!['.'] + "turns"@);
    lemma_split4("workload"@, "mix"@, "*"@, "turns"@);
}

proof fn lemma_entry_9()
    ensures
        dot_segments(dist_path_table()[9].0) == seq!["workload"@, "mix"@, "*"@, "think_time"@],
{
    reveal_strlit("workload.mix.*.think_time");
    reveal_strlit("workload");
    reveal_strlit("mix");
    reveal_strlit("*");
    reveal_strlit("think_time");
    assert("workload.mix.*.think_time"@ =~= "workload"@ + seq!['.'] + "mix"@ + seq!['.'] + "*"@ + seq!['.'] + "think_time"@);
    lemma_split4("workload"@, "mix"@, "*"@, "think_time"@);
}

proof fn lemma_entry_10()
    ensures
        dot_segments(dist_path_table()[10].0) == seq!["workload"@, "mix"@, "*"@, "private_depth"@],
{
    reveal_strlit("workload.mix.*.private_depth");
    reveal_strlit("workload");
    reveal_strlit("mix");
    reveal_strlit("*");
    reveal_strlit("private_depth");
    assert("workload.mix.*.private_depth"@ =~= "workload"@ + seq!['.'] + "mix"@ + seq!['.'] + "*"@ + seq!['.'] + "private_depth"@);
    lemma_split4("workload"@, "mix"@, "*"@, "private_depth"@);
}

proof fn lemma_entry_11()
    ensures
        dot_segments(dist_path_table()[11].0) == seq!["workload"@, "mix"@, "*"@, "growth_per_turn"@],
{
    reveal_strlit("workload.mix.*.growth_per_turn");
    reveal_strlit("workload");
    reveal_strlit("mix");
    reveal_strlit("*");
    reveal_strlit("growth_per_turn");
    assert("workload.mix.*.growth_per_turn"@ =~= "workload"@ + seq!['.'] + "mix"@ + seq!['.'] + "*"@ + seq!['.'] + "growth_per_turn"@);
    lemma_split4("workload"@, "mix"@, "*"@, "growth_per_turn"@);
}

proof fn lemma_entry_12()
    ensures
        dot_segments(dist_path_table()[12].0) == seq!["topology"@, "replication"@, "nodes_per_key"@],
{
    reveal_strlit("topology.replication.nodes_per_key");
    reveal_strlit("topology");
    reveal_strlit("replication");
    reveal_strlit("nodes_per_key");
    assert("topology.replication.nodes_per_key"@ =~= "topology"@ + seq!['.'] + "replication"@ + seq!['.'] + "nodes_per_key"@);
    lemma_split3("topology"@, "replication"@, "nodes_per_key"@);
}

proof fn lemma_words_differ()
    ensures
        "corpus"@ != "topology"@,
        "corpus"@ != "workload"@,
        "private_depth"@ != "growth_per_turn"@,
        "sessions"@ != "mix"@,
        "think_time"@ != "growth_per_turn"@,
        "think_time"@ != "private_depth"@,
        "turns"@ != "growth_per_turn"@,
        "turns"@ != "private_depth"@,
        "turns"@ != "think_time"@,
        "workload"@ != "topology"@,
{
    reveal_strlit("*");
    reveal_strlit("at_turn");
    reveal_strlit("block_bytes");
    reveal_strlit("corpus");
    reveal_strlit("growth_per_turn");
    reveal_strlit("mix");
    reveal_strlit("nodes_per_key");
    reveal_strlit("popularity");
    reveal_strlit("private_depth");
    reveal_strlit("replication");
    reveal_strlit("roots");
    reveal_strlit("sessions");
    reveal_strlit("shared_depth");
    reveal_strlit("spawn");
    reveal_strlit("think_time");
    reveal_strlit("topology");
    reveal_strlit("trees");
    reveal_strlit("turns");
    reveal_strlit("workload");
    assert("corpus"@ != "topology"@) by {
        assert("corpus"@.len() != "topology"@.len());
    }
    assert("corpus"@ != "workload"@) by {
        assert("corpus"@.len() != "workload"@.len());
    }
    assert("private_depth"@ != "growth_per_turn"@) by {
        assert("private_depth"@.len() != "growth_per_turn"@.len());
    }
    assert("sessions"@ != "mix"@) by {
        assert("sessions"@.len() != "mix"@.len());
    }
    assert("think_time"@ != "growth_per_turn"@) by {
        assert("think_time"@.len() != "growth_per_turn"@.len());
    }
    assert("think_time"@ != "private_depth"@) by {
        assert("think_time"@.len() != "private_depth"@.len());
    }
    assert("turns"@ != "growth_per_turn"@) by {
        assert("turns"@.len() != "growth_per_turn"@.len());
    }
    assert("turns"@ != "private_depth"@) by {
        assert("turns"@.len() != "private_depth"@.len());
    }
    assert("turns"@ != "think_time"@) by {
        assert("turns"@.len() != "think_time"@.len());
    }
    assert("workload"@ != "topology"@) by {
        assert("workload"@[0] != "topology"@[0]);
    }
}

proof fn lemma_skip(p: Seq<Seq<char>>, k: int)
    requires
        0 <= k < dist_path_table().len(),
        !segments_match(dot_segments(dist_path_table()[k].0), p),
    ensures
        first_unit(p, k) == first_unit(p, k + 1),
{
}

proof fn lemma_mismatch(pattern: Seq<Seq<char>>, p: Seq<Seq<char>>, j: int)
    requires
        pattern.len() != p.len() || (0 <= j < p.len() && pattern[j] != "*"@ && pattern[j] != p[j]),
    ensures
        !segments_match(pattern, p),
{
}

proof fn lemma_star_differs()
    ensures
        "at_turn"@ != "*"@,
        "block_bytes"@ != "*"@,
        "corpus"@ != "*"@,
        "growth_per_turn"@ != "*"@,
        "mix"@ != "*"@,
        "nodes_per_key"@ != "*"@,
        "popularity"@ != "*"@,
        "private_depth"@ != "*"@,
        "replication"@ != "*"@,
        "roots"@ != "*"@,
        "sessions"@ != "*"@,
        "shared_depth"@ != "*"@,
        "spawn"@ != "*"@,
        "think_time"@ != "*"@,
        "topology"@ != "*"@,
        "trees"@ != "*"@,
        "turns"@ != "*"@,
        "workload"@ != "*"@,
{
    reveal_strlit("*");
    reveal_strlit("at_turn");
    assert("at_turn"@ != "*"@) by {
        assert("at_turn"@.len() != "*"@.len());
    }
    reveal_strlit("block_bytes");
    assert("block_bytes"@ != "*"@) by {
        assert("block_bytes"@.len() != "*"@.len());
    }
    reveal_strlit("corpus");
    assert("corpus"@ != "*"@) by {
        assert("corpus"@.len() != "*"@.len());
    }
    reveal_strlit("growth_per_turn");
    assert("growth_per_turn"@ != "*"@) by {
        assert("growth_per_turn"@.len() != "*"@.len());
    }
    reveal_strlit("mix");
    assert("mix"@ != "*"@) by {
        assert("mix"@.len() != "*"@.len());
    }
    reveal_strlit("nodes_per_key");
    assert("nodes_per_key"@ != "*"@) by {
        assert("nodes_per_key"@.len() != "*"@.len());
    }
    reveal_strlit("popularity");
    assert("popularity"@ != "*"@) by {
        assert("popularity"@.len() != "*"@.len());
    }
    reveal_strlit("private_depth");
    assert("private_depth"@ != "*"@) by {
        assert("private_depth"@.len() != "*"@.len());
    }
    reveal_strlit("replication");
    assert("replication"@ != "*"@) by {
        assert("replication"@.len() != "*"@.len());
    }
    reveal_strlit("roots");
    assert("roots"@ != "*"@) by {
        assert("roots"@.len() != "*"@.len());
    }
    reveal_strlit("sessions");
    assert("sessions"@ != "*"@) by {
        assert("sessions"@.len() != "*"@.len());
    }
    reveal_strlit("shared_depth");
    assert("shared_depth"@ != "*"@) by {
        assert("shared_depth"@.len() != "*"@.len());
    }
    reveal_strlit("spawn");
    assert("spawn"@ != "*"@) by {
        assert("spawn"@.len() != "*"@.len());
    }
    reveal_strlit("think_time");
    assert("think_time"@ != "*"@) by {
        assert("think_time"@.len() != "*"@.len());
    }
    reveal_strlit("topology");
    assert("topology"@ != "*"@) by {
        assert("topology"@.len() != "*"@.len());
    }
    reveal_strlit("trees");
    assert("trees"@ != "*"@) by {
        assert("trees"@.len() != "*"@.len());
    }
    reveal_strlit("turns");
    assert("turns"@ != "*"@) by {
        assert("turns"@.len() != "*"@.len());
    }
    reveal_strlit("workload");
    assert("workload"@ != "*"@) by {
        assert("workload"@.len() != "*"@.len());
    }
}

proof fn lemma_path_0()
    ensures
        unit_of_path(seq!["corpus"@, "block_bytes"@]) == Some(Unit::Bytes),
{
    let p = seq!["corpus"@, "block_bytes"@];
    lemma_words_differ();
    lemma_star_differs();
    lemma_entry_0();
    assert(segments_match(dot_segments(dist_path_table()[0].0), p));
}

proof fn lemma_path_1()
    ensures
        unit_of_path(seq!["corpus"@, "trees"@, "shared_depth"@]) == Some(Unit::Count),
{
    let p = seq!["corpus"@, "trees"@, "shared_depth"@];
    lemma_words_differ();
    lemma_star_differs();
    lemma_entry_0();
    lemma_mismatch(dot_segments(dist_path_table()[0].0), p, 0);
    lemma_skip(p, 0);
    lemma_entry_1();
    assert(segments_match(dot_segments(dist_path_table()[1].0), p));
}

proof fn lemma_path_2()
    ensures
        unit_of_path(seq!["corpus"@, "trees"@, "roots"@, "popularity"@]) == Some(Unit::Count),
{
    let p = seq!["corpus"@, "trees"@, "roots"@, "popularity"@];
    lemma_words_differ();
    lemma_star_differs();
    lemma_entry_0();
    lemma_mismatch(dot_segments(dist_path_table()[0].0), p, 0);
    lemma_skip(p, 0);
    lemma_entry_1();
    lemma_mismatch(dot_segments(dist_path_table()[1].0), p, 0);
    lemma_skip(p, 1);
    lemma_entry_2();
    assert(segments_match(dot_segments(dist_path_table()[2].0), p));
}

proof fn lemma_path_3()
    ensures
        unit_of_path(seq!["workload"@, "sessions"@, "turns"@]) == Some(Unit::Count),
{
    let p = seq!["workload"@, "sessions"@, "turns"@];
    lemma_words_differ();
    lemma_star_differs();
    lemma_entry_0();
    lemma_mismatch(dot_segments(dist_path_table()[0].0), p, 0);
    lemma_skip(p, 0);
    lemma_entry_1();
    lemma_mismatch(dot_segments(dist_path_table()[1].0), p, 0);
    lemma_skip(p, 1);
    lemma_entry_2();
    lemma_mismatch(dot_segments(dist_path_table()[2].0), p, 0);
    lemma_skip(p, 2);
    lemma_entry_3();
    assert(segments_match(dot_segments(dist_path_table()[3].0), p));
}

proof fn lemma_path_4()
    ensures
        unit_of_path(seq!["workload"@, "sessions"@, "think_time"@]) == Some(Unit::Seconds),
{
    let p = seq!["workload"@, "sessions"@, "think_time"@];
    lemma_words_differ();
    lemma_star_differs();
    lemma_entry_0();
    lemma_mismatch(dot_segments(dist_path_table()[0].0), p, 0);
    lemma_skip(p, 0);
    lemma_entry_1();
    lemma_mismatch(dot_segments(dist_path_table()[1].0), p, 0);
    lemma_skip(p, 1);
    lemma_entry_2();
    lemma_mismatch(dot_segments(dist_path_table()[2].0), p, 0);
    lemma_skip(p, 2);
    lemma_entry_3();
    lemma_mismatch(dot_segments(dist_path_table()[3].0), p, 2);
    lemma_skip(p, 3);
    lemma_entry_4();
    assert(segments_match(dot_segments(dist_path_table()[4].0), p));
}

proof fn lemma_path_5()
    ensures
        unit_of_path(seq!["workload"@, "sessions"@, "private_depth"@]) == Some(Unit::Count),
{
    let p = seq!["workload"@, "sessions"@, "private_depth"@];
    lemma_words_differ();
    lemma_star_differs();
    lemma_entry_0();
    lemma_mismatch(dot_segments(dist_path_table()[0].0), p, 0);
    lemma_skip(p, 0);
    lemma_entry_1();
    lemma_mismatch(dot_segments(dist_path_table()[1].0), p, 0);
    lemma_skip(p, 1);
    lemma_entry_2();
    lemma_mismatch(dot_segments(dist_path_table()[2].0), p, 0);
    lemma_skip(p, 2);
    lemma_entry_3();
    lemma_mismatch(dot_segments(dist_path_table()[3].0), p, 2);
    lemma_skip(p, 3);
    lemma_entry_4();
    lemma_mismatch(dot_segments(dist_path_table()[4].0), p, 2);
    lemma_skip(p, 4);
    lemma_entry_5();
    assert(segments_match(dot_segments(dist_path_table()[5].0), p));
}

proof fn lemma_path_6()
    ensures
        unit_of_path(seq!["workload"@, "sessions"@, "growth_per_turn"@]) == Some(Unit::Count),
{
    let p = seq!["workload"@, "sessions"@, "growth_per_turn"@];
    lemma_words_differ();
    lemma_star_differs();
    lemma_entry_0();
    lemma_mismatch(dot_segments(dist_path_table()[0].0), p, 0);
    lemma_skip(p, 0);
    lemma_entry_1();
    lemma_mismatch(dot_segments(dist_path_table()[1].0), p, 0);
    lemma_skip(p, 1);
    lemma_entry_2();
    lemma_mismatch(dot_segments(dist_path_table()[2].0), p, 0);
    lemma_skip(p, 2);
    lemma_entry_3();
    lemma_mismatch(dot_segments(dist_path_table()[3].0), p, 2);
    lemma_skip(p, 3);
    lemma_entry_4();
    lemma_mismatch(dot_segments(dist_path_table()[4].0), p, 2);
    lemma_skip(p, 4);
    lemma_entry_5();
    lemma_mismatch(dot_segments(dist_path_table()[5].0), p, 2);
    lemma_skip(p, 5);
    lemma_entry_6();
    assert(segments_match(dot_segments(dist_path_table()[6].0), p));
}

proof fn lemma_path_7()
    ensures
        unit_of_path(seq!["workload"@, "sessions"@, "spawn"@, "at_turn"@]) == Some(Unit::Count),
{
    let p = seq!["workload"@, "sessions"@, "spawn"@, "at_turn"@];
    lemma_words_differ();
    lemma_star_differs();
    lemma_entry_0();
    lemma_mismatch(dot_segments(dist_path_table()[0].0), p, 0);
    lemma_skip(p, 0);
    lemma_entry_1();
    lemma_mismatch(dot_segments(dist_path_table()[1].0), p, 0);
    lemma_skip(p, 1);
    lemma_entry_2();
    lemma_mismatch(dot_segments(dist_path_table()[2].0), p, 0);
    lemma_skip(p, 2);
    lemma_entry_3();
    lemma_mismatch(dot_segments(dist_path_table()[3].0), p, 0);
    lemma_skip(p, 3);
    lemma_entry_4();
    lemma_mismatch(dot_segments(dist_path_table()[4].0), p, 0);
    lemma_skip(p, 4);
    lemma_entry_5();
    lemma_mismatch(dot_segments(dist_path_table()[5].0), p, 0);
    lemma_skip(p, 5);
    lemma_entry_6();
    lemma_mismatch(dot_segments(dist_path_table()[6].0), p, 0);
    lemma_skip(p, 6);
    lemma_entry_7();
    assert(segments_match(dot_segments(dist_path_table()[7].0), p));
}

proof fn lemma_path_8(x: Seq<char>)
    ensures
        unit_of_path(seq!["workload"@, "mix"@, x, "turns"@]) == Some(Unit::Count),
{
    let p = seq!["workload"@, "mix"@, x, "turns"@];
    lemma_words_differ();
    lemma_star_differs();
    lemma_entry_0();
    lemma_mismatch(dot_segments(dist_path_table()[0].0), p, 0);
    lemma_skip(p, 0);
    lemma_entry_1();
    lemma_mismatch(dot_segments(dist_path_table()[1].0), p, 0);
    lemma_skip(p, 1);
    lemma_entry_2();
    lemma_mismatch(dot_segments(dist_path_table()[2].0), p, 0);
    lemma_skip(p, 2);
    lemma_entry_3();
    lemma_mismatch(dot_segments(dist_path_table()[3].0), p, 0);
    lemma_skip(p, 3);
    lemma_entry_4();
    lemma_mismatch(dot_segments(dist_path_table()[4].0), p, 0);
    lemma_skip(p, 4);
    lemma_entry_5();
    lemma_mismatch(dot_segments(dist_path_table()[5].0), p, 0);
    lemma_skip(p, 5);
    lemma_entry_6();
    lemma_mismatch(dot_segments(dist_path_table()[6].0), p, 0);
    lemma_skip(p, 6);
    lemma_entry_7();
    lemma_mismatch(dot_segments(dist_path_table()[7].0), p, 1);
    lemma_skip(p, 7);
    lemma_entry_8();
    reveal_strlit("*");
    assert(segments_match(dot_segments(dist_path_table()[8].0), p));
}

proof fn lemma_path_9(x: Seq<char>)
    ensures
        unit_of_path(seq!["workload"@, "mix"@, x, "think_time"@]) == Some(Unit::Seconds),
{
    let p = seq!["workload"@, "mix"@, x, "think_time"@];
    lemma_words_differ();
    lemma_star_differs();
    lemma_entry_0();
    lemma_mismatch(dot_segments(dist_path_table()[0].0), p, 0);
    lemma_skip(p, 0);
    lemma_entry_1();
    lemma_mismatch(dot_segments(dist_path_table()[1].0), p, 0);
    lemma_skip(p, 1);
    lemma_entry_2();
    lemma_mismatch(dot_segments(dist_path_table()[2].0), p, 0);
    lemma_skip(p, 2);
    lemma_entry_3();
    lemma_mismatch(dot_segments(dist_path_table()[3].0), p, 0);
    lemma_skip(p, 3);
    lemma_entry_4();
    lemma_mismatch(dot_segments(dist_path_table()[4].0), p, 0);
    lemma_skip(p, 4);
    lemma_entry_5();
    lemma_mismatch(dot_segments(dist_path_table()[5].0), p, 0);
    lemma_skip(p, 5);
    lemma_entry_6();
    lemma_mismatch(dot_segments(dist_path_table()[6].0), p, 0);
    lemma_skip(p, 6);
    lemma_entry_7();
    lemma_mismatch(dot_segments(dist_path_table()[7].0), p, 1);
    lemma_skip(p, 7);
    lemma_entry_8();
    lemma_mismatch(dot_segments(dist_path_table()[8].0), p, 3);
    lemma_skip(p, 8);
    lemma_entry_9();
    reveal_strlit("*");
    assert(segments_match(dot_segments(dist_path_table()[9].0), p));
}

proof fn lemma_path_10(x: Seq<char>)
    ensures
        unit_of_path(seq!["workload"@, "mix"@, x, "private_depth"@]) == Some(Unit::Count),
{
    let p = seq!["workload"@, "mix"@, x, "private_depth"@];
    lemma_words_differ();
    lemma_star_differs();
    lemma_entry_0();
    lemma_mismatch(dot_segments(dist_path_table()[0].0), p, 0);
    lemma_skip(p, 0);
    lemma_entry_1();
    lemma_mismatch(dot_segments(dist_path_table()[1].0), p, 0);
    lemma_skip(p, 1);
    lemma_entry_2();
    lemma_mismatch(dot_segments(dist_path_table()[2].0), p, 0);
    lemma_skip(p, 2);
    lemma_entry_3();
    lemma_mismatch(dot_segments(dist_path_table()[3].0), p, 0);
    lemma_skip(p, 3);
    lemma_entry_4();
    lemma_mismatch(dot_segments(dist_path_table()[4].0), p, 0);
    lemma_skip(p, 4);
    lemma_entry_5();
    lemma_mismatch(dot_segments(dist_path_table()[5].0), p, 0);
    lemma_skip(p, 5);
    lemma_entry_6();
    lemma_mismatch(dot_segments(dist_path_table()[6].0), p, 0);
    lemma_skip(p, 6);
    lemma_entry_7();
    lemma_mismatch(dot_segments(dist_path_table()[7].0), p, 1);
    lemma_skip(p, 7);
    lemma_entry_8();
    lemma_mismatch(dot_segments(dist_path_table()[8].0), p, 3);
    lemma_skip(p, 8);
    lemma_entry_9();
    lemma_mismatch(dot_segments(dist_path_table()[9].0), p, 3);
    lemma_skip(p, 9);
    lemma_entry_10();
    reveal_strlit("*");
    assert(segments_match(dot_segments(dist_path_table()[10].0), p));
}

proof fn lemma_path_11(x: Seq<char>)
    ensures
        unit_of_path(seq!["workload"@, "mix"@, x, "growth_per_turn"@]) == Some(Unit::Count),
{
    let p = seq!["workload"@, "mix"@, x, "growth_per_turn"@];
    lemma_words_differ();
    lemma_star_differs();
    lemma_entry_0();
    lemma_mismatch(dot_segments(dist_path_table()[0].0), p, 0);
    lemma_skip(p, 0);
    lemma_entry_1();
    lemma_mismatch(dot_segments(dist_path_table()[1].0), p, 0);
    lemma_skip(p, 1);
    lemma_entry_2();
    lemma_mismatch(dot_segments(dist_path_table()[2].0), p, 0);
    lemma_skip(p, 2);
    lemma_entry_3();
    lemma_mismatch(dot_segments(dist_path_table()[3].0), p, 0);
    lemma_skip(p, 3);
    lemma_entry_4();
    lemma_mismatch(dot_segments(dist_path_table()[4].0), p, 0);
    lemma_skip(p, 4);
    lemma_entry_5();
    lemma_mismatch(dot_segments(dist_path_table()[5].0), p, 0);
    lemma_skip(p, 5);
    lemma_entry_6();
    lemma_mismatch(dot_segments(dist_path_table()[6].0), p, 0);
    lemma_skip(p, 6);
    lemma_entry_7();
    lemma_mismatch(dot_segments(dist_path_table()[7].0), p, 1);
    lemma_skip(p, 7);
    lemma_entry_8();
    lemma_mismatch(dot_segments(dist_path_table()[8].0), p, 3);
    lemma_skip(p, 8);
    lemma_entry_9();
    lemma_mismatch(dot_segments(dist_path_table()[9].0), p, 3);
    lemma_skip(p, 9);
    lemma_entry_10();
    lemma_mismatch(dot_segments(dist_path_table()[10].0), p, 3);
    lemma_skip(p, 10);
    lemma_entry_11();
    reveal_strlit("*");
    assert(segments_match(dot_segments(dist_path_table()[11].0), p));
}

proof fn lemma_path_12()
    ensures
        unit_of_path(seq!["topology"@, "replication"@, "nodes_per_key"@]) == Some(Unit::Count),
{
    let p = seq!["topology"@, "replication"@, "nodes_per_key"@];
    lemma_words_differ();
    lemma_star_differs();
    lemma_entry_0();
    lemma_mismatch(dot_segments(dist_path_table()[0].0), p, 0);
    lemma_skip(p, 0);
    lemma_entry_1();
    lemma_mismatch(dot_segments(dist_path_table()[1].0), p, 0);
    lemma_skip(p, 1);
    lemma_entry_2();
    lemma_mismatch(dot_segments(dist_path_table()[2].0), p, 0);
    lemma_skip(p, 2);
    lemma_entry_3();
    lemma_mismatch(dot_segments(dist_path_table()[3].0), p, 0);
    lemma_skip(p, 3);
    lemma_entry_4();
    lemma_mismatch(dot_segments(dist_path_table()[4].0), p, 0);
    lemma_skip(p, 4);
    lemma_entry_5();
    lemma_mismatch(dot_segments(dist_path_table()[5].0), p, 0);
    lemma_skip(p, 5);
    lemma_entry_6();
    lemma_mismatch(dot_segments(dist_path_table()[6].0), p, 0);
    lemma_skip(p, 6);
    lemma_entry_7();
    lemma_mismatch(dot_segments(dist_path_table()[7].0), p, 0);
    lemma_skip(p, 7);
    lemma_entry_8();
    lemma_mismatch(dot_segments(dist_path_table()[8].0), p, 0);
    lemma_skip(p, 8);
    lemma_entry_9();
    lemma_mismatch(dot_segments(dist_path_table()[9].0), p, 0);
    lemma_skip(p, 9);
    lemma_entry_10();
    lemma_mismatch(dot_segments(dist_path_table()[10].0), p, 0);
    lemma_skip(p, 10);
    lemma_entry_11();
    lemma_mismatch(dot_segments(dist_path_table()[11].0), p, 0);
    lemma_skip(p, 11);
    lemma_entry_12();
    assert(segments_match(dot_segments(dist_path_table()[12].0), p));
}

proof fn lemma_no_field_is_a_parameter()
    ensures
        !unit_bearing_table().contains("block_bytes"@),
        !unit_bearing_table().contains("shared_depth"@),
        !unit_bearing_table().contains("popularity"@),
        !unit_bearing_table().contains("turns"@),
        !unit_bearing_table().contains("think_time"@),
        !unit_bearing_table().contains("private_depth"@),
        !unit_bearing_table().contains("growth_per_turn"@),
        !unit_bearing_table().contains("at_turn"@),
        !unit_bearing_table().contains("nodes_per_key"@),
{
    reveal_strlit("block_bytes");
    reveal_strlit("shared_depth");
    reveal_strlit("popularity");
    reveal_strlit("turns");
    reveal_strlit("think_time");
    reveal_strlit("private_depth");
    reveal_strlit("growth_per_turn");
    reveal_strlit("at_turn");
    reveal_strlit("nodes_per_key");
    reveal_strlit("value");
    reveal_strlit("min");
    reveal_strlit("max");
    reveal_strlit("mean");
    reveal_strlit("stddev");
    reveal_strlit("median");
    reveal_strlit("scale");
    assert("block_bytes"@ != "value"@) by {
        assert("block_bytes"@.len() != "value"@.len());
    }
    assert("block_bytes"@ != "min"@) by {
        assert("block_bytes"@.len() != "min"@.len());
    }
    assert("block_bytes"@ != "max"@) by {
        assert("block_bytes"@.len() != "max"@.len());
    }
    assert("block_bytes"@ != "mean"@) by {
        assert("block_bytes"@.len() != "mean"@.len());
    }
    assert("block_bytes"@ != "stddev"@) by {
        assert("block_bytes"@.len() != "stddev"@.len());
    }
    assert("block_bytes"@ != "median"@) by {
        assert("block_bytes"@.len() != "median"@.len());
    }
    assert("block_bytes"@ != "scale"@) by {
        assert("block_bytes"@.len() != "scale"@.len());
    }
    assert(!unit_bearing_table().contains("block_bytes"@)) by {
        if unit_bearing_table().contains("block_bytes"@) {
            let j = choose|j: int| 0 <= j < unit_bearing_table().len() && unit_bearing_table()[j] == "block_bytes"@;
            assert(0 <= j < 7);
        }
    }
    assert("shared_depth"@ != "value"@) by {
        assert("shared_depth"@.len() != "value"@.len());
    }
    assert("shared_depth"@ != "min"@) by {
        assert("shared_depth"@.len() != "min"@.len());
    }
    assert("shared_depth"@ != "max"@) by {
        assert("shared_depth"@.len() != "max"@.len());
    }
    assert("shared_depth"@ != "mean"@) by {
        assert("shared_depth"@.len() != "mean"@.len());
    }
    assert("shared_depth"@ != "stddev"@) by {
        assert("shared_depth"@.len() != "stddev"@.len());
    }
    assert("shared_depth"@ != "median"@) by {
        assert("shared_depth"@.len() != "median"@.len());
    }
    assert("shared_depth"@ != "scale"@) by {
        assert("shared_depth"@.len() != "scale"@.len());
    }
    assert(!unit_bearing_table().contains("shared_depth"@)) by {
        if unit_bearing_table().contains("shared_depth"@) {
            let j = choose|j: int| 0 <= j < unit_bearing_table().len() && unit_bearing_table()[j] == "shared_depth"@;
            assert(0 <= j < 7);
        }
    }
    assert("popularity"@ != "value"@) by {
        assert("popularity"@.len() != "value"@.len());
    }
    assert("popularity"@ != "min"@) by {
        assert("popularity"@.len() != "min"@.len());
    }
    assert("popularity"@ != "max"@) by {
        assert("popularity"@.len() != "max"@.len());
    }
    assert("popularity"@ != "mean"@) by {
        assert("popularity"@.len() != "mean"@.len());
    }
    assert("popularity"@ != "stddev"@) by {
        assert("popularity"@.len() != "stddev"@.len());
    }
    assert("popularity"@ != "median"@) by {
        assert("popularity"@.len() != "median"@.len());
    }
    assert("popularity"@ != "scale"@) by {
        assert("popularity"@.len() != "scale"@.len());
    }
    assert(!unit_bearing_table().contains("popularity"@)) by {
        if unit_bearing_table().contains("popularity"@) {
            let j = choose|j: int| 0 <= j < unit_bearing_table().len() && unit_bearing_table()[j] == "popularity"@;
            assert(0 <= j < 7);
        }
    }
    assert("turns"@ != "value"@) by {
        assert("turns"@[0] != "value"@[0]);
    }
    assert("turns"@ != "min"@) by {
        assert("turns"@.len() != "min"@.len());
    }
    assert("turns"@ != "max"@) by {
        assert("turns"@.len() != "max"@.len());
    }
    assert("turns"@ != "mean"@) by {
        assert("turns"@.len() != "mean"@.len());
    }
    assert("turns"@ != "stddev"@) by {
        assert("turns"@.len() != "stddev"@.len());
    }
    assert("turns"@ != "median"@) by {
        assert("turns"@.len() != "median"@.len());
    }
    assert("turns"@ != "scale"@) by {
        assert("turns"@[0] != "scale"@[0]);
    }
    assert(!unit_bearing_table().contains("turns"@)) by {
        if unit_bearing_table().contains("turns"@) {
            let j = choose|j: int| 0 <= j < unit_bearing_table().len() && unit_bearing_table()[j] == "turns"@;
            assert(0 <= j < 7);
        }
    }
    assert("think_time"@ != "value"@) by {
        assert("think_time"@.len() != "value"@.len());
    }
    assert("think_time"@ != "min"@) by {
        assert("think_time"@.len() != "min"@.len());
    }
    assert("think_time"@ != "max"@) by {
        assert("think_time"@.len() != "max"@.len());
    }
    assert("think_time"@ != "mean"@) by {
        assert("think_time"@.len() != "mean"@.len());
    }
    assert("think_time"@ != "stddev"@) by {
        assert("think_time"@.len() != "stddev"@.len());
    }
    assert("think_time"@ != "median"@) by {
        assert("think_time"@.len() != "median"@.len());
    }
    assert("think_time"@ != "scale"@) by {
        assert("think_time"@.len() != "scale"@.len());
    }
    assert(!unit_bearing_table().contains("think_time"@)) by {
        if unit_bearing_table().contains("think_time"@) {
            let j = choose|j: int| 0 <= j < unit_bearing_table().len() && unit_bearing_table()[j] == "think_time"@;
            assert(0 <= j < 7);
        }
    }
    assert("private_depth"@ != "value"@) by {
        assert("private_depth"@.len() != "value"@.len());
    }
    assert("private_depth"@ != "min"@) by {
        assert("private_depth"@.len() != "min"@.len());
    }
    assert("private_depth"@ != "max"@) by {
        assert("private_depth"@.len() != "max"@.len());
    }
    assert("private_depth"@ != "mean"@) by {
        assert("private_depth"@.len() != "mean"@.len());
    }
    assert("private_depth"@ != "stddev"@) by {
        assert("private_depth"@.len() != "stddev"@.len());
    }
    assert("private_depth"@ != "median"@) by {
        assert("private_depth"@.len() != "median"@.len());
    }
    assert("private_depth"@ != "scale"@) by {
        assert("private_depth"@.len() != "scale"@.len());
    }
    assert(!unit_bearing_table().contains("private_depth"@)) by {
        if unit_bearing_table().contains("private_depth"@) {
            let j = choose|j: int| 0 <= j < unit_bearing_table().len() && unit_bearing_table()[j] == "private_depth"@;
            assert(0 <= j < 7);
        }
    }
    assert("growth_per_turn"@ != "value"@) by {
        assert("growth_per_turn"@.len() != "value"@.len());
    }
    assert("growth_per_turn"@ != "min"@) by {
        assert("growth_per_turn"@.len() != "min"@.len());
    }
    assert("growth_per_turn"@ != "max"@) by {
        assert("growth_per_turn"@.len() != "max"@.len());
    }
    assert("growth_per_turn"@ != "mean"@) by {
        assert("growth_per_turn"@.len() != "mean"@.len());
    }
    assert("growth_per_turn"@ != "stddev"@) by {
        assert("growth_per_turn"@.len() != "stddev"@.len());
    }
    assert("growth_per_turn"@ != "median"@) by {
        assert("growth_per_turn"@.len() != "median"@.len());
    }
    assert("growth_per_turn"@ != "scale"@) by {
        assert("growth_per_turn"@.len() != "scale"@.len());
    }
    assert(!unit_bearing_table().contains("growth_per_turn"@)) by {
        if unit_bearing_table().contains("growth_per_turn"@) {
            let j = choose|j: int| 0 <= j < unit_bearing_table().len() && unit_bearing_table()[j] == "growth_per_turn"@;
            assert(0 <= j < 7);
        }
    }
    assert("at_turn"@ != "value"@) by {
        assert("at_turn"@.len() != "value"@.len());
    }
    assert("at_turn"@ != "min"@) by {
        assert("at_turn"@.len() != "min"@.len());
    }
    assert("at_turn"@ != "max"@) by {
        assert("at_turn"@.len() != "max"@.len());
    }
    assert("at_turn"@ != "mean"@) by {
        assert("at_turn"@.len() != "mean"@.len());
    }
    assert("at_turn"@ != "stddev"@) by {
        assert("at_turn"@.len() != "stddev"@.len());
    }
    assert("at_turn"@ != "median"@) by {
        assert("at_turn"@.len() != "median"@.len());
    }
    assert("at_turn"@ != "scale"@) by {
        assert("at_turn"@.len() != "scale"@.len());
    }
    assert(!unit_bearing_table().contains("at_turn"@)) by {
        if unit_bearing_table().contains("at_turn"@) {
            let j = choose|j: int| 0 <= j < unit_bearing_table().len() && unit_bearing_table()[j] == "at_turn"@;
            assert(0 <= j < 7);
        }
    }
    assert("nodes_per_key"@ != "value"@) by {
        assert("nodes_per_key"@.len() != "value"@.len());
    }
    assert("nodes_per_key"@ != "min"@) by {
        assert("nodes_per_key"@.len() != "min"@.len());
    }
    assert("nodes_per_key"@ != "max"@) by {
        assert("nodes_per_key"@.len() != "max"@.len());
    }
    assert("nodes_per_key"@ != "mean"@) by {
        assert("nodes_per_key"@.len() != "mean"@.len());
    }
    assert("nodes_per_key"@ != "stddev"@) by {
        assert("nodes_per_key"@.len() != "stddev"@.len());
    }
    assert("nodes_per_key"@ != "median"@) by {
        assert("nodes_per_key"@.len() != "median"@.len());
    }
    assert("nodes_per_key"@ != "scale"@) by {
        assert("nodes_per_key"@.len() != "scale"@.len());
    }
    assert(!unit_bearing_table().contains("nodes_per_key"@)) by {
        if unit_bearing_table().contains("nodes_per_key"@) {
            let j = choose|j: int| 0 <= j < unit_bearing_table().len() && unit_bearing_table()[j] == "nodes_per_key"@;
            assert(0 <= j < 7);
        }
    }
}

proof fn lemma_parameters_have_no_dot()
    ensures
        forall|j: int| 0 <= j < unit_bearing_table().len() ==> no_dot(#[trigger] unit_bearing_table()[j]),
{
    reveal_strlit("value");
    reveal_strlit("min");
    reveal_strlit("max");
    reveal_strlit("mean");
    reveal_strlit("stddev");
    reveal_strlit("median");
    reveal_strlit("scale");
    assert forall|j: int| 0 <= j < unit_bearing_table().len() implies no_dot(#[trigger] unit_bearing_table()[j]) by {
        if j == 0 {
            assert(no_dot("value"@));
        }
        if j == 1 {
            assert(no_dot("min"@));
        }
        if j == 2 {
            assert(no_dot("max"@));
        }
        if j == 3 {
            assert(no_dot("mean"@));
        }
        if j == 4 {
            assert(no_dot("stddev"@));
        }
        if j == 5 {
            assert(no_dot("median"@));
        }
        if j == 6 {
            assert(no_dot("scale"@));
        }
    }
}

proof fn lemma_entry_lasts()
    ensures
        dot_segments(dist_path_table()[0].0).last() == "block_bytes"@,
        dot_segments(dist_path_table()[1].0).last() == "shared_depth"@,
        dot_segments(dist_path_table()[2].0).last() == "popularity"@,
        dot_segments(dist_path_table()[3].0).last() == "turns"@,
        dot_segments(dist_path_table()[4].0).last() == "think_time"@,
        dot_segments(dist_path_table()[5].0).last() == "private_depth"@,
        dot_segments(dist_path_table()[6].0).last() == "growth_per_turn"@,
        dot_segments(dist_path_table()[7].0).last() == "at_turn"@,
        dot_segments(dist_path_table()[8].0).last() == "turns"@,
        dot_segments(dist_path_table()[9].0).last() == "think_time"@,
        dot_segments(dist_path_table()[10].0).last() == "private_depth"@,
        dot_segments(dist_path_table()[11].0).last() == "growth_per_turn"@,
        dot_segments(dist_path_table()[12].0).last() == "nodes_per_key"@,
{
    lemma_entry_0();
    lemma_entry_1();
    lemma_entry_2();
    lemma_entry_3();
    lemma_entry_4();
    lemma_entry_5();
    lemma_entry_6();
    lemma_entry_7();
    lemma_entry_8();
    lemma_entry_9();
    lemma_entry_10();
    lemma_entry_11();
    lemma_entry_12();
}

/// No table entry names a path ending in a unit-bearing parameter.
proof fn lemma_no_entry_matches_a_parameter(q: Seq<Seq<char>>, k: int)
    requires
        q.len() > 0,
        unit_bearing_table().contains(q.last()),
        0 <= k,
    ensures
        first_unit(q, k) is None,
    decreases dist_path_table().len() - k,
{
    if k < dist_path_table().len() {
        lemma_entry_lasts();
        lemma_no_field_is_a_parameter();
        lemma_star_differs();
        lemma_entry_0();
        lemma_entry_1();
        lemma_entry_2();
        lemma_entry_3();
        lemma_entry_4();
        lemma_entry_5();
        lemma_entry_6();
        lemma_entry_7();
        lemma_entry_8();
        lemma_entry_9();
        lemma_entry_10();
        lemma_entry_11();
        lemma_entry_12();
        let pat = dot_segments(dist_path_table()[k].0);
        if segments_match(pat, q) {
            let n = q.len() - 1;
            assert(pat[n] == "*"@ || pat[n] == q[n]);
            assert(pat.last() == pat[n]);
            assert(false);
        }
        lemma_no_entry_matches_a_parameter(q, k + 1);
    }
}

/// A sweep axis naming a unit-bearing parameter inside a distribution —
/// `value`, `min`, `max`, `mean`, `stddev`, `median` or `scale` — carries the
/// unit of the distribution it sits in.
pub proof fn law_a_parameter_axis_takes_its_distribution_unit(s: Seq<char>, j: int)
    requires
        0 <= j < unit_bearing_table().len(),
    ensures
        unit_of_axis(s + seq!['.'] + unit_bearing_table()[j]) == unit_of_path(dot_segments(s)),
{
    let u = unit_bearing_table()[j];
    lemma_parameters_have_no_dot();
    lemma_dot_concat(s, u);
    lemma_no_dot_segments(u);
    let segs = dot_segments(s + seq!['.'] + u);
    assert(segs == dot_segments(s) + seq![u]);
    assert(segs.last() == u);
    assert(unit_bearing_table().contains(u));
    lemma_no_entry_matches_a_parameter(segs, 0);
    assert(segs.drop_last() =~= dot_segments(s));
}

/// Every distribution-valued field of the schema reads its scalars in its
/// own unit: sizes in bytes, think times in seconds, everything else a bare
/// count — so a unit suffix on a count is refused and `6s` on a think time is
/// six seconds. The fields of a mixture arm take the unit of the same field
/// of the sessions, whichever arm it is.
pub proof fn law_each_distribution_field_has_its_unit()
    ensures
        unit_of_path(dot_segments("corpus.block_bytes"@)) == Some(Unit::Bytes),
        unit_of_path(dot_segments("corpus.trees.shared_depth"@)) == Some(Unit::Count),
        unit_of_path(dot_segments("corpus.trees.roots.popularity"@)) == Some(Unit::Count),
        unit_of_path(dot_segments("workload.sessions.turns"@)) == Some(Unit::Count),
        unit_of_path(dot_segments("workload.sessions.think_time"@)) == Some(Unit::Seconds),
        unit_of_path(dot_segments("workload.sessions.private_depth"@)) == Some(Unit::Count),
        unit_of_path(dot_segments("workload.sessions.growth_per_turn"@)) == Some(Unit::Count),
        unit_of_path(dot_segments("workload.sessions.spawn.at_turn"@)) == Some(Unit::Count),
        forall|x: Seq<char>| no_dot(x) ==> #[trigger] unit_of_path(dot_segments("workload.mix."@ + x + ".turns"@)) == Some(Unit::Count),
        forall|x: Seq<char>| no_dot(x) ==> #[trigger] unit_of_path(dot_segments("workload.mix."@ + x + ".think_time"@)) == Some(Unit::Seconds),
        forall|x: Seq<char>| no_dot(x) ==> #[trigger] unit_of_path(dot_segments("workload.mix."@ + x + ".private_depth"@)) == Some(Unit::Count),
        forall|x: Seq<char>| no_dot(x) ==> #[trigger] unit_of_path(dot_segments("workload.mix."@ + x + ".growth_per_turn"@)) == Some(Unit::Count),
        unit_of_path(dot_segments("topology.replication.nodes_per_key"@)) == Some(Unit::Count),
{
    reveal_strlit("corpus.block_bytes");
    reveal_strlit("corpus");
    reveal_strlit("block_bytes");
    assert("corpus.block_bytes"@ =~= "corpus"@ + seq!['.'] + "block_bytes"@);
    lemma_split2("corpus"@, "block_bytes"@);
    lemma_path_0();
    reveal_strlit("corpus.trees.shared_depth");
    reveal_strlit("corpus");
    reveal_strlit("trees");
    reveal_strlit("shared_depth");
    assert("corpus.trees.shared_depth"@ =~= "corpus"@ + seq!['.'] + "trees"@ + seq!['.'] + "shared_depth"@);
    lemma_split3("corpus"@, "trees"@, "shared_depth"@);
    lemma_path_1();
    reveal_strlit("corpus.trees.roots.popularity");
    reveal_strlit("corpus");
    reveal_strlit("trees");
    reveal_strlit("roots");
    reveal_strlit("popularity");
    assert("corpus.trees.roots.popularity"@ =~= "corpus"@ + seq!['.'] + "trees"@ + seq!['.'] + "roots"@ + seq!['.'] + "popularity"@);
    lemma_split4("corpus"@, "trees"@, "roots"@, "popularity"@);
    lemma_path_2();
    reveal_strlit("workload.sessions.turns");
    reveal_strlit("workload");
    reveal_strlit("sessions");
    reveal_strlit("turns");
    assert("workload.sessions.turns"@ =~= "workload"@ + seq!['.'] + "sessions"@ + seq!['.'] + "turns"@);
    lemma_split3("workload"@, "sessions"@, "turns"@);
    lemma_path_3();
    reveal_strlit("workload.sessions.think_time");
    reveal_strlit("workload");
    reveal_strlit("sessions");
    reveal_strlit("think_time");
    assert("workload.sessions.think_time"@ =~= "workload"@ + seq!['.'] + "sessions"@ + seq!['.'] + "think_time"@);
    lemma_split3("workload"@, "sessions"@, "think_time"@);
    lemma_path_4();
    reveal_strlit("workload.sessions.private_depth");
    reveal_strlit("workload");
    reveal_strlit("sessions");
    reveal_strlit("private_depth");
    assert("workload.sessions.private_depth"@ =~= "workload"@ + seq!['.'] + "sessions"@ + seq!['.'] + "private_depth"@);
    lemma_split3("workload"@, "sessions"@, "private_depth"@);
    lemma_path_5();
    reveal_strlit("workload.sessions.growth_per_turn");
    reveal_strlit("workload");
    reveal_strlit("sessions");
    reveal_strlit("growth_per_turn");
    assert("workload.sessions.growth_per_turn"@ =~= "workload"@ + seq!['.'] + "sessions"@ + seq!['.'] + "growth_per_turn"@);
    lemma_split3("workload"@, "sessions"@, "growth_per_turn"@);
    lemma_path_6();
    reveal_strlit("workload.sessions.spawn.at_turn");
    reveal_strlit("workload");
    reveal_strlit("sessions");
    reveal_strlit("spawn");
    reveal_strlit("at_turn");
    assert("workload.sessions.spawn.at_turn"@ =~= "workload"@ + seq!['.'] + "sessions"@ + seq!['.'] + "spawn"@ + seq!['.'] + "at_turn"@);
    lemma_split4("workload"@, "sessions"@, "spawn"@, "at_turn"@);
    lemma_path_7();
    assert forall|x: Seq<char>| no_dot(x) implies #[trigger] unit_of_path(dot_segments("workload.mix."@ + x + ".turns"@)) == Some(Unit::Count) by {
        reveal_strlit("workload.mix.");
        reveal_strlit(".turns");
        reveal_strlit("workload");
        reveal_strlit("mix");
        reveal_strlit("turns");
        assert("workload.mix."@ + x + ".turns"@ =~= "workload"@ + seq!['.'] + "mix"@ + seq!['.'] + x + seq!['.'] + "turns"@);
        lemma_split4("workload"@, "mix"@, x, "turns"@);
        lemma_path_8(x);
    }
    assert forall|x: Seq<char>| no_dot(x) implies #[trigger] unit_of_path(dot_segments("workload.mix."@ + x + ".think_time"@)) == Some(Unit::Seconds) by {
        reveal_strlit("workload.mix.");
        reveal_strlit(".think_time");
        reveal_strlit("workload");
        reveal_strlit("mix");
        reveal_strlit("think_time");
        assert("workload.mix."@ + x + ".think_time"@ =~= "workload"@ + seq!['.'] + "mix"@ + seq!['.'] + x + seq!['.'] + "think_time"@);
        lemma_split4("workload"@, "mix"@, x, "think_time"@);
        lemma_path_9(x);
    }
    assert forall|x: Seq<char>| no_dot(x) implies #[trigger] unit_of_path(dot_segments("workload.mix."@ + x + ".private_depth"@)) == Some(Unit::Count) by {
        reveal_strlit("workload.mix.");
        reveal_strlit(".private_depth");
        reveal_strlit("workload");
        reveal_strlit("mix");
        reveal_strlit("private_depth");
        assert("workload.mix."@ + x + ".private_depth"@ =~= "workload"@ + seq!['.'] + "mix"@ + seq!['.'] + x + seq!['.'] + "private_depth"@);
        lemma_split4("workload"@, "mix"@, x, "private_depth"@);
        lemma_path_10(x);
    }
    assert forall|x: Seq<char>| no_dot(x) implies #[trigger] unit_of_path(dot_segments("workload.mix."@ + x + ".growth_per_turn"@)) == Some(Unit::Count) by {
        reveal_strlit("workload.mix.");
        reveal_strlit(".growth_per_turn");
        reveal_strlit("workload");
        reveal_strlit("mix");
        reveal_strlit("growth_per_turn");
        assert("workload.mix."@ + x + ".growth_per_turn"@ =~= "workload"@ + seq!['.'] + "mix"@ + seq!['.'] + x + seq!['.'] + "growth_per_turn"@);
        lemma_split4("workload"@, "mix"@, x, "growth_per_turn"@);
        lemma_path_11(x);
    }
    reveal_strlit("topology.replication.nodes_per_key");
    reveal_strlit("topology");
    reveal_strlit("replication");
    reveal_strlit("nodes_per_key");
    assert("topology.replication.nodes_per_key"@ =~= "topology"@ + seq!['.'] + "replication"@ + seq!['.'] + "nodes_per_key"@);
    lemma_split3("topology"@, "replication"@, "nodes_per_key"@);
    lemma_path_12();
}

} // verus!
