//! The document's structural rules.
//!
//! A workload document is checked as a whole and **every** violation is
//! reported, not just the first. The rules here are the ones that read only
//! counts, flags, names and orderings: which run length is stated, whether an
//! output mode can be bounded, whether a band table ascends, whether an
//! arrival model has what it needs, whether a membership event names a node
//! that exists. Each is a rejection: a document breaking one would produce
//! numbers that are wrong rather than merely noisy.
//!
//! [`DocumentFacts`] holds exactly what these rules read; the rules that weigh
//! a probability or a distribution's shape are checked where those values are.

use vstd::prelude::*;

use crate::schema::validate::{is_zero_duration, trimmed, zero_duration_text, Finding, Report, Severity};
use crate::schema::{ArrivalModel, Placement, SpawnPlacement};
use crate::text::{decimal, push_decimal};

verus! {

/// How the trunk's branching is written, as far as its ordering rules see it.
#[derive(Debug, Clone)]
pub enum BranchingShape {
    /// `auto` or a single fanout: nothing to order.
    Other,
    /// A per-depth profile: each segment's `from_depth`, in document order.
    Profile(Vec<u32>),
    /// A node-level process: each depth band's `from_depth`, in document order.
    Segments(Vec<u32>),
}

/// What the rules read of `topology`.
#[derive(Debug, Clone)]
pub struct TopologyFacts {
    /// The configured node names.
    pub nodes: Vec<String>,
    /// How sessions map onto nodes.
    pub placement: Placement,
    /// The node each membership event names, in document order.
    pub membership_nodes: Vec<String>,
}

/// What the rules read of `workload.sessions.spawn`.
#[derive(Debug, Clone, Copy)]
pub struct SpawnFacts {
    /// Children per spawning session.
    pub fanout: u32,
    /// Where children run, if stated.
    pub placement: Option<SpawnPlacement>,
    /// How many generations spawn.
    pub generations: u32,
}

/// The plain facts of a workload document that its structural rules read.
#[derive(Debug, Clone)]
pub struct DocumentFacts {
    /// Schema version.
    pub version: u32,
    /// `workload.sessions.growth_per_turn`'s band starts, when it is banded.
    pub session_bands: Option<Vec<u32>>,
    /// Each `workload.mix` arm's growth band starts, when that arm states a
    /// banded growth; one entry per arm, in order.
    pub mix_bands: Vec<Option<Vec<u32>>>,
    /// `duration` is stated.
    pub has_duration: bool,
    /// `requests` is stated.
    pub has_requests: bool,
    /// `blocks` is stated.
    pub has_blocks: bool,
    /// `unbounded: true` is stated.
    pub unbounded: bool,
    /// `run.mode`.
    pub mode: String,
    /// `corpus.trees.roots.count`.
    pub roots_count: u32,
    /// The `n` a Zipf root popularity states, if it states one.
    pub popularity_n: Option<u64>,
    /// How the trunk's branching is written.
    pub branching: BranchingShape,
    /// `run.wss_window` is written as a duration.
    pub window_is_duration: bool,
    /// `workload.arrival.model`.
    pub arrival_model: ArrivalModel,
    /// `workload.arrival.rate` is stated.
    pub has_rate: bool,
    /// `workload.arrival.concurrency` is stated.
    pub has_concurrency: bool,
    /// `topology`, if present.
    pub topology: Option<TopologyFacts>,
    /// `workload.sessions.spawn`, if present.
    pub spawn: Option<SpawnFacts>,
    /// `corpus.trees.churn.half_life`, if churn is configured.
    pub churn_half_life: Option<String>,
}

/// A finding as text: its severity, its rule and its message.
pub open spec fn fact_of(f: Finding) -> (Severity, Seq<char>, Seq<char>) {
    (f.severity, f.rule@, f.message@)
}

/// The findings of a report, as text.
pub open spec fn report_facts(s: Seq<Finding>) -> Seq<(Severity, Seq<char>, Seq<char>)> {
    s.map_values(|f: Finding| fact_of(f))
}

/// A rejection under `rule`.
pub open spec fn rejection(rule: Seq<char>, message: Seq<char>) -> (Severity, Seq<char>, Seq<char>) {
    (Severity::Reject, rule, message)
}

/// One rejection when `cond` holds, none otherwise.
pub open spec fn when(cond: bool, rule: Seq<char>, message: Seq<char>) -> Seq<(Severity, Seq<char>, Seq<char>)> {
    if cond {
        seq![rejection(rule, message)]
    } else {
        Seq::empty()
    }
}

/// The version rule: only version 1 is implemented.
pub open spec fn version_facts(d: DocumentFacts) -> Seq<(Severity, Seq<char>, Seq<char>)> {
    when(
        d.version != 1,
        "version"@,
        "schema version "@ + decimal(d.version as nat)
            + " is not implemented by this generator; only version 1 is"@,
    )
}

/// Rejections for each of the first `k` entries of `b` that does not rise
/// above the one before it; each message is `what`, the entry, and the one it
/// follows.
pub open spec fn ascending_facts(rule: Seq<char>, what: Seq<char>, b: Seq<u32>, k: int) -> Seq<
    (Severity, Seq<char>, Seq<char>),
>
    decreases k,
{
    if k <= 1 {
        Seq::empty()
    } else {
        ascending_facts(rule, what, b, k - 1) + when(
            b[k - 1] <= b[k - 2],
            rule,
            what + decimal(b[k - 1] as nat) + " follows "@ + decimal(b[k - 2] as nat),
        )
    }
}

/// Rule 24 on one banded growth table, `label` naming where it sits.
pub open spec fn table_facts(label: Seq<char>, b: Seq<u32>) -> Seq<(Severity, Seq<char>, Seq<char>)> {
    if b.len() == 0 {
        seq![
            rejection(
                "24"@,
                label + ".growth_per_turn.by_turns is empty; state a distribution or bands"@,
            ),
        ]
    } else {
        when(
            b[0] > 1,
            "24"@,
            label + ".growth_per_turn.by_turns starts at from_turns "@ + decimal(b[0] as nat)
                + ", so a session shorter than that names no band. The first band must start at 1"@,
        ) + ascending_facts(
            "24"@,
            label + ".growth_per_turn bands must ascend by from_turns; "@,
            b,
            b.len() as int,
        )
    }
}

/// Where a mixture arm's finding says it came from.
pub open spec fn mix_label(i: nat) -> Seq<char> {
    "workload.mix["@ + decimal(i) + "]"@
}

/// Rule 24 on the first `k` mixture arms.
pub open spec fn mix_facts(arms: Seq<Option<Vec<u32>>>, k: int) -> Seq<(Severity, Seq<char>, Seq<char>)>
    decreases k,
{
    if k <= 0 {
        Seq::empty()
    } else {
        mix_facts(arms, k - 1) + match arms[k - 1] {
            Some(b) => table_facts(mix_label((k - 1) as nat), b@),
            None => Seq::empty(),
        }
    }
}

/// Rule 24: every banded growth table is usable.
pub open spec fn growth_facts(d: DocumentFacts) -> Seq<(Severity, Seq<char>, Seq<char>)> {
    let sessions = match d.session_bands {
        Some(b) => table_facts("workload.sessions"@, b@),
        None => Seq::empty(),
    };
    sessions + mix_facts(d.mix_bands@, d.mix_bands@.len() as int)
}

/// How many run lengths the document states.
pub open spec fn run_lengths(d: DocumentFacts) -> nat {
    (if d.has_duration { 1nat } else { 0nat }) + (if d.has_requests { 1nat } else { 0nat })
        + (if d.has_blocks { 1nat } else { 0nat }) + (if d.unbounded { 1nat } else { 0nat })
}

/// Rule 19: exactly one run length.
pub open spec fn run_length_facts(d: DocumentFacts) -> Seq<(Severity, Seq<char>, Seq<char>)> {
    when(
        run_lengths(d) != 1,
        "19"@,
        "exactly one of duration | requests | blocks | unbounded is required, found "@ + decimal(
            run_lengths(d),
        ),
    )
}

/// Whether the output mode writes a file.
pub open spec fn file_mode(d: DocumentFacts) -> bool {
    d.mode@ == "jsonl"@ || d.mode@ == "parquet"@
}

/// The text of rule 20's rejection.
pub open spec fn needs_blocks_text() -> Seq<char> {
    "a file output mode requires `blocks`: a file's size is a block count, and duration/requests both leave it at the mercy of the drawn request-length distribution, so an overlong run fills the filesystem"@
}

/// The text of rule 21's rejection.
pub open spec fn file_unbounded_text() -> Seq<char> {
    "`unbounded` is meaningful only when nothing accumulates, i.e. when driving a server directly; a file output mode must be bounded"@
}

/// Rules 20 and 21: file output needs a block budget and forbids unbounded.
pub open spec fn file_facts(d: DocumentFacts) -> Seq<(Severity, Seq<char>, Seq<char>)> {
    when(file_mode(d) && !d.has_blocks, "20"@, needs_blocks_text()) + when(
        file_mode(d) && d.unbounded,
        "21"@,
        file_unbounded_text(),
    )
}

/// The text of rule 8's rejection of a stated root-popularity support.
pub open spec fn popularity_n_text(n: u64, count: u32) -> Seq<char> {
    "roots.popularity states n = "@ + decimal(n as nat)
        + ", but the support of a root-popularity distribution is `roots.count` ("@ + decimal(
        count as nat,
    )
        + ") and is not the author's to choose. Remove `n`: the generator supplies it, and a value here would be silently overwritten"@
}

/// Rule 8's ordering clauses on a branching profile or process.
pub open spec fn branching_facts(b: BranchingShape) -> Seq<(Severity, Seq<char>, Seq<char>)> {
    match b {
        BranchingShape::Other => Seq::empty(),
        BranchingShape::Profile(s) => when(
            s@.len() == 0,
            "8"@,
            "an explicit branching profile must have at least one segment"@,
        ) + when(
            s@.len() == 0 || s@[0] != 0,
            "8"@,
            "the first branching segment must start at from_depth 0"@,
        ) + ascending_facts(
            "8"@,
            "branching segments must ascend by from_depth; "@,
            s@,
            s@.len() as int,
        ),
        BranchingShape::Segments(s) => when(
            s@.len() == 0,
            "8"@,
            "a node-level branching process must have at least one depth band"@,
        ) + when(
            s@.len() == 0 || s@[0] != 0,
            "8"@,
            "the first branching band must start at from_depth 0"@,
        ) + ascending_facts(
            "8"@,
            "branching bands must ascend by from_depth; "@,
            s@,
            s@.len() as int,
        ),
    }
}

/// Rule 8: roots and the branching domain's structure.
pub open spec fn roots_facts(d: DocumentFacts) -> Seq<(Severity, Seq<char>, Seq<char>)> {
    when(d.roots_count < 1, "8"@, "roots.count must be at least 1"@) + match d.popularity_n {
        Some(n) => seq![rejection("8"@, popularity_n_text(n, d.roots_count))],
        None => Seq::empty(),
    } + branching_facts(d.branching)
}

/// The text of the rejection of a duration window under closed-loop arrival.
pub open spec fn window_text() -> Seq<char> {
    "run.wss_window given as a duration together with closed_loop arrival: converting it to a request count needs a configured rate, which only open_loop supplies. State the window as a request count instead"@
}

/// A duration-valued window needs a rate, which only open-loop arrival has;
/// and each arrival model needs its own parameter.
pub open spec fn arrival_facts(d: DocumentFacts) -> Seq<(Severity, Seq<char>, Seq<char>)> {
    when(d.window_is_duration && d.arrival_model == ArrivalModel::ClosedLoop, "15"@, window_text())
        + when(
        d.arrival_model == ArrivalModel::OpenLoop && !d.has_rate,
        "arrival"@,
        "open_loop arrival requires a `rate`"@,
    ) + when(
        d.arrival_model == ArrivalModel::ClosedLoop && !d.has_concurrency,
        "arrival"@,
        "closed_loop arrival requires `concurrency`, its bound on in-flight sessions"@,
    )
}

/// The names a list of strings holds.
pub open spec fn names(v: Seq<String>) -> Seq<Seq<char>> {
    v.map_values(|s: String| s@)
}

/// Rule 11 on the first `k` membership events.
pub open spec fn membership_facts(nodes: Seq<Seq<char>>, events: Seq<Seq<char>>, k: int) -> Seq<
    (Severity, Seq<char>, Seq<char>),
>
    decreases k,
{
    if k <= 0 {
        Seq::empty()
    } else {
        membership_facts(nodes, events, k - 1) + when(
            !nodes.contains(events[k - 1]),
            "11"@,
            "membership event names node `"@ + events[k - 1] + "`, which is not in topology.nodes"@,
        )
    }
}

/// Rule 11: membership events must name a configured node.
pub open spec fn topology_facts(d: DocumentFacts) -> Seq<(Severity, Seq<char>, Seq<char>)> {
    match d.topology {
        Some(t) => membership_facts(
            names(t.nodes@),
            names(t.membership_nodes@),
            t.membership_nodes@.len() as int,
        ),
        None => Seq::empty(),
    }
}

/// The number of nodes sessions run on.
pub open spec fn node_count(d: DocumentFacts) -> nat {
    match d.topology {
        Some(t) => t.nodes@.len(),
        None => 1,
    }
}

/// Whether spawned children go to another node.
pub open spec fn to_other_nodes(p: Option<SpawnPlacement>) -> bool {
    p != Some(SpawnPlacement::SameNode) && p != Some(SpawnPlacement::Any)
}

/// The text of rule 22's rejection of fan-out with nowhere to go.
pub open spec fn nowhere_text() -> Seq<char> {
    "spawn.fanout > 0 with other_nodes placement needs at least two topology.nodes: there is nowhere else for a child to go"@
}

/// The text of rule 23's rejection.
pub open spec fn per_request_spawn_text() -> Seq<char> {
    "spawn with per_request placement: per-request placement already scatters a session across nodes, so the fan-out's defining property -- an inherited prefix resident on one specific node -- does not hold, and the measurement would attribute to fan-out what placement caused"@
}

/// Rules 22 and 23: fan-out needs somewhere to go and a placement that keeps
/// an inherited prefix on one node.
pub open spec fn spawn_facts(d: DocumentFacts) -> Seq<(Severity, Seq<char>, Seq<char>)> {
    match d.spawn {
        Some(sp) => when(
            sp.fanout > 0 && to_other_nodes(sp.placement) && node_count(d) < 2,
            "22"@,
            nowhere_text(),
        ) + when(sp.generations < 1, "22"@, "spawn.generations must be at least 1"@) + when(
            sp.fanout > 0 && match d.topology {
                Some(t) => t.placement == Placement::PerRequest,
                None => false,
            },
            "23"@,
            per_request_spawn_text(),
        ),
        None => Seq::empty(),
    }
}

/// The text of rule 18's rejection.
pub open spec fn churn_clock_text() -> Seq<char> {
    "churn.half_life is a function of elapsed plan time, so a plan specified purely as a request or block count has no clock for it to be relative to: set `duration`"@
}

/// Rule 18: churn needs a clock.
pub open spec fn churn_facts(d: DocumentFacts) -> Seq<(Severity, Seq<char>, Seq<char>)> {
    match d.churn_half_life {
        Some(h) => when(
            !zero_duration_text(trimmed(h@)) && !d.has_duration,
            "18"@,
            churn_clock_text(),
        ),
        None => Seq::empty(),
    }
}

/// Every structural finding of a document, in rule order.
pub open spec fn findings_of(d: DocumentFacts) -> Seq<(Severity, Seq<char>, Seq<char>)> {
    version_facts(d) + growth_facts(d) + run_length_facts(d) + file_facts(d) + roots_facts(d)
        + arrival_facts(d) + topology_facts(d) + spawn_facts(d) + churn_facts(d)
}

/// Record a rejection.
fn refuse(r: &mut Report, rule: &'static str, message: String)
    ensures
        report_facts(final(r).findings@) == report_facts(old(r).findings@).push(
            rejection(rule@, message@),
        ),
{
    let ghost before = r.findings@;
    r.reject(rule, message);
    assert(report_facts(r.findings@) =~= report_facts(before).push(rejection(rule@, message@)));
}

/// Record a rejection when `cond` holds.
fn refuse_when(r: &mut Report, cond: bool, rule: &'static str, message: &'static str)
    ensures
        report_facts(final(r).findings@) == report_facts(old(r).findings@) + when(
            cond,
            rule@,
            message@,
        ),
{
    if cond {
        refuse(r, rule, String::from_str(message));
    } else {
        assert(report_facts(r.findings@) + Seq::empty() =~= report_facts(r.findings@));
    }
}

/// Rejections for each entry of `b` that does not rise above the one before.
fn check_ascending(r: &mut Report, rule: &'static str, what: &String, b: &Vec<u32>)
    ensures
        report_facts(final(r).findings@) == report_facts(old(r).findings@) + ascending_facts(
            rule@,
            what@,
            b@,
            b@.len() as int,
        ),
{
    let ghost start = report_facts(r.findings@);
    let mut k: usize = 1;
    assert(start + ascending_facts(rule@, what@, b@, 1) =~= start);
    if b.len() == 0 {
        assert(start + ascending_facts(rule@, what@, b@, 0) =~= start);
        return;
    }
    while k < b.len()
        invariant
            1 <= k <= b@.len(),
            report_facts(r.findings@) == start + ascending_facts(rule@, what@, b@, k as int),
        decreases b@.len() - k,
    {
        let cur = b[k];
        let prev = b[k - 1];
        let ghost mid = report_facts(r.findings@);
        if cur <= prev {
            let mut m = String::from_str(what.as_str());
            push_decimal(&mut m, cur as u64);
            m.append(" follows ");
            push_decimal(&mut m, prev as u64);
            refuse(r, rule, m);
        }
        proof {
            assert(ascending_facts(rule@, what@, b@, k + 1) == ascending_facts(rule@, what@, b@, k as int)
                + when(
                b@[k as int] <= b@[k - 1],
                rule@,
                what@ + decimal(b@[k as int] as nat) + " follows "@ + decimal(b@[k - 1] as nat),
            ));
            if cur <= prev {
                assert(report_facts(r.findings@) =~= start + ascending_facts(rule@, what@, b@, k + 1));
            } else {
                assert(report_facts(r.findings@) =~= start + ascending_facts(rule@, what@, b@, k + 1));
            }
        }
        k = k + 1;
    }
}

/// Rule 24 on one banded growth table.
fn check_table(r: &mut Report, label: &String, b: &Vec<u32>)
    ensures
        report_facts(final(r).findings@) == report_facts(old(r).findings@) + table_facts(label@, b@),
{
    let ghost start = report_facts(r.findings@);
    if b.len() == 0 {
        let mut m = String::from_str(label.as_str());
        m.append(".growth_per_turn.by_turns is empty; state a distribution or bands");
        refuse(r, "24", m);
        assert(report_facts(r.findings@) =~= start + table_facts(label@, b@));
        return;
    }
    if b[0] > 1 {
        let mut m = String::from_str(label.as_str());
        m.append(".growth_per_turn.by_turns starts at from_turns ");
        push_decimal(&mut m, b[0] as u64);
        m.append(", so a session shorter than that names no band. The first band must start at 1");
        refuse(r, "24", m);
    }
    let ghost mid = report_facts(r.findings@);
    assert(mid =~= start + when(
        b@[0] > 1,
        "24"@,
        label@ + ".growth_per_turn.by_turns starts at from_turns "@ + decimal(b@[0] as nat)
            + ", so a session shorter than that names no band. The first band must start at 1"@,
    ));
    let mut what = String::from_str(label.as_str());
    what.append(".growth_per_turn bands must ascend by from_turns; ");
    check_ascending(r, "24", &what, b);
    assert(report_facts(r.findings@) =~= start + table_facts(label@, b@));
}

/// Where mixture arm `i`'s findings say they came from.
fn mix_label_of(i: usize) -> (r: String)
    ensures
        r@ == mix_label(i as nat),
{
    let mut m = String::from_str("workload.mix[");
    push_decimal(&mut m, i as u64);
    m.append("]");
    m
}

/// Rule 24 on every banded growth table.
fn check_growth(r: &mut Report, d: &DocumentFacts)
    ensures
        report_facts(final(r).findings@) == report_facts(old(r).findings@) + growth_facts(*d),
{
    let ghost start = report_facts(r.findings@);
    match &d.session_bands {
        Some(b) => {
            let label = String::from_str("workload.sessions");
            check_table(r, &label, b);
        },
        None => {
            assert(start + Seq::empty() =~= start);
        },
    }
    let ghost mid = report_facts(r.findings@);
    let arms = &d.mix_bands;
    let mut i: usize = 0;
    assert(mid + mix_facts(arms@, 0) =~= mid);
    while i < arms.len()
        invariant
            i <= arms@.len(),
            arms@ == d.mix_bands@,
            report_facts(r.findings@) == mid + mix_facts(arms@, i as int),
        decreases arms@.len() - i,
    {
        let ghost before = report_facts(r.findings@);
        match &arms[i] {
            Some(b) => {
                let label = mix_label_of(i);
                check_table(r, &label, b);
            },
            None => {},
        }
        proof {
            assert(mix_facts(arms@, i + 1) == mix_facts(arms@, i as int) + match arms@[i as int] {
                Some(b) => table_facts(mix_label(i as nat), b@),
                None => Seq::empty(),
            });
            assert(report_facts(r.findings@) =~= mid + mix_facts(arms@, i + 1));
        }
        i = i + 1;
    }
    assert(report_facts(r.findings@) =~= start + growth_facts(*d));
}

/// Rule 8 on a branching profile or process.
fn check_branching(r: &mut Report, b: &BranchingShape)
    ensures
        report_facts(final(r).findings@) == report_facts(old(r).findings@) + branching_facts(*b),
{
    let ghost start = report_facts(r.findings@);
    match b {
        BranchingShape::Other => {
            assert(start + Seq::empty() =~= start);
        },
        BranchingShape::Profile(s) => {
            refuse_when(
                r,
                s.len() == 0,
                "8",
                "an explicit branching profile must have at least one segment",
            );
            refuse_when(
                r,
                s.len() == 0 || s[0] != 0,
                "8",
                "the first branching segment must start at from_depth 0",
            );
            let what = String::from_str("branching segments must ascend by from_depth; ");
            check_ascending(r, "8", &what, s);
            assert(report_facts(r.findings@) =~= start + branching_facts(*b));
        },
        BranchingShape::Segments(s) => {
            refuse_when(
                r,
                s.len() == 0,
                "8",
                "a node-level branching process must have at least one depth band",
            );
            refuse_when(
                r,
                s.len() == 0 || s[0] != 0,
                "8",
                "the first branching band must start at from_depth 0",
            );
            let what = String::from_str("branching bands must ascend by from_depth; ");
            check_ascending(r, "8", &what, s);
            assert(report_facts(r.findings@) =~= start + branching_facts(*b));
        },
    }
}

/// Whether `name` is one of `nodes`.
fn names_node(nodes: &Vec<String>, name: &String) -> (r: bool)
    ensures
        r == names(nodes@).contains(name@),
{
    let mut i: usize = 0;
    while i < nodes.len()
        invariant
            i <= nodes@.len(),
            forall|j: int| 0 <= j < i ==> names(nodes@)[j] != name@,
        decreases nodes@.len() - i,
    {
        if nodes[i] == *name {
            assert(names(nodes@)[i as int] == name@);
            return true;
        }
        i = i + 1;
    }
    assert(!names(nodes@).contains(name@)) by {
        if names(nodes@).contains(name@) {
            let j = choose|j: int| 0 <= j < names(nodes@).len() && names(nodes@)[j] == name@;
            assert(names(nodes@)[j] != name@);
        }
    }
    false
}

/// Rule 11 on every membership event.
fn check_membership(r: &mut Report, t: &TopologyFacts)
    ensures
        report_facts(final(r).findings@) == report_facts(old(r).findings@) + membership_facts(
            names(t.nodes@),
            names(t.membership_nodes@),
            t.membership_nodes@.len() as int,
        ),
{
    let ghost start = report_facts(r.findings@);
    let ghost ns = names(t.nodes@);
    let ghost es = names(t.membership_nodes@);
    let mut i: usize = 0;
    assert(start + membership_facts(ns, es, 0) =~= start);
    while i < t.membership_nodes.len()
        invariant
            i <= t.membership_nodes@.len(),
            ns == names(t.nodes@),
            es == names(t.membership_nodes@),
            report_facts(r.findings@) == start + membership_facts(ns, es, i as int),
        decreases t.membership_nodes@.len() - i,
    {
        let name = &t.membership_nodes[i];
        let known = names_node(&t.nodes, name);
        let ghost before = report_facts(r.findings@);
        if !known {
            let mut m = String::from_str("membership event names node `");
            m.append(name.as_str());
            m.append("`, which is not in topology.nodes");
            refuse(r, "11", m);
        }
        proof {
            assert(es[i as int] == name@);
            assert(membership_facts(ns, es, i + 1) == membership_facts(ns, es, i as int) + when(
                !ns.contains(es[i as int]),
                "11"@,
                "membership event names node `"@ + es[i as int] + "`, which is not in topology.nodes"@,
            ));
            assert(report_facts(r.findings@) =~= start + membership_facts(ns, es, i + 1));
        }
        i = i + 1;
    }
}

/// The version rule.
fn check_version(r: &mut Report, d: &DocumentFacts)
    ensures
        report_facts(final(r).findings@) == report_facts(old(r).findings@) + version_facts(*d),
{
    let ghost start = report_facts(r.findings@);
    if d.version != 1 {
        let mut m = String::from_str("schema version ");
        push_decimal(&mut m, d.version as u64);
        m.append(" is not implemented by this generator; only version 1 is");
        refuse(r, "version", m);
    }
    assert(report_facts(r.findings@) =~= start + version_facts(*d));
}

/// Rule 19.
fn check_run_length(r: &mut Report, d: &DocumentFacts)
    ensures
        report_facts(final(r).findings@) == report_facts(old(r).findings@) + run_length_facts(*d),
{
    let ghost start = report_facts(r.findings@);
    let n: u64 = (if d.has_duration { 1u64 } else { 0u64 }) + (if d.has_requests { 1u64 } else { 0u64 })
        + (if d.has_blocks { 1u64 } else { 0u64 }) + (if d.unbounded { 1u64 } else { 0u64 });
    assert(n == run_lengths(*d));
    if n != 1 {
        let mut m = String::from_str(
            "exactly one of duration | requests | blocks | unbounded is required, found ",
        );
        push_decimal(&mut m, n);
        refuse(r, "19", m);
    }
    assert(report_facts(r.findings@) =~= start + run_length_facts(*d));
}

/// Rules 20 and 21.
fn check_file(r: &mut Report, d: &DocumentFacts)
    ensures
        report_facts(final(r).findings@) == report_facts(old(r).findings@) + file_facts(*d),
{
    let ghost start = report_facts(r.findings@);
    let jsonl = String::from_str("jsonl");
    let parquet = String::from_str("parquet");
    let file = d.mode == jsonl || d.mode == parquet;
    assert(file == file_mode(*d));
    refuse_when(
        r,
        file && !d.has_blocks,
        "20",
        "a file output mode requires `blocks`: a file's size is a block count, and duration/requests both leave it at the mercy of the drawn request-length distribution, so an overlong run fills the filesystem",
    );
    refuse_when(
        r,
        file && d.unbounded,
        "21",
        "`unbounded` is meaningful only when nothing accumulates, i.e. when driving a server directly; a file output mode must be bounded",
    );
    assert(report_facts(r.findings@) =~= start + file_facts(*d));
}

/// Rule 8.
fn check_roots(r: &mut Report, d: &DocumentFacts)
    ensures
        report_facts(final(r).findings@) == report_facts(old(r).findings@) + roots_facts(*d),
{
    let ghost start = report_facts(r.findings@);
    refuse_when(r, d.roots_count < 1, "8", "roots.count must be at least 1");
    let ghost mid = report_facts(r.findings@);
    if let Some(pn) = d.popularity_n {
        let mut m = String::from_str("roots.popularity states n = ");
        push_decimal(&mut m, pn);
        m.append(", but the support of a root-popularity distribution is `roots.count` (");
        push_decimal(&mut m, d.roots_count as u64);
        m.append(
            ") and is not the author's to choose. Remove `n`: the generator supplies it, and a value here would be silently overwritten",
        );
        refuse(r, "8", m);
    }
    let ghost pop = match d.popularity_n {
        Some(n) => seq![rejection("8"@, popularity_n_text(n, d.roots_count))],
        None => Seq::<(Severity, Seq<char>, Seq<char>)>::empty(),
    };
    assert(report_facts(r.findings@) =~= mid + pop);
    check_branching(r, &d.branching);
    assert(report_facts(r.findings@) =~= start + roots_facts(*d));
}

/// Rule 15 and the arrival model's parameter.
fn check_arrival(r: &mut Report, d: &DocumentFacts)
    ensures
        report_facts(final(r).findings@) == report_facts(old(r).findings@) + arrival_facts(*d),
{
    let ghost start = report_facts(r.findings@);
    let closed = match d.arrival_model {
        ArrivalModel::ClosedLoop => true,
        ArrivalModel::OpenLoop => false,
    };
    refuse_when(
        r,
        d.window_is_duration && closed,
        "15",
        "run.wss_window given as a duration together with closed_loop arrival: converting it to a request count needs a configured rate, which only open_loop supplies. State the window as a request count instead",
    );
    refuse_when(r, !closed && !d.has_rate, "arrival", "open_loop arrival requires a `rate`");
    refuse_when(
        r,
        closed && !d.has_concurrency,
        "arrival",
        "closed_loop arrival requires `concurrency`, its bound on in-flight sessions",
    );
    assert(report_facts(r.findings@) =~= start + arrival_facts(*d));
}

/// Rule 11.
fn check_topology(r: &mut Report, d: &DocumentFacts)
    ensures
        report_facts(final(r).findings@) == report_facts(old(r).findings@) + topology_facts(*d),
{
    let ghost start = report_facts(r.findings@);
    match &d.topology {
        Some(t) => check_membership(r, t),
        None => {},
    }
    assert(report_facts(r.findings@) =~= start + topology_facts(*d));
}

/// Rules 22 and 23.
fn check_spawn(r: &mut Report, d: &DocumentFacts)
    ensures
        report_facts(final(r).findings@) == report_facts(old(r).findings@) + spawn_facts(*d),
{
    let ghost start = report_facts(r.findings@);
    if let Some(sp) = d.spawn {
        let nodes: usize = match &d.topology {
            Some(t) => t.nodes.len(),
            None => 1,
        };
        let other = match sp.placement {
            Some(SpawnPlacement::SameNode) => false,
            Some(SpawnPlacement::Any) => false,
            _ => true,
        };
        let per_request = match &d.topology {
            Some(t) => match t.placement {
                Placement::PerRequest => true,
                Placement::Sticky => false,
            },
            None => false,
        };
        assert(nodes == node_count(*d));
        assert(other == to_other_nodes(sp.placement));
        refuse_when(
            r,
            sp.fanout > 0 && other && nodes < 2,
            "22",
            "spawn.fanout > 0 with other_nodes placement needs at least two topology.nodes: there is nowhere else for a child to go",
        );
        refuse_when(r, sp.generations < 1, "22", "spawn.generations must be at least 1");
        refuse_when(
            r,
            sp.fanout > 0 && per_request,
            "23",
            "spawn with per_request placement: per-request placement already scatters a session across nodes, so the fan-out's defining property -- an inherited prefix resident on one specific node -- does not hold, and the measurement would attribute to fan-out what placement caused",
        );
    }
    assert(report_facts(r.findings@) =~= start + spawn_facts(*d));
}

/// Rule 18.
fn check_churn(r: &mut Report, d: &DocumentFacts)
    ensures
        report_facts(final(r).findings@) == report_facts(old(r).findings@) + churn_facts(*d),
{
    let ghost start = report_facts(r.findings@);
    if let Some(h) = &d.churn_half_life {
        let zero = is_zero_duration(h.as_str());
        refuse_when(
            r,
            !zero && !d.has_duration,
            "18",
            "churn.half_life is a function of elapsed plan time, so a plan specified purely as a request or block count has no clock for it to be relative to: set `duration`",
        );
    }
    assert(report_facts(r.findings@) =~= start + churn_facts(*d));
}

/// Validate the structural rules of a document, reporting **every**
/// violation, in rule order.
pub fn validate_facts(d: &DocumentFacts) -> (r: Report)
    ensures
        report_facts(r.findings@) == findings_of(*d),
{
    let mut r = Report { findings: Vec::new() };
    assert(report_facts(r.findings@) =~= Seq::empty());
    check_version(&mut r, d);
    check_growth(&mut r, d);
    check_run_length(&mut r, d);
    check_file(&mut r, d);
    check_roots(&mut r, d);
    check_arrival(&mut r, d);
    check_topology(&mut r, d);
    check_spawn(&mut r, d);
    check_churn(&mut r, d);
    assert(report_facts(r.findings@) =~= findings_of(*d));
    r
}

/// Whether some finding of `s` is under `rule`.
pub open spec fn has_rule(s: Seq<(Severity, Seq<char>, Seq<char>)>, rule: Seq<char>) -> bool {
    exists|i: int| 0 <= i < s.len() && #[trigger] s[i].1 == rule
}

/// Every finding of `s` rejects, under one of `rules`.
pub open spec fn rejects_under(s: Seq<(Severity, Seq<char>, Seq<char>)>, rules: Set<Seq<char>>) -> bool {
    forall|i: int| 0 <= i < s.len() ==> #[trigger] s[i].0 == Severity::Reject && rules.contains(s[i].1)
}

proof fn lemma_concat(
    a: Seq<(Severity, Seq<char>, Seq<char>)>,
    b: Seq<(Severity, Seq<char>, Seq<char>)>,
    ra: Set<Seq<char>>,
    rb: Set<Seq<char>>,
)
    requires
        rejects_under(a, ra),
        rejects_under(b, rb),
    ensures
        rejects_under(a + b, ra + rb),
        forall|rule: Seq<char>| #[trigger] has_rule(a + b, rule) == (has_rule(a, rule) || has_rule(b, rule)),
{
    assert forall|i: int| 0 <= i < (a + b).len() implies #[trigger] (a + b)[i].0 == Severity::Reject
        && (ra + rb).contains((a + b)[i].1) by {
        if i < a.len() {
            assert((a + b)[i] == a[i]);
        } else {
            assert((a + b)[i] == b[i - a.len()]);
        }
    }
    assert forall|rule: Seq<char>| #[trigger] has_rule(a + b, rule) == (has_rule(a, rule) || has_rule(b, rule)) by {
        if has_rule(a + b, rule) {
            let i = choose|i: int| 0 <= i < (a + b).len() && #[trigger] (a + b)[i].1 == rule;
            if i < a.len() {
                assert(a[i] == (a + b)[i]);
            } else {
                assert(b[i - a.len()] == (a + b)[i]);
            }
        }
        if has_rule(a, rule) {
            let i = choose|i: int| 0 <= i < a.len() && #[trigger] a[i].1 == rule;
            assert((a + b)[i] == a[i]);
        }
        if has_rule(b, rule) {
            let i = choose|i: int| 0 <= i < b.len() && #[trigger] b[i].1 == rule;
            assert((a + b)[i + a.len()] == b[i]);
        }
    }
}

proof fn lemma_when(c: bool, rule: Seq<char>, m: Seq<char>)
    ensures
        rejects_under(when(c, rule, m), set![rule]),
        forall|other: Seq<char>| #[trigger] has_rule(when(c, rule, m), other) == (c && other == rule),
{
    let s = when(c, rule, m);
    assert forall|other: Seq<char>| #[trigger] has_rule(s, other) == (c && other == rule) by {
        if c && other == rule {
            assert(s[0].1 == other);
        }
    }
}

proof fn lemma_ascending(rule: Seq<char>, what: Seq<char>, b: Seq<u32>, k: int)
    ensures
        rejects_under(ascending_facts(rule, what, b, k), set![rule]),
    decreases k,
{
    if k > 1 {
        lemma_ascending(rule, what, b, k - 1);
        let c = b[k - 1] <= b[k - 2];
        let m = what + decimal(b[k - 1] as nat) + " follows "@ + decimal(b[k - 2] as nat);
        lemma_when(c, rule, m);
        lemma_concat(ascending_facts(rule, what, b, k - 1), when(c, rule, m), set![rule], set![rule]);
        assert(set![rule] + set![rule] =~= set![rule]);
    }
}

proof fn lemma_table(label: Seq<char>, b: Seq<u32>)
    ensures
        rejects_under(table_facts(label, b), set!["24"@]),
{
    if b.len() > 0 {
        let w = "24"@;
        let what = label + ".growth_per_turn bands must ascend by from_turns; "@;
        let m = label + ".growth_per_turn.by_turns starts at from_turns "@ + decimal(b[0] as nat)
            + ", so a session shorter than that names no band. The first band must start at 1"@;
        lemma_when(b[0] > 1, w, m);
        lemma_ascending(w, what, b, b.len() as int);
        lemma_concat(when(b[0] > 1, w, m), ascending_facts(w, what, b, b.len() as int), set![w], set![w]);
        assert(set![w] + set![w] =~= set![w]);
    }
}

proof fn lemma_mix(arms: Seq<Option<Vec<u32>>>, k: int)
    ensures
        rejects_under(mix_facts(arms, k), set!["24"@]),
    decreases k,
{
    if k > 0 {
        lemma_mix(arms, k - 1);
        let tail = match arms[k - 1] {
            Some(b) => table_facts(mix_label((k - 1) as nat), b@),
            None => Seq::empty(),
        };
        match arms[k - 1] {
            Some(b) => lemma_table(mix_label((k - 1) as nat), b@),
            None => {},
        }
        lemma_concat(mix_facts(arms, k - 1), tail, set!["24"@], set!["24"@]);
        assert(set!["24"@] + set!["24"@] =~= set!["24"@]);
    }
}

proof fn lemma_membership(nodes: Seq<Seq<char>>, events: Seq<Seq<char>>, k: int)
    ensures
        rejects_under(membership_facts(nodes, events, k), set!["11"@]),
    decreases k,
{
    if k > 0 {
        lemma_membership(nodes, events, k - 1);
        let c = !nodes.contains(events[k - 1]);
        let m = "membership event names node `"@ + events[k - 1] + "`, which is not in topology.nodes"@;
        lemma_when(c, "11"@, m);
        lemma_concat(membership_facts(nodes, events, k - 1), when(c, "11"@, m), set!["11"@], set!["11"@]);
        assert(set!["11"@] + set!["11"@] =~= set!["11"@]);
    }
}

/// The rules are named distinctly.
proof fn lemma_rule_names()
    ensures
        "version"@ != "19"@ && "24"@ != "19"@ && "20"@ != "19"@ && "21"@ != "19"@ && "8"@ != "19"@,
        "15"@ != "19"@ && "arrival"@ != "19"@ && "11"@ != "19"@ && "22"@ != "19"@ && "23"@ != "19"@,
        "18"@ != "19"@ && "20"@ != "21"@ && "15"@ != "arrival"@ && "22"@ != "23"@,
{
    reveal_strlit("version");
    reveal_strlit("19");
    reveal_strlit("24");
    reveal_strlit("20");
    reveal_strlit("21");
    reveal_strlit("8");
    reveal_strlit("15");
    reveal_strlit("arrival");
    reveal_strlit("11");
    reveal_strlit("22");
    reveal_strlit("23");
    reveal_strlit("18");
    assert("version"@[0] != "19"@[0]);
    assert("24"@[0] != "19"@[0]);
    assert("20"@[0] != "19"@[0]);
    assert("21"@[0] != "19"@[0]);
    assert("8"@[0] != "19"@[0]);
    assert("15"@[1] != "19"@[1]);
    assert("arrival"@[0] != "19"@[0]);
    assert("11"@[1] != "19"@[1]);
    assert("22"@[0] != "19"@[0]);
    assert("23"@[0] != "19"@[0]);
    assert("18"@[1] != "19"@[1]);
    assert("20"@[1] != "21"@[1]);
    assert("15"@.len() != "arrival"@.len());
    assert("22"@[1] != "23"@[1]);
}

proof fn lemma_not_under(s: Seq<(Severity, Seq<char>, Seq<char>)>, rules: Set<Seq<char>>, rule: Seq<char>)
    requires
        rejects_under(s, rules),
        !rules.contains(rule),
    ensures
        !has_rule(s, rule),
{
    if has_rule(s, rule) {
        let i = choose|i: int| 0 <= i < s.len() && #[trigger] s[i].1 == rule;
        assert(s[i].0 == Severity::Reject);
    }
}

proof fn lemma_growth_rules(d: DocumentFacts)
    ensures
        rejects_under(growth_facts(d), set!["24"@]),
{
    let sessions = match d.session_bands {
        Some(b) => table_facts("workload.sessions"@, b@),
        None => Seq::empty(),
    };
    match d.session_bands {
        Some(b) => lemma_table("workload.sessions"@, b@),
        None => {},
    }
    lemma_mix(d.mix_bands@, d.mix_bands@.len() as int);
    lemma_concat(sessions, mix_facts(d.mix_bands@, d.mix_bands@.len() as int), set!["24"@], set!["24"@]);
    assert(set!["24"@] + set!["24"@] =~= set!["24"@]);
}

proof fn lemma_file_rules(d: DocumentFacts)
    ensures
        rejects_under(file_facts(d), set!["20"@, "21"@]),
{
    lemma_when(file_mode(d) && !d.has_blocks, "20"@, needs_blocks_text());
    lemma_when(file_mode(d) && d.unbounded, "21"@, file_unbounded_text());
    lemma_concat(
        when(file_mode(d) && !d.has_blocks, "20"@, needs_blocks_text()),
        when(file_mode(d) && d.unbounded, "21"@, file_unbounded_text()),
        set!["20"@],
        set!["21"@],
    );
    assert(set!["20"@] + set!["21"@] =~= set!["20"@, "21"@]);
}

proof fn lemma_ordering_rules(m1: Seq<char>, m2: Seq<char>, w: Seq<char>, s: Seq<u32>)
    ensures
        rejects_under(
            when(s.len() == 0, "8"@, m1) + when(s.len() == 0 || s[0] != 0, "8"@, m2) + ascending_facts(
                "8"@,
                w,
                s,
                s.len() as int,
            ),
            set!["8"@],
        ),
{
    lemma_when(s.len() == 0, "8"@, m1);
    lemma_when(s.len() == 0 || s[0] != 0, "8"@, m2);
    lemma_ascending("8"@, w, s, s.len() as int);
    lemma_concat(when(s.len() == 0, "8"@, m1), when(s.len() == 0 || s[0] != 0, "8"@, m2), set!["8"@], set!["8"@]);
    assert(set!["8"@] + set!["8"@] =~= set!["8"@]);
    lemma_concat(
        when(s.len() == 0, "8"@, m1) + when(s.len() == 0 || s[0] != 0, "8"@, m2),
        ascending_facts("8"@, w, s, s.len() as int),
        set!["8"@],
        set!["8"@],
    );
}

proof fn lemma_roots_rules(d: DocumentFacts)
    ensures
        rejects_under(roots_facts(d), set!["8"@]),
{
    let r8 = when(d.roots_count < 1, "8"@, "roots.count must be at least 1"@);
    lemma_when(d.roots_count < 1, "8"@, "roots.count must be at least 1"@);
    let pop = match d.popularity_n {
        Some(n) => seq![rejection("8"@, popularity_n_text(n, d.roots_count))],
        None => Seq::<(Severity, Seq<char>, Seq<char>)>::empty(),
    };
    match d.popularity_n {
        Some(n) => lemma_when(true, "8"@, popularity_n_text(n, d.roots_count)),
        None => {},
    }
    match d.branching {
        BranchingShape::Other => {},
        BranchingShape::Profile(s) => lemma_ordering_rules(
            "an explicit branching profile must have at least one segment"@,
            "the first branching segment must start at from_depth 0"@,
            "branching segments must ascend by from_depth; "@,
            s@,
        ),
        BranchingShape::Segments(s) => lemma_ordering_rules(
            "a node-level branching process must have at least one depth band"@,
            "the first branching band must start at from_depth 0"@,
            "branching bands must ascend by from_depth; "@,
            s@,
        ),
    }
    let br = branching_facts(d.branching);
    assert(set!["8"@] + set!["8"@] =~= set!["8"@]);
    lemma_concat(r8, pop, set!["8"@], set!["8"@]);
    lemma_concat(r8 + pop, br, set!["8"@], set!["8"@]);
}

proof fn lemma_arrival_rules(d: DocumentFacts)
    ensures
        rejects_under(arrival_facts(d), set!["15"@, "arrival"@]),
{
    let c1 = d.window_is_duration && d.arrival_model == ArrivalModel::ClosedLoop;
    let c2 = d.arrival_model == ArrivalModel::OpenLoop && !d.has_rate;
    let c3 = d.arrival_model == ArrivalModel::ClosedLoop && !d.has_concurrency;
    let m2 = "open_loop arrival requires a `rate`"@;
    let m3 = "closed_loop arrival requires `concurrency`, its bound on in-flight sessions"@;
    lemma_when(c1, "15"@, window_text());
    lemma_when(c2, "arrival"@, m2);
    lemma_when(c3, "arrival"@, m3);
    lemma_concat(when(c1, "15"@, window_text()), when(c2, "arrival"@, m2), set!["15"@], set!["arrival"@]);
    lemma_concat(
        when(c1, "15"@, window_text()) + when(c2, "arrival"@, m2),
        when(c3, "arrival"@, m3),
        set!["15"@] + set!["arrival"@],
        set!["arrival"@],
    );
    assert(set!["15"@] + set!["arrival"@] + set!["arrival"@] =~= set!["15"@, "arrival"@]);
}

proof fn lemma_topology_rules(d: DocumentFacts)
    ensures
        rejects_under(topology_facts(d), set!["11"@]),
{
    match d.topology {
        Some(tp) => lemma_membership(names(tp.nodes@), names(tp.membership_nodes@), tp.membership_nodes@.len() as int),
        None => {},
    }
}

proof fn lemma_spawn_rules(d: DocumentFacts)
    ensures
        rejects_under(spawn_facts(d), set!["22"@, "23"@]),
{
    match d.spawn {
        Some(spf) => {
            let c1 = spf.fanout > 0 && to_other_nodes(spf.placement) && node_count(d) < 2;
            let c2 = spf.generations < 1;
            let c3 = spf.fanout > 0 && match d.topology {
                Some(tp) => tp.placement == Placement::PerRequest,
                None => false,
            };
            let m2 = "spawn.generations must be at least 1"@;
            lemma_when(c1, "22"@, nowhere_text());
            lemma_when(c2, "22"@, m2);
            lemma_when(c3, "23"@, per_request_spawn_text());
            lemma_concat(when(c1, "22"@, nowhere_text()), when(c2, "22"@, m2), set!["22"@], set!["22"@]);
            lemma_concat(
                when(c1, "22"@, nowhere_text()) + when(c2, "22"@, m2),
                when(c3, "23"@, per_request_spawn_text()),
                set!["22"@] + set!["22"@],
                set!["23"@],
            );
            assert(set!["22"@] + set!["22"@] + set!["23"@] =~= set!["22"@, "23"@]);
        },
        None => {},
    }
}

proof fn lemma_churn_rules(d: DocumentFacts)
    ensures
        rejects_under(churn_facts(d), set!["18"@]),
{
    match d.churn_half_life {
        Some(h) => lemma_when(!zero_duration_text(trimmed(h@)) && !d.has_duration, "18"@, churn_clock_text()),
        None => {},
    }
}

/// Every structural finding is a rejection, and rule 19 is found exactly when
/// the document does not state exactly one run length: a missing or doubled
/// run length is never passed over, and never reported where there is none.
pub proof fn law_every_structural_finding_rejects(d: DocumentFacts)
    ensures
        forall|i: int|
            0 <= i < findings_of(d).len() ==> #[trigger] findings_of(d)[i].0 == Severity::Reject,
        has_rule(findings_of(d), "19"@) <==> run_lengths(d) != 1,
{
    lemma_rule_names();
    let r19 = "19"@;
    let v = version_facts(d);
    let g = growth_facts(d);
    let rl = run_length_facts(d);
    let f = file_facts(d);
    let ro = roots_facts(d);
    let a = arrival_facts(d);
    let t = topology_facts(d);
    let sp = spawn_facts(d);
    let c = churn_facts(d);
    lemma_when(
        d.version != 1,
        "version"@,
        "schema version "@ + decimal(d.version as nat)
            + " is not implemented by this generator; only version 1 is"@,
    );
    lemma_growth_rules(d);
    lemma_when(
        run_lengths(d) != 1,
        r19,
        "exactly one of duration | requests | blocks | unbounded is required, found "@ + decimal(
            run_lengths(d),
        ),
    );
    lemma_file_rules(d);
    lemma_roots_rules(d);
    lemma_arrival_rules(d);
    lemma_topology_rules(d);
    lemma_spawn_rules(d);
    lemma_churn_rules(d);
    lemma_not_under(v, set!["version"@], r19);
    lemma_not_under(g, set!["24"@], r19);
    lemma_not_under(f, set!["20"@, "21"@], r19);
    lemma_not_under(ro, set!["8"@], r19);
    lemma_not_under(a, set!["15"@, "arrival"@], r19);
    lemma_not_under(t, set!["11"@], r19);
    lemma_not_under(sp, set!["22"@, "23"@], r19);
    lemma_not_under(c, set!["18"@], r19);
    let s1 = set!["version"@];
    lemma_concat(v, g, s1, set!["24"@]);
    let s2 = s1 + set!["24"@];
    lemma_concat(v + g, rl, s2, set![r19]);
    let s3 = s2 + set![r19];
    lemma_concat(v + g + rl, f, s3, set!["20"@, "21"@]);
    let s4 = s3 + set!["20"@, "21"@];
    lemma_concat(v + g + rl + f, ro, s4, set!["8"@]);
    let s5 = s4 + set!["8"@];
    lemma_concat(v + g + rl + f + ro, a, s5, set!["15"@, "arrival"@]);
    let s6 = s5 + set!["15"@, "arrival"@];
    lemma_concat(v + g + rl + f + ro + a, t, s6, set!["11"@]);
    let s7 = s6 + set!["11"@];
    lemma_concat(v + g + rl + f + ro + a + t, sp, s7, set!["22"@, "23"@]);
    let s8 = s7 + set!["22"@, "23"@];
    lemma_concat(v + g + rl + f + ro + a + t + sp, c, s8, set!["18"@]);
    assert(findings_of(d) == v + g + rl + f + ro + a + t + sp + c);
    let all = findings_of(d);
    assert forall|i: int| 0 <= i < all.len() implies #[trigger] all[i].0 == Severity::Reject by {
        assert(rejects_under(all, s8 + set!["18"@]));
    }
}

/// Whether the structural report of `d` rejects under `rule` with `message`.
pub open spec fn reports(d: DocumentFacts, rule: Seq<char>, message: Seq<char>) -> bool {
    findings_of(d).contains((Severity::Reject, rule, message))
}

proof fn lemma_contains_concat(
    a: Seq<(Severity, Seq<char>, Seq<char>)>,
    b: Seq<(Severity, Seq<char>, Seq<char>)>,
    x: (Severity, Seq<char>, Seq<char>),
)
    requires
        a.contains(x) || b.contains(x),
    ensures
        (a + b).contains(x),
{
    if a.contains(x) {
        let i = choose|i: int| 0 <= i < a.len() && a[i] == x;
        assert((a + b)[i] == x);
    } else {
        let i = choose|i: int| 0 <= i < b.len() && b[i] == x;
        assert((a + b)[a.len() + i] == x);
    }
}

proof fn lemma_when_contains(c: bool, rule: Seq<char>, m: Seq<char>)
    requires
        c,
    ensures
        (when(c, rule, m)).contains((Severity::Reject, rule, m)),
{
    assert(when(c, rule, m)[0] == (Severity::Reject, rule, m));
}

proof fn lemma_ascending_contains(rule: Seq<char>, what: Seq<char>, b: Seq<u32>, k: int, i: int)
    requires
        1 <= i < k <= b.len(),
        b[i] <= b[i - 1],
    ensures
        ascending_facts(rule, what, b, k).contains(
            (Severity::Reject, rule, what + decimal(b[i] as nat) + " follows "@ + decimal(b[i - 1] as nat)),
        ),
    decreases k,
{
    let x = (Severity::Reject, rule, what + decimal(b[i] as nat) + " follows "@ + decimal(b[i - 1] as nat));
    let c = b[k - 1] <= b[k - 2];
    let m = what + decimal(b[k - 1] as nat) + " follows "@ + decimal(b[k - 2] as nat);
    if i == k - 1 {
        lemma_when_contains(c, rule, m);
        lemma_contains_concat(ascending_facts(rule, what, b, k - 1), when(c, rule, m), x);
    } else {
        lemma_ascending_contains(rule, what, b, k - 1, i);
        lemma_contains_concat(ascending_facts(rule, what, b, k - 1), when(c, rule, m), x);
    }
}

/// What rule 24 reports of a banded growth table: an empty table, a first
/// band above 1, and every band not above the one before.
proof fn lemma_table_contains(label: Seq<char>, b: Seq<u32>)
    ensures
        b.len() == 0 ==> table_facts(label, b).contains(
            (
                Severity::Reject,
                "24"@,
                label + ".growth_per_turn.by_turns is empty; state a distribution or bands"@,
            ),
        ),
        b.len() > 0 && b[0] > 1 ==> table_facts(label, b).contains(
            (
                Severity::Reject,
                "24"@,
                label + ".growth_per_turn.by_turns starts at from_turns "@ + decimal(b[0] as nat)
                    + ", so a session shorter than that names no band. The first band must start at 1"@,
            ),
        ),
        forall|i: int|
            1 <= i < b.len() && #[trigger] b[i] <= b[i - 1] ==> table_facts(label, b).contains(
                (
                    Severity::Reject,
                    "24"@,
                    label + ".growth_per_turn bands must ascend by from_turns; "@ + decimal(b[i] as nat)
                        + " follows "@ + decimal(b[i - 1] as nat),
                ),
            ),
{
    if b.len() == 0 {
        assert(table_facts(label, b)[0].2 == label
            + ".growth_per_turn.by_turns is empty; state a distribution or bands"@);
    } else {
        let m0 = label + ".growth_per_turn.by_turns starts at from_turns "@ + decimal(b[0] as nat)
            + ", so a session shorter than that names no band. The first band must start at 1"@;
        let what = label + ".growth_per_turn bands must ascend by from_turns; "@;
        let first = when(b[0] > 1, "24"@, m0);
        let asc = ascending_facts("24"@, what, b, b.len() as int);
        if b[0] > 1 {
            lemma_when_contains(b[0] > 1, "24"@, m0);
            lemma_contains_concat(first, asc, (Severity::Reject, "24"@, m0));
        }
        assert forall|i: int| 1 <= i < b.len() && #[trigger] b[i] <= b[i - 1] implies table_facts(label, b).contains(
            (Severity::Reject, "24"@, what + decimal(b[i] as nat) + " follows "@ + decimal(b[i - 1] as nat)),
        ) by {
            lemma_ascending_contains("24"@, what, b, b.len() as int, i);
            lemma_contains_concat(
                first,
                asc,
                (Severity::Reject, "24"@, what + decimal(b[i] as nat) + " follows "@ + decimal(b[i - 1] as nat)),
            );
        }
    }
}

proof fn lemma_mix_contains(arms: Seq<Option<Vec<u32>>>, k: int, i: int, x: (Severity, Seq<char>, Seq<char>))
    requires
        0 <= i < k <= arms.len(),
        arms[i] is Some,
        table_facts(mix_label(i as nat), arms[i]->0@).contains(x),
    ensures
        mix_facts(arms, k).contains(x),
    decreases k,
{
    let tail = match arms[k - 1] {
        Some(b) => table_facts(mix_label((k - 1) as nat), b@),
        None => Seq::empty(),
    };
    if i == k - 1 {
        lemma_contains_concat(mix_facts(arms, k - 1), tail, x);
    } else {
        lemma_mix_contains(arms, k - 1, i, x);
        lemma_contains_concat(mix_facts(arms, k - 1), tail, x);
    }
}

proof fn lemma_membership_contains(nodes: Seq<Seq<char>>, events: Seq<Seq<char>>, k: int, i: int)
    requires
        0 <= i < k <= events.len(),
        !nodes.contains(events[i]),
    ensures
        membership_facts(nodes, events, k).contains(
            (
                Severity::Reject,
                "11"@,
                "membership event names node `"@ + events[i] + "`, which is not in topology.nodes"@,
            ),
        ),
    decreases k,
{
    let x = (
        Severity::Reject,
        "11"@,
        "membership event names node `"@ + events[i] + "`, which is not in topology.nodes"@,
    );
    let c = !nodes.contains(events[k - 1]);
    let m = "membership event names node `"@ + events[k - 1] + "`, which is not in topology.nodes"@;
    if i == k - 1 {
        lemma_when_contains(c, "11"@, m);
    } else {
        lemma_membership_contains(nodes, events, k - 1, i);
    }
    lemma_contains_concat(membership_facts(nodes, events, k - 1), when(c, "11"@, m), x);
}

proof fn lemma_in_findings(d: DocumentFacts, x: (Severity, Seq<char>, Seq<char>))
    requires
        version_facts(d).contains(x) || growth_facts(d).contains(x) || run_length_facts(d).contains(x)
            || file_facts(d).contains(x) || roots_facts(d).contains(x) || arrival_facts(d).contains(x)
            || topology_facts(d).contains(x) || spawn_facts(d).contains(x) || churn_facts(d).contains(x),
    ensures
        findings_of(d).contains(x),
{
    let v = version_facts(d);
    let g = growth_facts(d);
    let rl = run_length_facts(d);
    let f = file_facts(d);
    let ro = roots_facts(d);
    let a = arrival_facts(d);
    let t = topology_facts(d);
    let sp = spawn_facts(d);
    let c = churn_facts(d);
    if v.contains(x) || g.contains(x) {
        lemma_contains_concat(v, g, x);
    }
    if (v + g).contains(x) || rl.contains(x) {
        lemma_contains_concat(v + g, rl, x);
    }
    if (v + g + rl).contains(x) || f.contains(x) {
        lemma_contains_concat(v + g + rl, f, x);
    }
    if (v + g + rl + f).contains(x) || ro.contains(x) {
        lemma_contains_concat(v + g + rl + f, ro, x);
    }
    if (v + g + rl + f + ro).contains(x) || a.contains(x) {
        lemma_contains_concat(v + g + rl + f + ro, a, x);
    }
    if (v + g + rl + f + ro + a).contains(x) || t.contains(x) {
        lemma_contains_concat(v + g + rl + f + ro + a, t, x);
    }
    if (v + g + rl + f + ro + a + t).contains(x) || sp.contains(x) {
        lemma_contains_concat(v + g + rl + f + ro + a + t, sp, x);
    }
    lemma_contains_concat(v + g + rl + f + ro + a + t + sp, c, x);
}

/// The ordering rules of a branching profile or process, for the list of
/// `from_depth`s `s`: an empty list, a list not starting at depth 0, and each
/// entry not above the one before are each reported.
proof fn lemma_ordering_contains(b: BranchingShape, s: Seq<u32>, empty: Seq<char>, first: Seq<char>, what: Seq<char>)
    requires
        b matches BranchingShape::Profile(v) ==> v@ == s && empty
            == "an explicit branching profile must have at least one segment"@ && first
            == "the first branching segment must start at from_depth 0"@ && what
            == "branching segments must ascend by from_depth; "@,
        b matches BranchingShape::Segments(v) ==> v@ == s && empty
            == "a node-level branching process must have at least one depth band"@ && first
            == "the first branching band must start at from_depth 0"@ && what
            == "branching bands must ascend by from_depth; "@,
        !(b is Other),
    ensures
        s.len() == 0 ==> branching_facts(b).contains((Severity::Reject, "8"@, empty)),
        s.len() == 0 || s[0] != 0 ==> branching_facts(b).contains((Severity::Reject, "8"@, first)),
        forall|i: int|
            1 <= i < s.len() && #[trigger] s[i] <= s[i - 1] ==> branching_facts(b).contains(
                (Severity::Reject, "8"@, what + decimal(s[i] as nat) + " follows "@ + decimal(s[i - 1] as nat)),
            ),
{
    let w1 = when(s.len() == 0, "8"@, empty);
    let w2 = when(s.len() == 0 || s[0] != 0, "8"@, first);
    let asc = ascending_facts("8"@, what, s, s.len() as int);
    assert(branching_facts(b) == w1 + w2 + asc);
    if s.len() == 0 {
        lemma_when_contains(true, "8"@, empty);
        lemma_contains_concat(w1, w2, (Severity::Reject, "8"@, empty));
        lemma_contains_concat(w1 + w2, asc, (Severity::Reject, "8"@, empty));
    }
    if s.len() == 0 || s[0] != 0 {
        lemma_when_contains(true, "8"@, first);
        lemma_contains_concat(w1, w2, (Severity::Reject, "8"@, first));
        lemma_contains_concat(w1 + w2, asc, (Severity::Reject, "8"@, first));
    }
    assert forall|i: int| 1 <= i < s.len() && #[trigger] s[i] <= s[i - 1] implies branching_facts(b).contains(
        (Severity::Reject, "8"@, what + decimal(s[i] as nat) + " follows "@ + decimal(s[i - 1] as nat)),
    ) by {
        lemma_ascending_contains("8"@, what, s, s.len() as int, i);
        lemma_contains_concat(
            w1 + w2,
            asc,
            (Severity::Reject, "8"@, what + decimal(s[i] as nat) + " follows "@ + decimal(s[i - 1] as nat)),
        );
    }
}

/// A branching profile or process that does not start at depth 0, is empty,
/// or does not ascend is rejected under rule 8, each fault by its own finding.
pub proof fn law_branching_order_is_enforced(d: DocumentFacts)
    ensures
        d.branching matches BranchingShape::Profile(s) ==> {
            &&& (s@.len() == 0 ==> reports(d, "8"@, "an explicit branching profile must have at least one segment"@))
            &&& (s@.len() == 0 || s@[0] != 0 ==> reports(d, "8"@, "the first branching segment must start at from_depth 0"@))
            &&& forall|i: int|
                1 <= i < s@.len() && #[trigger] s@[i] <= s@[i - 1] ==> reports(
                    d,
                    "8"@,
                    "branching segments must ascend by from_depth; "@ + decimal(s@[i] as nat) + " follows "@
                        + decimal(s@[i - 1] as nat),
                )
        },
        d.branching matches BranchingShape::Segments(s) ==> {
            &&& (s@.len() == 0 ==> reports(d, "8"@, "a node-level branching process must have at least one depth band"@))
            &&& (s@.len() == 0 || s@[0] != 0 ==> reports(d, "8"@, "the first branching band must start at from_depth 0"@))
            &&& forall|i: int|
                1 <= i < s@.len() && #[trigger] s@[i] <= s@[i - 1] ==> reports(
                    d,
                    "8"@,
                    "branching bands must ascend by from_depth; "@ + decimal(s@[i] as nat) + " follows "@
                        + decimal(s@[i - 1] as nat),
                )
        },
{
    let r8 = when(d.roots_count < 1, "8"@, "roots.count must be at least 1"@);
    let pop = match d.popularity_n {
        Some(n) => seq![rejection("8"@, popularity_n_text(n, d.roots_count))],
        None => Seq::<(Severity, Seq<char>, Seq<char>)>::empty(),
    };
    let br = branching_facts(d.branching);
    assert(roots_facts(d) == r8 + pop + br);
    match d.branching {
        BranchingShape::Other => {},
        BranchingShape::Profile(s) => {
            let e = "an explicit branching profile must have at least one segment"@;
            let f = "the first branching segment must start at from_depth 0"@;
            let w = "branching segments must ascend by from_depth; "@;
            lemma_ordering_contains(d.branching, s@, e, f, w);
            assert forall|x: (Severity, Seq<char>, Seq<char>)| br.contains(x) implies findings_of(d).contains(x) by {
                lemma_contains_concat(r8 + pop, br, x);
                lemma_in_findings(d, x);
            }
        },
        BranchingShape::Segments(s) => {
            let e = "a node-level branching process must have at least one depth band"@;
            let f = "the first branching band must start at from_depth 0"@;
            let w = "branching bands must ascend by from_depth; "@;
            lemma_ordering_contains(d.branching, s@, e, f, w);
            assert forall|x: (Severity, Seq<char>, Seq<char>)| br.contains(x) implies findings_of(d).contains(x) by {
                lemma_contains_concat(r8 + pop, br, x);
                lemma_in_findings(d, x);
            }
        },
    }
}

/// A document of another version, or stating other than one run length, is rejected for it.
pub proof fn law_version_and_run_length_faults_are_reported(d: DocumentFacts)
    ensures
        d.version != 1 ==> reports(
            d,
            "version"@,
            "schema version "@ + decimal(d.version as nat)
                + " is not implemented by this generator; only version 1 is"@,
        ),
        ({
            let n = (if d.has_duration { 1nat } else { 0nat }) + (if d.has_requests { 1nat } else { 0nat })
                + (if d.has_blocks { 1nat } else { 0nat }) + (if d.unbounded { 1nat } else { 0nat });
            n != 1 ==> reports(
                d,
                "19"@,
                "exactly one of duration | requests | blocks | unbounded is required, found "@ + decimal(n),
            )
        }),
{
    // The version.
    if d.version != 1 {
        let m = "schema version "@ + decimal(d.version as nat)
            + " is not implemented by this generator; only version 1 is"@;
        lemma_when_contains(true, "version"@, m);
        lemma_in_findings(d, (Severity::Reject, "version"@, m));
    }
    // Rule 19.
    if run_lengths(d) != 1 {
        let m = "exactly one of duration | requests | blocks | unbounded is required, found "@ + decimal(
            run_lengths(d),
        );
        lemma_when_contains(true, "19"@, m);
        lemma_in_findings(d, (Severity::Reject, "19"@, m));
    }
}

/// File output without a block budget, or unbounded, is rejected for it.
pub proof fn law_file_output_faults_are_reported(d: DocumentFacts)
    ensures
        (d.mode@ == "jsonl"@ || d.mode@ == "parquet"@) && !d.has_blocks ==> reports(d, "20"@, needs_blocks_text()),
        (d.mode@ == "jsonl"@ || d.mode@ == "parquet"@) && d.unbounded ==> reports(d, "21"@, file_unbounded_text()),
{
    // Rules 20 and 21.
    let f20 = when(file_mode(d) && !d.has_blocks, "20"@, needs_blocks_text());
    let f21 = when(file_mode(d) && d.unbounded, "21"@, file_unbounded_text());
    if file_mode(d) && !d.has_blocks {
        lemma_when_contains(true, "20"@, needs_blocks_text());
        lemma_contains_concat(f20, f21, (Severity::Reject, "20"@, needs_blocks_text()));
        lemma_in_findings(d, (Severity::Reject, "20"@, needs_blocks_text()));
    }
    if file_mode(d) && d.unbounded {
        lemma_when_contains(true, "21"@, file_unbounded_text());
        lemma_contains_concat(f20, f21, (Severity::Reject, "21"@, file_unbounded_text()));
        lemma_in_findings(d, (Severity::Reject, "21"@, file_unbounded_text()));
    }
}

/// No roots, a stated popularity support, a duration window under closed-loop arrival, and an arrival model missing its parameter are each rejected.
pub proof fn law_root_and_arrival_faults_are_reported(d: DocumentFacts)
    ensures
        d.roots_count == 0 ==> reports(d, "8"@, "roots.count must be at least 1"@),
        d.popularity_n matches Some(n) ==> reports(d, "8"@, popularity_n_text(n, d.roots_count)),
        d.window_is_duration && d.arrival_model == ArrivalModel::ClosedLoop ==> reports(d, "15"@, window_text()),
        d.arrival_model == ArrivalModel::OpenLoop && !d.has_rate ==> reports(
            d,
            "arrival"@,
            "open_loop arrival requires a `rate`"@,
        ),
        d.arrival_model == ArrivalModel::ClosedLoop && !d.has_concurrency ==> reports(
            d,
            "arrival"@,
            "closed_loop arrival requires `concurrency`, its bound on in-flight sessions"@,
        ),
{
    // Rule 8's roots.
    let r8 = when(d.roots_count < 1, "8"@, "roots.count must be at least 1"@);
    let pop = match d.popularity_n {
        Some(n) => seq![rejection("8"@, popularity_n_text(n, d.roots_count))],
        None => Seq::<(Severity, Seq<char>, Seq<char>)>::empty(),
    };
    let br = branching_facts(d.branching);
    assert(roots_facts(d) == r8 + pop + br);
    if d.roots_count == 0 {
        let x = (Severity::Reject, "8"@, "roots.count must be at least 1"@);
        lemma_when_contains(true, "8"@, "roots.count must be at least 1"@);
        lemma_contains_concat(r8, pop, x);
        lemma_contains_concat(r8 + pop, br, x);
        lemma_in_findings(d, x);
    }
    if let Some(n) = d.popularity_n {
        let x = (Severity::Reject, "8"@, popularity_n_text(n, d.roots_count));
        assert(pop[0] == x);
        lemma_contains_concat(r8, pop, x);
        lemma_contains_concat(r8 + pop, br, x);
        lemma_in_findings(d, x);
    }
    // Rule 15 and arrival.
    let a1 = when(d.window_is_duration && d.arrival_model == ArrivalModel::ClosedLoop, "15"@, window_text());
    let m2 = "open_loop arrival requires a `rate`"@;
    let m3 = "closed_loop arrival requires `concurrency`, its bound on in-flight sessions"@;
    let a2 = when(d.arrival_model == ArrivalModel::OpenLoop && !d.has_rate, "arrival"@, m2);
    let a3 = when(d.arrival_model == ArrivalModel::ClosedLoop && !d.has_concurrency, "arrival"@, m3);
    assert(arrival_facts(d) == a1 + a2 + a3);
    if d.window_is_duration && d.arrival_model == ArrivalModel::ClosedLoop {
        let x = (Severity::Reject, "15"@, window_text());
        lemma_when_contains(true, "15"@, window_text());
        lemma_contains_concat(a1, a2, x);
        lemma_contains_concat(a1 + a2, a3, x);
        lemma_in_findings(d, x);
    }
    if d.arrival_model == ArrivalModel::OpenLoop && !d.has_rate {
        let x = (Severity::Reject, "arrival"@, m2);
        lemma_when_contains(true, "arrival"@, m2);
        lemma_contains_concat(a1, a2, x);
        lemma_contains_concat(a1 + a2, a3, x);
        lemma_in_findings(d, x);
    }
    if d.arrival_model == ArrivalModel::ClosedLoop && !d.has_concurrency {
        let x = (Severity::Reject, "arrival"@, m3);
        lemma_when_contains(true, "arrival"@, m3);
        lemma_contains_concat(a1 + a2, a3, x);
        lemma_in_findings(d, x);
    }
}

/// Every membership event naming a node that is not configured is rejected, naming that node.
pub proof fn law_unknown_membership_nodes_are_reported(d: DocumentFacts)
    ensures
        d.topology matches Some(t) ==> forall|i: int|
            0 <= i < t.membership_nodes@.len() && !(exists|j: int|
                0 <= j < t.nodes@.len() && t.nodes@[j]@ == #[trigger] t.membership_nodes@[i]@) ==> reports(
                d,
                "11"@,
                "membership event names node `"@ + t.membership_nodes@[i]@ + "`, which is not in topology.nodes"@,
            ),
{
    // Rule 11.
    if let Some(t) = d.topology {
        let ns = names(t.nodes@);
        let es = names(t.membership_nodes@);
        assert forall|i: int|
            0 <= i < t.membership_nodes@.len() && !(exists|j: int|
                0 <= j < t.nodes@.len() && t.nodes@[j]@ == #[trigger] t.membership_nodes@[i]@) implies reports(
            d,
            "11"@,
            "membership event names node `"@ + t.membership_nodes@[i]@ + "`, which is not in topology.nodes"@,
        ) by {
            assert(es[i] == t.membership_nodes@[i]@);
            if ns.contains(es[i]) {
                let j = choose|j: int| 0 <= j < ns.len() && ns[j] == es[i];
                assert(t.nodes@[j]@ == t.membership_nodes@[i]@);
            }
            lemma_membership_contains(ns, es, es.len() as int, i);
            lemma_in_findings(
                d,
                (
                    Severity::Reject,
                    "11"@,
                    "membership event names node `"@ + es[i] + "`, which is not in topology.nodes"@,
                ),
            );
        }
    }
}

/// Fan-out with nowhere to go, no spawn generation, fan-out under per-request placement, and churn without a clock are each rejected.
pub proof fn law_spawn_and_churn_faults_are_reported(d: DocumentFacts)
    ensures
        d.spawn matches Some(sp) ==> {
            &&& (sp.fanout > 0 && sp.placement != Some(SpawnPlacement::SameNode) && sp.placement
                != Some(SpawnPlacement::Any) && (match d.topology {
                Some(t) => t.nodes@.len() < 2,
                None => true,
            }) ==> reports(d, "22"@, nowhere_text()))
            &&& (sp.generations == 0 ==> reports(d, "22"@, "spawn.generations must be at least 1"@))
            &&& (sp.fanout > 0 && (d.topology matches Some(t) && t.placement == Placement::PerRequest)
                ==> reports(d, "23"@, per_request_spawn_text()))
        },
        d.churn_half_life matches Some(h) ==> (!zero_duration_text(trimmed(h@)) && !d.has_duration
            ==> reports(d, "18"@, churn_clock_text())),
{
    // Rules 22 and 23.
    if let Some(sp) = d.spawn {
        let c1 = sp.fanout > 0 && to_other_nodes(sp.placement) && node_count(d) < 2;
        let c2 = sp.generations < 1;
        let c3 = sp.fanout > 0 && match d.topology {
            Some(t) => t.placement == Placement::PerRequest,
            None => false,
        };
        let m22 = "spawn.generations must be at least 1"@;
        let w1 = when(c1, "22"@, nowhere_text());
        let w2 = when(c2, "22"@, m22);
        let w3 = when(c3, "23"@, per_request_spawn_text());
        assert(spawn_facts(d) == w1 + w2 + w3);
        if c1 {
            let x = (Severity::Reject, "22"@, nowhere_text());
            lemma_when_contains(true, "22"@, nowhere_text());
            lemma_contains_concat(w1, w2, x);
            lemma_contains_concat(w1 + w2, w3, x);
            lemma_in_findings(d, x);
        }
        if c2 {
            let x = (Severity::Reject, "22"@, m22);
            lemma_when_contains(true, "22"@, m22);
            lemma_contains_concat(w1, w2, x);
            lemma_contains_concat(w1 + w2, w3, x);
            lemma_in_findings(d, x);
        }
        if c3 {
            let x = (Severity::Reject, "23"@, per_request_spawn_text());
            lemma_when_contains(true, "23"@, per_request_spawn_text());
            lemma_contains_concat(w1 + w2, w3, x);
            lemma_in_findings(d, x);
        }
    }
    // Rule 18.
    if let Some(h) = d.churn_half_life {
        if !zero_duration_text(trimmed(h@)) && !d.has_duration {
            lemma_when_contains(true, "18"@, churn_clock_text());
            lemma_in_findings(d, (Severity::Reject, "18"@, churn_clock_text()));
        }
    }
}

/// Every fault of a banded growth table, in the sessions or in any mixture arm, is rejected.
pub proof fn law_growth_band_faults_are_reported(d: DocumentFacts)
    ensures
        d.session_bands matches Some(b) ==> {
            &&& (b@.len() == 0 ==> reports(
                d,
                "24"@,
                "workload.sessions"@ + ".growth_per_turn.by_turns is empty; state a distribution or bands"@,
            ))
            &&& (b@.len() > 0 && b@[0] > 1 ==> reports(
                d,
                "24"@,
                "workload.sessions"@ + ".growth_per_turn.by_turns starts at from_turns "@ + decimal(b@[0] as nat)
                    + ", so a session shorter than that names no band. The first band must start at 1"@,
            ))
            &&& forall|i: int|
                1 <= i < b@.len() && #[trigger] b@[i] <= b@[i - 1] ==> reports(
                    d,
                    "24"@,
                    "workload.sessions"@ + ".growth_per_turn bands must ascend by from_turns; "@ + decimal(
                        b@[i] as nat,
                    ) + " follows "@ + decimal(b@[i - 1] as nat),
                )
        },
        forall|k: int|
            0 <= k < d.mix_bands@.len() && (#[trigger] d.mix_bands@[k]) is Some && d.mix_bands@[k]->0@.len() == 0
                ==> reports(
                d,
                "24"@,
                "workload.mix["@ + decimal(k as nat) + "]"@
                    + ".growth_per_turn.by_turns is empty; state a distribution or bands"@,
            ),{
    let sessions = match d.session_bands {
        Some(b) => table_facts("workload.sessions"@, b@),
        None => Seq::empty(),
    };
    let mixf = mix_facts(d.mix_bands@, d.mix_bands@.len() as int);
    if let Some(b) = d.session_bands {
        lemma_table_contains("workload.sessions"@, b@);
        let e = (
            Severity::Reject,
            "24"@,
            "workload.sessions"@ + ".growth_per_turn.by_turns is empty; state a distribution or bands"@,
        );
        if b@.len() == 0 {
            lemma_growth_in_findings(d, e);
        }
        if b@.len() > 0 && b@[0] > 1 {
            lemma_growth_in_findings(
                d,
                (
                    Severity::Reject,
                    "24"@,
                    "workload.sessions"@ + ".growth_per_turn.by_turns starts at from_turns "@ + decimal(
                        b@[0] as nat,
                    )
                        + ", so a session shorter than that names no band. The first band must start at 1"@,
                ),
            );
        }
        assert forall|i: int| 1 <= i < b@.len() && #[trigger] b@[i] <= b@[i - 1] implies reports(
            d,
            "24"@,
            "workload.sessions"@ + ".growth_per_turn bands must ascend by from_turns; "@ + decimal(b@[i] as nat)
                + " follows "@ + decimal(b@[i - 1] as nat),
        ) by {
            lemma_growth_in_findings(
                d,
                (
                    Severity::Reject,
                    "24"@,
                    "workload.sessions"@ + ".growth_per_turn bands must ascend by from_turns; "@ + decimal(
                        b@[i] as nat,
                    ) + " follows "@ + decimal(b@[i - 1] as nat),
                ),
            );
        }
    }
    assert forall|k: int|
        0 <= k < d.mix_bands@.len() && (#[trigger] d.mix_bands@[k]) is Some && d.mix_bands@[k]->0@.len() == 0 implies reports(
        d,
        "24"@,
        "workload.mix["@ + decimal(k as nat) + "]"@
            + ".growth_per_turn.by_turns is empty; state a distribution or bands"@,
    ) by {
        let b = d.mix_bands@[k]->0;
        let x = (
            Severity::Reject,
            "24"@,
            mix_label(k as nat) + ".growth_per_turn.by_turns is empty; state a distribution or bands"@,
        );
        lemma_table_contains(mix_label(k as nat), b@);
        lemma_mix_contains(d.mix_bands@, d.mix_bands@.len() as int, k, x);
        lemma_growth_in_findings(d, x);
    }
}

proof fn lemma_growth_in_findings(d: DocumentFacts, x: (Severity, Seq<char>, Seq<char>))
    requires
        (match d.session_bands {
            Some(b) => table_facts("workload.sessions"@, b@),
            None => Seq::empty(),
        }).contains(x) || mix_facts(d.mix_bands@, d.mix_bands@.len() as int).contains(x),
    ensures
        findings_of(d).contains(x),
{
    let sessions = match d.session_bands {
        Some(b) => table_facts("workload.sessions"@, b@),
        None => Seq::empty(),
    };
    let mixf = mix_facts(d.mix_bands@, d.mix_bands@.len() as int);
    assert(growth_facts(d) == sessions + mixf);
    lemma_contains_concat(sessions, mixf, x);
    lemma_in_findings(d, x);
}

} // verus!
