use workload_model::fit::document::{
    assembly_refusal, rank_steps, root_layer_caveats, FitError, Measured, RankedRoots, RootPopularity,
    RANK_MAX_STEPS,
};
use workload_model::fit::segments::{weighted_buckets, Census, SegmentEnd, SegmentRow};
use workload_model::keys::{CacheKey, SessionId};

/// A census over requests given as `(session, path)`, fed **grouped by session**.
fn census_of(requests: &[(u32, Vec<u64>)]) -> Census {
    let mut c = Census::new();
    let mut sessions: Vec<u32> = requests.iter().map(|(s, _)| *s).collect();
    sessions.sort_unstable();
    sessions.dedup();
    for s in sessions {
        for (sess, path) in requests.iter().filter(|(x, _)| *x == s) {
            let keys: Vec<CacheKey> = path.iter().map(|k| CacheKey(*k)).collect();
            c.observe(SessionId(*sess), &keys);
        }
    }
    c
}

fn at_root(rows: &[SegmentRow]) -> SegmentRow {
    *rows.iter().find(|r| r.start_depth == 0).expect("a segment at the root")
}

#[test]
fn a_session_seen_twice_counts_once_toward_its_root() {
    // A session binds to one root at birth, so a later request cannot move it
    // and must not double its weight.
    let mut r = RootPopularity::new();
    r.observe(1, CacheKey(10));
    r.observe(1, CacheKey(10));
    r.observe(1, CacheKey(99));
    assert_eq!(r.roots(), 1);
}

#[test]
fn distinct_roots_are_counted_shared_or_not() {
    let mut r = RootPopularity::new();
    assert_eq!(r.roots(), 0);
    for (s, root) in [(1, 10), (2, 10), (3, 20), (4, 30), (5, 30), (6, 30)] {
        r.observe(s, CacheKey(root));
    }
    assert_eq!(r.roots(), 3);
}

#[test]
fn every_refusal_names_its_fr_054b_outcome() {
    // Asserts the classification rather than the prose, so a reword cannot
    // quietly drop it.
    for e in [FitError::Unmeasured("think_time"), FitError::NoArrivalRate] {
        let msg = e.message();
        assert!(msg.contains("MODEL LIMITATION"), "{msg}");
        // The restriction must be named, not only the outcome.
        assert!(msg.contains("this model"), "must name the binding restriction: {msg}");
        assert!(!msg.contains("CALLER INPUT") && !msg.contains("CORRUPT TRACE"), "exactly one outcome: {msg}");
    }
}

#[test]
fn a_refusal_names_the_missing_measurement_and_why_it_refuses() {
    let msg = FitError::Unmeasured("turns").message();
    assert!(msg.contains("`turns`"), "{msg}");
    assert!(msg.contains("FR-055"), "{msg}");
    let rate = FitError::NoArrivalRate.message();
    assert!(rate.contains("time axis"), "{rate}");
    assert!(rate.contains("fitted"), "{rate}");
}

#[test]
fn a_key_at_two_depths_is_counted_as_a_rolling_prefix_violation() {
    // Impossible under a hash over the prefix, so it means the trace
    // contradicts its own manifest. Counted, never repaired.
    let mut c = Census::new();
    c.observe(SessionId(1), &[CacheKey(1), CacheKey(7)]);
    c.observe(SessionId(2), &[CacheKey(7), CacheKey(9)]);
    assert!(c.violations() > 0, "block 7 was seen at depth 1 and depth 0");
}

#[test]
fn a_consistent_trace_has_no_violations_and_one_node_per_key() {
    let c = census_of(&[(1, vec![1, 2, 3]), (2, vec![1, 2, 4]), (2, vec![1, 2, 4, 5])]);
    assert_eq!(c.violations(), 0);
    assert_eq!(c.nodes(), 5);
}

#[test]
fn a_preamble_then_a_split_is_one_segment_and_its_children_are_measured() {
    // A run all sessions walk, then a split: four sessions share three blocks,
    // then two take one child and two another.
    let reqs = vec![
        (1, vec![1, 2, 3, 10, 11]),
        (2, vec![1, 2, 3, 10, 12]),
        (3, vec![1, 2, 3, 20, 21]),
        (4, vec![1, 2, 3, 20, 22]),
    ];
    let rows = census_of(&reqs).finish(2);
    let head = at_root(&rows);
    assert_eq!(head.length, 3, "the shared run is 3 blocks");
    assert_eq!(head.fan_in, 4, "all four sessions walk it");
    assert_eq!(head.ends, SegmentEnd::Fanout);
    assert_eq!(head.out_degree, 2);
    assert_eq!(head.shared_children, 2);
    assert_eq!(head.child_fan_in_sum, 4, "both children carry two sessions");
    // Nobody retired at the split: the children's cohorts add up to the whole.
    assert_eq!(head.child_fan_in_sum, u64::from(head.fan_in));
    // Two equal children: (sum c)^2 / sum c^2 is exactly 2, i.e. uniform.
    assert_eq!(head.shared_fan_in_sum * head.shared_fan_in_sum, 2 * head.child_fan_in_sq as u64);
    assert_eq!(head.child_fan_in_sq, 8);
    assert_eq!(head.top_child_fan_in, 2);
}

#[test]
fn total_out_degree_counts_singleton_children_because_privacy_comes_from_them() {
    // At this split 2 of 3 children are reached by one session each, so a
    // session landing there is alone from that depth on.
    let reqs = vec![(1, vec![1, 50]), (2, vec![1, 50]), (3, vec![1, 60]), (4, vec![1, 70])];
    let rows = census_of(&reqs).finish(2);
    let head = at_root(&rows);
    assert_eq!(head.out_degree, 3, "three children exist");
    assert_eq!(head.shared_children, 1, "only one of them is shared");
    assert_eq!(head.child_fan_in_sum, 4, "the singletons still count toward the cohort's descent");
    assert_eq!(head.shared_fan_in_sum, 2);
    assert_eq!(head.child_fan_in_sq_all, 4 + 1 + 1);
}

#[test]
fn a_session_ending_on_the_trunk_shows_up_as_leakage_not_as_a_shorter_segment() {
    // Session 3's path STOPS at depth 1 while 1 and 2 continue, so the split
    // at depth 1 carries three sessions and its children carry two.
    let reqs = vec![(1, vec![1, 2, 30]), (2, vec![1, 2, 40]), (3, vec![1, 2])];
    let rows = census_of(&reqs).finish(2);
    let seg = at_root(&rows);
    assert_eq!(seg.fan_in, 3);
    assert_eq!(seg.ends, SegmentEnd::Fanout);
    assert_eq!(seg.child_fan_in_sum, 2, "only two sessions descended");
    // leak = 1 - 2/3 = 1/3, stated exactly over the integers.
    assert_eq!(3 * (u64::from(seg.fan_in) - seg.child_fan_in_sum), u64::from(seg.fan_in));
}

#[test]
fn a_session_re_walking_its_own_path_counts_once_toward_fan_in() {
    // Turn n+1 re-reads every block of turn n, so a fan-in counting references
    // rather than distinct sessions would measure conversation length.
    let reqs = vec![(1, vec![1, 2]), (1, vec![1, 2, 3]), (1, vec![1, 2, 3, 4]), (2, vec![1, 2])];
    let rows = census_of(&reqs).finish(2);
    let seg = at_root(&rows);
    assert_eq!(seg.fan_in, 2, "two sessions, not four requests");
}

#[test]
fn a_cohort_that_shrinks_without_splitting_ends_in_attrition() {
    let reqs = vec![(1, vec![1, 2, 3]), (2, vec![1, 2, 3]), (3, vec![1, 2])];
    let rows = census_of(&reqs).finish(1);
    assert_eq!(rows.len(), 2);
    assert_eq!(rows[0].start_depth, 0);
    assert_eq!(rows[0].length, 2);
    assert_eq!(rows[0].fan_in, 3);
    assert_eq!(rows[0].ends, SegmentEnd::Attrition);
    assert_eq!(rows[0].out_degree, 1);
    assert_eq!(rows[0].child_fan_in_sum, 0, "only a split measures its children");
    assert_eq!(rows[1].start_depth, 2);
    assert_eq!(rows[1].ends, SegmentEnd::Leaf);
    assert_eq!(rows[1].fan_in, 2);
}

#[test]
fn a_cohort_below_the_minimum_is_not_reported() {
    let reqs = vec![(1, vec![1, 2]), (2, vec![1, 3])];
    let rows = census_of(&reqs).finish(2);
    assert_eq!(rows.len(), 1, "the two singleton leaves are below the minimum");
    assert_eq!(rows[0].fan_in, 2);
    assert_eq!(rows[0].out_degree, 2);
    assert_eq!(rows[0].shared_children, 0);
    assert_eq!(rows[0].top_child_fan_in, 0);
    assert!(Census::new().finish(0).is_empty());
}

fn roots_with(sessions_per_root: &[u64]) -> RootPopularity {
    let mut r = RootPopularity::new();
    let mut session = 0u32;
    for (root, n) in sessions_per_root.iter().enumerate() {
        for _ in 0..*n {
            r.observe(session, CacheKey(root as u64));
            session += 1;
        }
    }
    r
}

#[test]
fn roots_are_ranked_by_their_session_count_most_popular_first() {
    let r = roots_with(&[10, 60, 20, 10]);
    assert_eq!(r.roots(), 4);
    let ranked = r.ranked();
    assert_eq!(ranked.shared, vec![60, 20, 10, 10]);
    assert_eq!(ranked.observed, 4);
    assert_eq!(ranked.sessions, 100);
    assert_eq!(ranked.singleton_sessions, 0);
}

#[test]
fn a_root_one_session_used_is_counted_apart_from_the_ranks() {
    let r = roots_with(&[50, 20, 1, 1, 1]);
    let ranked = r.ranked();
    assert_eq!(ranked.shared, vec![50, 20], "only two roots had two or more sessions");
    assert_eq!(ranked.observed, 5, "five distinct roots were seen");
    assert_eq!(ranked.singleton_sessions, 3);
    assert_eq!(ranked.sessions, 73);
}

#[test]
fn every_rank_closes_a_step_below_the_grouping_threshold() {
    let counts = [40, 30, 20, 12, 9, 7, 6, 5, 4, 3, 2, 2];
    let steps = rank_steps(&counts);
    assert_eq!(steps.len(), 12);
    assert_eq!(steps[0], (1, 40));
    assert_eq!(steps[1], (2, 70));
    assert_eq!(*steps.last().unwrap(), (12, 140), "the support reaches the shared-root count");
    assert!(rank_steps(&[]).is_empty());
}

#[test]
fn ranks_are_grouped_above_the_step_budget_and_the_last_rank_still_closes_one() {
    let counts = vec![2u64; RANK_MAX_STEPS + 3];
    let steps = rank_steps(&counts);
    // Two ranks per step, and a final step at the last rank.
    assert_eq!(steps.len(), (RANK_MAX_STEPS + 3) / 2 + 1);
    assert_eq!(steps[0], (2, 4));
    assert_eq!(*steps.last().unwrap(), ((RANK_MAX_STEPS + 3) as u64, 2 * (RANK_MAX_STEPS as u64 + 3)));
}

#[test]
fn equal_values_merge_into_one_bucket_in_ascending_order() {
    let b = weighted_buckets(&[(5, 2), (3, 1), (5, 4), (9, 0), (3, 0)]);
    assert_eq!(b, vec![(3, 3, 2), (5, 5, 6), (9, 9, 1)]);
    assert!(weighted_buckets(&[]).is_empty());
}

#[test]
fn with_no_minimum_the_segments_cover_every_node_once() {
    let reqs = vec![
        (1, vec![1, 2, 3, 10, 11]),
        (2, vec![1, 2, 3, 10, 12]),
        (3, vec![1, 2, 3, 20, 21]),
        (3, vec![1, 2, 3, 20, 21, 22]),
        (4, vec![5, 6]),
    ];
    let c = census_of(&reqs);
    let rows = c.finish(0);
    let total: usize = rows.iter().map(|r| r.length as usize).sum();
    assert_eq!(total, c.nodes());
}

#[test]
fn with_a_minimum_of_one_the_segments_still_cover_every_node_once() {
    let reqs = vec![
        (1, vec![1, 2, 3, 10, 11]),
        (2, vec![1, 2, 3, 10, 12]),
        (3, vec![1, 2, 3, 20, 21]),
        (4, vec![5, 6]),
    ];
    let c = census_of(&reqs);
    let total: usize = c.finish(1).iter().map(|r| r.length as usize).sum();
    assert_eq!(total, c.nodes());
    // A minimum of two drops the single-session segments.
    let shared: usize = c.finish(2).iter().map(|r| r.length as usize).sum();
    assert!(shared < c.nodes());
}

#[test]
fn observing_adds_one_node_per_new_key_and_fresh_paths_contradict_nothing() {
    let mut c = Census::new();
    let keys = |v: &[u64]| -> Vec<CacheKey> { v.iter().map(|k| CacheKey(*k)).collect() };
    c.observe(SessionId(1), &keys(&[1, 2, 3]));
    assert_eq!((c.nodes(), c.violations()), (3, 0));
    // Two new keys; the known prefix adds nothing.
    c.observe(SessionId(2), &keys(&[1, 2, 3, 4, 5]));
    assert_eq!((c.nodes(), c.violations()), (5, 0));
    // A key seen at a second depth is a violation, not a new node.
    c.observe(SessionId(3), &keys(&[2]));
    assert_eq!((c.nodes(), c.violations()), (5, 1));
}

fn ranked(shared: Vec<u64>, observed: u64, sessions: u64, singleton_sessions: u64) -> RankedRoots {
    RankedRoots { shared, observed, sessions, singleton_sessions }
}

fn all_measured() -> Measured {
    Measured { turns: true, private_depth: true, shared_depth: true, think_time: true, rate: true }
}

#[test]
fn assembly_refuses_the_first_missing_measurement_in_schema_order() {
    let roots = ranked(vec![3, 2], 3, 6, 1);
    assert!(assembly_refusal(&all_measured(), &roots).is_none());
    let mut m = all_measured();
    m.think_time = false;
    m.rate = false;
    assert!(matches!(assembly_refusal(&m, &roots), Some(FitError::Unmeasured("think_time"))));
    m.turns = false;
    assert!(matches!(assembly_refusal(&m, &roots), Some(FitError::Unmeasured("turns"))));
    let mut m = all_measured();
    m.rate = false;
    assert!(matches!(assembly_refusal(&m, &roots), Some(FitError::NoArrivalRate)));
    let empty = ranked(vec![], 2, 2, 2);
    assert!(matches!(
        assembly_refusal(&all_measured(), &empty),
        Some(FitError::Unmeasured("roots.popularity"))
    ));
}

#[test]
fn the_root_layer_reports_lonely_sessions_and_disagreeing_counts() {
    let roots = ranked(vec![3, 2], 3, 6, 1);
    let c = root_layer_caveats(&roots, 2);
    assert_eq!(c.len(), 1);
    assert!(c[0].starts_with("MODEL LIMITATION (FR-054a): 1 of 6 sessions bound to a root no other session used, and `roots.count` is the SHARED root layer (2 of 3 distinct first-request roots)"));
    assert!(c[0].contains("ordinary workload \u{2014} a one-off prompt \u{2014} so the gap"));
    let none = ranked(vec![3, 2], 2, 5, 0);
    assert!(root_layer_caveats(&none, 2).is_empty());
    let c = root_layer_caveats(&none, 4);
    assert_eq!(c.len(), 1);
    assert!(c[0].starts_with("`roots.count` is 2 \u{2014} shared roots by session binding \u{2014} while the trunk width at depth 0 counts 4 shared keys."));
}

#[test]
fn each_contradicting_position_counts_once() {
    let mut c = Census::new();
    let keys = |v: &[u64]| -> Vec<CacheKey> { v.iter().map(|k| CacheKey(*k)).collect() };
    c.observe(SessionId(1), &keys(&[1, 2]));
    // Key 2 again at depth 0 (first seen at depth 1), then key 1 at depth 1
    // under key 2 (first seen as a root): two contradictions.
    c.observe(SessionId(2), &keys(&[2, 1]));
    assert_eq!((c.nodes(), c.violations()), (2, 2));
}
