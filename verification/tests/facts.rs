use workload_model::schema::facts::{
    validate_facts, BranchingShape, DocumentFacts, SpawnFacts, TopologyFacts,
};
use workload_model::schema::validate::Severity;
use workload_model::schema::{ArrivalModel, Placement, SpawnPlacement};

/// A document that breaks none of the structural rules.
fn sound() -> DocumentFacts {
    DocumentFacts {
        version: 1,
        session_bands: None,
        mix_bands: vec![],
        has_duration: false,
        has_requests: false,
        has_blocks: true,
        unbounded: false,
        mode: "jsonl".to_string(),
        roots_count: 4,
        popularity_n: None,
        branching: BranchingShape::Other,
        window_is_duration: false,
        arrival_model: ArrivalModel::OpenLoop,
        has_rate: true,
        has_concurrency: false,
        topology: None,
        spawn: None,
        churn_half_life: None,
    }
}

fn rules(d: &DocumentFacts) -> Vec<&'static str> {
    validate_facts(d).findings.iter().map(|f| f.rule).collect()
}

#[test]
fn a_sound_document_has_no_findings() {
    assert!(validate_facts(&sound()).findings.is_empty());
}

#[test]
fn every_violation_is_reported_not_just_the_first() {
    let mut d = sound();
    d.version = 2;
    d.has_duration = true;
    d.roots_count = 0;
    d.has_rate = false;
    let r = validate_facts(&d);
    assert_eq!(rules(&d), vec!["version", "19", "8", "arrival"]);
    assert!(r.findings.iter().all(|f| f.severity == Severity::Reject));
    assert!(r.is_rejected());
    assert_eq!(
        r.findings[0].message,
        "schema version 2 is not implemented by this generator; only version 1 is"
    );
    assert_eq!(
        r.findings[1].message,
        "exactly one of duration | requests | blocks | unbounded is required, found 2"
    );
}

#[test]
fn no_run_length_is_rule_19_too() {
    let mut d = sound();
    d.has_blocks = false;
    d.mode = "server".to_string();
    assert_eq!(rules(&d), vec!["19"]);
    assert!(validate_facts(&d).findings[0].message.ends_with("found 0"));
}

#[test]
fn file_output_needs_blocks_and_forbids_unbounded() {
    let mut d = sound();
    d.has_blocks = false;
    d.unbounded = true;
    assert_eq!(rules(&d), vec!["20", "21"]);
    d.mode = "parquet".to_string();
    assert_eq!(rules(&d), vec!["20", "21"]);
    d.mode = "server".to_string();
    assert!(rules(&d).is_empty());
}

#[test]
fn growth_bands_must_start_at_one_and_ascend() {
    let mut d = sound();
    d.session_bands = Some(vec![2, 5, 5, 3]);
    d.mix_bands = vec![None, Some(vec![])];
    let r = validate_facts(&d);
    let msgs: Vec<&str> = r.findings.iter().map(|f| f.message.as_str()).collect();
    assert_eq!(
        msgs,
        vec![
            "workload.sessions.growth_per_turn.by_turns starts at from_turns 2, so a session shorter than that names no band. The first band must start at 1",
            "workload.sessions.growth_per_turn bands must ascend by from_turns; 5 follows 5",
            "workload.sessions.growth_per_turn bands must ascend by from_turns; 3 follows 5",
            "workload.mix[1].growth_per_turn.by_turns is empty; state a distribution or bands",
        ]
    );
    assert!(r.findings.iter().all(|f| f.rule == "24"));
}

#[test]
fn branching_profiles_must_start_at_depth_zero_and_ascend() {
    let mut d = sound();
    d.branching = BranchingShape::Profile(vec![]);
    assert_eq!(rules(&d), vec!["8", "8"]);
    d.branching = BranchingShape::Segments(vec![0, 4, 2]);
    let r = validate_facts(&d);
    assert_eq!(r.findings.len(), 1);
    assert_eq!(r.findings[0].message, "branching bands must ascend by from_depth; 2 follows 4");
}

#[test]
fn a_stated_popularity_support_is_refused() {
    let mut d = sound();
    d.popularity_n = Some(50);
    let r = validate_facts(&d);
    assert_eq!(r.findings.len(), 1);
    assert!(r.findings[0].message.starts_with(
        "roots.popularity states n = 50, but the support of a root-popularity distribution is `roots.count` (4)"
    ));
}

#[test]
fn closed_loop_needs_concurrency_and_a_count_window() {
    let mut d = sound();
    d.arrival_model = ArrivalModel::ClosedLoop;
    d.window_is_duration = true;
    assert_eq!(rules(&d), vec!["15", "arrival"]);
    d.has_concurrency = true;
    d.window_is_duration = false;
    assert!(rules(&d).is_empty());
}

#[test]
fn membership_events_must_name_a_configured_node() {
    let mut d = sound();
    d.topology = Some(TopologyFacts {
        nodes: vec!["a".to_string(), "b".to_string()],
        placement: Placement::Sticky,
        membership_nodes: vec!["a".to_string(), "c".to_string()],
    });
    let r = validate_facts(&d);
    assert_eq!(r.findings.len(), 1);
    assert_eq!(r.findings[0].rule, "11");
    assert_eq!(
        r.findings[0].message,
        "membership event names node `c`, which is not in topology.nodes"
    );
}

#[test]
fn spawn_needs_somewhere_to_go_and_sticky_placement() {
    let mut d = sound();
    d.spawn = Some(SpawnFacts { fanout: 2, placement: None, generations: 0 });
    assert_eq!(rules(&d), vec!["22", "22"]);
    d.spawn = Some(SpawnFacts { fanout: 2, placement: Some(SpawnPlacement::SameNode), generations: 1 });
    assert!(rules(&d).is_empty());
    d.topology = Some(TopologyFacts {
        nodes: vec!["a".to_string(), "b".to_string()],
        placement: Placement::PerRequest,
        membership_nodes: vec![],
    });
    assert_eq!(rules(&d), vec!["23"]);
}

#[test]
fn churn_needs_a_clock_unless_it_is_off() {
    let mut d = sound();
    d.churn_half_life = Some("10m".to_string());
    assert_eq!(rules(&d), vec!["18"]);
    d.churn_half_life = Some(" 0s ".to_string());
    assert!(rules(&d).is_empty());
    d.churn_half_life = Some("10m".to_string());
    d.has_duration = true;
    d.has_blocks = false;
    assert_eq!(rules(&d), vec!["20"]);
}
