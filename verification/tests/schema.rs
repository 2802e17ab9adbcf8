use workload_model::schema::extends::{enter_chain, ExtendsError, MAX_DEPTH};
use workload_model::schema::normalise::{
    dist_paths, matches_path, sweep_axis_unit, unit_bearing, unit_for, NormaliseError, Unit,
};
use workload_model::schema::validate::{is_zero_duration, Finding, Report, Severity};
use workload_model::schema::{eight, one, Placement, DEFAULT_WSS_WINDOW_REQUESTS};

fn segs(path: &str) -> Vec<String> {
    path.split('.').map(str::to_string).collect()
}

#[test]
fn path_matching_requires_the_whole_path_not_a_prefix() {
    // `corpus.block_bytes.median` must not itself match the `corpus.block_bytes`
    // entry, or the walk would treat a shape's parameter as a whole
    // distribution.
    let p: Vec<String> = ["corpus", "block_bytes"].iter().map(|s| s.to_string()).collect();
    assert!(matches_path("corpus.block_bytes", &p));
    let deeper: Vec<String> =
        ["corpus", "block_bytes", "median"].iter().map(|s| s.to_string()).collect();
    assert!(!matches_path("corpus.block_bytes", &deeper));
    let shorter: Vec<String> = ["corpus"].iter().map(|s| s.to_string()).collect();
    assert!(!matches_path("corpus.block_bytes", &shorter));
}

#[test]
fn every_table_entry_is_a_field_that_exists() {
    // A path with a typo would silently never match, so every entry must at
    // least match itself.
    let table = dist_paths();
    for (pattern, _) in &table {
        let segments: Vec<String> = pattern.split('.').map(str::to_string).collect();
        assert!(
            unit_for(&segments) == Some(table.iter().find(|(p, _)| p == pattern).unwrap().1)
                || segments.contains(&"*".to_string()),
            "{pattern} does not match itself"
        );
    }
}

#[test]
fn the_table_covers_the_twelve_distribution_fields() {
    let table = dist_paths();
    assert_eq!(table.len(), 13);
    assert_eq!(unit_for(&segs("corpus.block_bytes")), Some(Unit::Bytes));
    assert_eq!(unit_for(&segs("workload.sessions.think_time")), Some(Unit::Seconds));
    assert_eq!(unit_for(&segs("workload.mix.0.think_time")), Some(Unit::Seconds));
    assert_eq!(unit_for(&segs("workload.mix.7.turns")), Some(Unit::Count));
    assert_eq!(unit_for(&segs("topology.replication.nodes_per_key")), Some(Unit::Count));
    assert_eq!(unit_for(&segs("run.wss_window")), None);
    assert_eq!(unit_for(&segs("corpus")), None);
}

#[test]
fn a_wildcard_matches_any_one_segment() {
    assert!(matches_path("workload.mix.*.turns", &segs("workload.mix.2.turns")));
    assert!(matches_path("workload.mix.*.turns", &segs("workload.mix.x.turns")));
    assert!(!matches_path("workload.mix.*.turns", &segs("workload.mix.turns")));
    assert!(!matches_path("workload.mix.*.turns", &segs("workload.mix.1.2.turns")));
}

#[test]
fn a_sweep_axis_unit_comes_from_the_axis_path() {
    assert_eq!(sweep_axis_unit("corpus.block_bytes.median"), Some(Unit::Bytes));
    assert_eq!(sweep_axis_unit("workload.sessions.think_time"), Some(Unit::Seconds));
    // A dimensionless axis carries no unit.
    assert_eq!(sweep_axis_unit("workload.mix.0.weight"), None);
    assert_eq!(sweep_axis_unit("corpus.block_bytes.sigma"), None);
    assert_eq!(sweep_axis_unit("workload.mix.2.think_time.median"), Some(Unit::Seconds));
    assert_eq!(sweep_axis_unit(""), None);
}

#[test]
fn only_the_documented_keys_bear_a_unit() {
    let keys = unit_bearing();
    assert_eq!(keys, vec!["value", "min", "max", "mean", "stddev", "median", "scale"]);
    assert!(!keys.contains(&"sigma"));
}

#[test]
fn a_unit_error_names_its_path() {
    let e = NormaliseError { path: "corpus.block_bytes.value".into(), err: "unknown suffix".into() };
    assert_eq!(e.message(), "corpus.block_bytes.value: unknown suffix");
}

#[test]
fn a_chain_that_revisits_a_path_is_a_cycle() {
    let mut seen = Vec::new();
    assert_eq!(enter_chain(&mut seen, "a.yaml".to_string()).unwrap(), "a.yaml");
    assert_eq!(enter_chain(&mut seen, "b.yaml".to_string()).unwrap(), "b.yaml");
    let e = enter_chain(&mut seen, "a.yaml".to_string()).unwrap_err();
    assert_eq!(e, ExtendsError::Cycle("a.yaml".to_string()));
    assert_eq!(seen, vec!["a.yaml".to_string(), "b.yaml".to_string()]);
    assert_eq!(e.message(), "extends chain cycles or exceeds 16 levels at `a.yaml`");
}

#[test]
fn a_chain_deeper_than_the_limit_is_a_cycle() {
    let mut seen = Vec::new();
    for i in 0..MAX_DEPTH {
        enter_chain(&mut seen, format!("p{i}.yaml")).unwrap();
    }
    assert!(matches!(enter_chain(&mut seen, "fresh.yaml".to_string()), Err(ExtendsError::Cycle(_))));
    assert_eq!(seen.len(), MAX_DEPTH);
}

#[test]
fn preset_errors_name_the_preset() {
    let e = ExtendsError::Unreadable { path: "gone.yaml".into(), reason: "not found".into() };
    assert_eq!(e.message(), "cannot read preset `gone.yaml`: not found");
    let e = ExtendsError::Malformed { path: "bad.yaml".into(), reason: "eof".into() };
    assert_eq!(e.message(), "preset `bad.yaml` is not valid YAML: eof");
}

#[test]
fn a_report_is_rejected_only_by_a_rejection() {
    let mut r = Report::default();
    assert!(!r.is_rejected());
    r.warn("16", "thin occupancy".to_string());
    assert!(!r.is_rejected());
    assert!(r.rejections().is_empty());
    r.reject("version", "schema version 2 is not implemented".to_string());
    r.warn("17", "burstiness".to_string());
    assert!(r.is_rejected());
    let rej = r.rejections();
    assert_eq!(rej.len(), 1);
    assert_eq!(rej[0].rule, "version");
    assert_eq!(rej[0].severity, Severity::Reject);
    assert_eq!(r.findings.len(), 3, "every finding is kept, not just the first");
    assert_eq!(
        r.findings[0],
        Finding { severity: Severity::Warn, rule: "16", message: "thin occupancy".to_string() }
    );
}

#[test]
fn a_zero_duration_is_zero_in_any_unit() {
    assert!(is_zero_duration("0"));
    assert!(is_zero_duration("  0  "));
    assert!(is_zero_duration("0s"));
    assert!(is_zero_duration("0ms"));
    assert!(is_zero_duration("0h"));
    assert!(!is_zero_duration("10s"));
    assert!(!is_zero_duration("0.5s"));
    assert!(!is_zero_duration(""));
    assert!(!is_zero_duration("00"));
}

#[test]
fn the_documented_defaults() {
    assert_eq!(DEFAULT_WSS_WINDOW_REQUESTS, 240_000);
    assert_eq!(one(), 1);
    assert_eq!(eight(), 8);
    assert_eq!(Placement::default(), Placement::Sticky);
}

#[test]
fn a_zero_duration_may_be_padded_with_any_unicode_white_space() {
    assert!(is_zero_duration("\u{3000}0s\u{2028}"));
    assert!(is_zero_duration("\t0\n"));
    assert!(!is_zero_duration("\u{200B}0s"));
}
