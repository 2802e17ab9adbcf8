use workload_model::corpus::{band_at, path_lifetime_ns, SplitState};
use workload_model::dist::Clamps;
use workload_model::plan::generate::{Budget, GenError, Horizon, DEFAULT_HORIZON_EVENTS};

#[test]
fn path_lifetime_is_none_without_churn() {
    assert_eq!(path_lifetime_ns(0, 10), None);
    assert_eq!(path_lifetime_ns(1000, 9), Some(100));
}

#[test]
fn a_deeper_path_lives_a_shorter_time() {
    assert_eq!(path_lifetime_ns(1000, 0), Some(1000));
    assert_eq!(path_lifetime_ns(1000, 1), Some(500));
    assert_eq!(path_lifetime_ns(1000, 2), Some(333));
}

#[test]
fn a_walk_starts_at_its_roots_run_capped_by_the_path() {
    let s = SplitState::at_root_with(Some(30), 100);
    assert_eq!(s.next_split(), 30);
    let capped = SplitState::at_root_with(Some(300), 100);
    assert_eq!(capped.next_split(), 100);
    let per_depth = SplitState::at_root_with(None, 100);
    assert_eq!(per_depth.next_split(), 0);
}

#[test]
fn inside_a_run_the_cohort_is_not_divided() {
    let mut s = SplitState::at_root_with(Some(4), u32::MAX);
    assert!(s.inside_run(0));
    assert!(s.inside_run(3));
    assert!(!s.inside_run(4));
    s.split_at(4, 6);
    assert_eq!(s.next_split(), 10);
    s.set_cap(7);
    assert_eq!(s.next_split(), 10, "re-capping does not move the current split");
    s.split_at(10, 5);
    assert_eq!(s.next_split(), 7, "a run never extends past the cap");
    s.set_cap(u32::MAX);
    s.split_at(u32::MAX - 1, 9);
    assert_eq!(s.next_split(), u32::MAX, "the reach saturates");
}

#[test]
fn clamps_total_what_was_counted() {
    let mut c = Clamps::default();
    assert_eq!(c.total(), 0);
    c.count_domain();
    c.count_domain();
    c.count_normal_truncation();
    assert_eq!(c.domain, 2);
    assert_eq!(c.normal_truncation, 1);
    assert_eq!(c.total(), 3);
}

#[test]
fn exactly_one_run_length_is_accepted() {
    assert_eq!(Budget::from_run_lengths(None, Some(200), None, None).unwrap(), Budget::Requests(200));
    assert_eq!(Budget::from_run_lengths(Some(5), None, None, None).unwrap(), Budget::Duration(5));
    assert_eq!(Budget::from_run_lengths(None, None, Some(9), None).unwrap(), Budget::Blocks(9));
    assert_eq!(Budget::from_run_lengths(None, None, None, Some(true)).unwrap(), Budget::Unbounded);
    assert!(matches!(
        Budget::from_run_lengths(None, None, None, Some(false)),
        Err(GenError::RunLength(0))
    ));
    let e = Budget::from_run_lengths(Some(1), Some(2), None, None).unwrap_err();
    assert!(matches!(e, GenError::RunLength(2)));
    assert_eq!(
        e.message(),
        "exactly one of duration | requests | blocks | unbounded is required, found 2"
    );
}

#[test]
fn the_budget_admits_up_to_its_end_and_no_further() {
    assert!(Budget::Unbounded.is_unbounded());
    assert!(!Budget::Requests(3).is_unbounded());
    assert!(Budget::Requests(3).admits(2, 0, 0, 0));
    assert!(!Budget::Requests(3).admits(3, 0, 0, 0));
    assert!(Budget::Blocks(10).admits(0, 6, 4, 0));
    assert!(!Budget::Blocks(10).admits(0, 6, 5, 0));
    assert!(!Budget::Blocks(3).admits(0, 0, 4, 0));
    assert!(Budget::Duration(100).admits(0, 0, 0, 100));
    assert!(!Budget::Duration(100).admits(0, 0, 0, 101));
    assert!(Budget::Unbounded.admits(u64::MAX, u64::MAX, u64::MAX, u64::MAX));
}

#[test]
fn the_horizon_is_reported_in_events_and_kib() {
    let h = Horizon::of(1000);
    assert_eq!(h.events, 1000);
    assert_eq!(h.bytes, 40_000);
    assert!(h.describe().contains("look-ahead horizon 1000 events"));
    assert_eq!(h.describe(), "look-ahead horizon 1000 events (39 KiB)");
    assert_eq!(Horizon::of(DEFAULT_HORIZON_EVENTS).bytes, 65536 * 40);
}

#[test]
fn generator_errors_name_their_field() {
    let e = GenError::Unit { field: "workload.arrival.rate", err: "no unit".to_string() };
    assert_eq!(e.message(), "workload.arrival.rate: no unit");
    assert_eq!(GenError::Arrival("open_loop needs a rate").message(), "open_loop needs a rate");
}

#[test]
fn the_band_in_force_is_the_last_one_started() {
    let starts = [0u64, 10, 40];
    assert_eq!(band_at(&starts, 0), 0);
    assert_eq!(band_at(&starts, 9), 0);
    assert_eq!(band_at(&starts, 10), 1);
    assert_eq!(band_at(&starts, 1000), 2);
    // A first band starting late still covers the shallow depths.
    assert_eq!(band_at(&[5, 8], 2), 0);
}
