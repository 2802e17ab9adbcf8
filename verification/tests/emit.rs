use workload_model::keys::{CacheKey, SessionId};
use workload_model::plan::emit::{emit_request, request_node, RequestPlan};
use workload_model::plan::flags;
use workload_model::plan::writer::PlanWriter;
use workload_model::rng::Stream;
use workload_model::schema::Placement;

fn plan(t_ns: u64, warmup_ns: u64) -> RequestPlan {
    RequestPlan {
        request_id: 7,
        t_ns,
        session_id: SessionId(3),
        turn: 2,
        node: 1,
        mix_index: 4,
        warmup_ns,
    }
}

#[test]
fn a_request_is_one_event_per_key_in_depth_order() {
    let keys = [CacheKey(10), CacheKey(11), CacheKey(12)];
    let sizes = [100u32, 200, 300];
    let mut out = Vec::new();
    emit_request(&plan(5_000, 0), &keys, &sizes, &mut out);
    assert_eq!(out.len(), 3);
    for (d, e) in out.iter().enumerate() {
        assert_eq!(e.depth, d as u32);
        assert_eq!(e.key, keys[d]);
        assert_eq!(e.size, sizes[d]);
        assert_eq!(e.request_id, 7);
        assert_eq!(e.session_id, SessionId(3));
        assert_eq!(e.t_ns, 5_000);
        assert_eq!((e.turn, e.node, e.mix_index), (2, 1, 4));
    }
    assert_eq!(out[0].flags, flags::REQUEST_START);
    assert_eq!(out[1].flags, 0);
    assert_eq!(out[2].flags, flags::REQUEST_END);
}

#[test]
fn a_one_key_request_both_starts_and_ends() {
    let mut out = Vec::new();
    emit_request(&plan(5, 0), &[CacheKey(1)], &[8], &mut out);
    assert_eq!(out.len(), 1);
    assert_eq!(out[0].flags, flags::REQUEST_START | flags::REQUEST_END);
}

#[test]
fn a_request_inside_warmup_marks_every_event() {
    let mut out = Vec::new();
    emit_request(&plan(10, 11), &[CacheKey(1), CacheKey(2)], &[8, 8], &mut out);
    assert!(out.iter().all(|e| e.flags & flags::WARMUP != 0));
    let mut later = Vec::new();
    emit_request(&plan(11, 11), &[CacheKey(1), CacheKey(2)], &[8, 8], &mut later);
    assert!(later.iter().all(|e| e.flags & flags::WARMUP == 0));
}

#[test]
fn emitted_requests_are_accepted_by_the_writer() {
    let mut out = Vec::new();
    let mut p = plan(100, 0);
    emit_request(&p, &[CacheKey(1), CacheKey(2), CacheKey(3)], &[8, 8, 8], &mut out);
    p.request_id = 8;
    p.t_ns = 200;
    emit_request(&p, &[CacheKey(1), CacheKey(4)], &[8, 8], &mut out);
    let mut w = PlanWriter::new(Vec::new());
    assert!(w.push_all(&out).is_ok());
    assert_eq!(w.event_count(), 5);
}

#[test]
fn sticky_placement_keeps_the_session_node_and_per_request_draws_a_reproducible_one() {
    assert_eq!(request_node(Placement::Sticky, 9, 4, 7, 3), 3);
    let a = request_node(Placement::PerRequest, 9, 4, 7, 3);
    assert!(a < 4);
    assert_eq!(a, request_node(Placement::PerRequest, 9, 4, 7, 3));
    let expected = Stream::new(9 ^ 0x0D0D_E101, 7).next_below(4) as u16;
    assert_eq!(a, expected);
    assert_eq!(request_node(Placement::PerRequest, 9, 0, 7, 3), 0);
}
