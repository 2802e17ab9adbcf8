use workload_model::keys::{CacheKey, SessionId};
use workload_model::plan::flags;
use workload_model::plan::record::{PlanEvent, RECORD_BYTES};
use workload_model::plan::writer::{PlanStats, PlanWriter, WriteError};

fn ev(t_ns: u64, request_id: u32, depth: u32, flags: u8) -> PlanEvent {
    PlanEvent {
        t_ns,
        key: CacheKey(u64::from(request_id) << 32 | u64::from(depth)),
        size: 1024,
        request_id,
        session_id: SessionId(request_id),
        depth,
        turn: 1,
        node: 0,
        mix_index: 0,
        flags,
    }
}

fn request(t_ns: u64, id: u32, keys: u32) -> Vec<PlanEvent> {
    (0..keys)
        .map(|d| {
            let mut f = 0;
            if d == 0 {
                f |= flags::REQUEST_START;
            }
            if d == keys - 1 {
                f |= flags::REQUEST_END;
            }
            ev(t_ns, id, d, f)
        })
        .collect()
}

fn write(evs: &[PlanEvent]) -> Result<PlanStats, WriteError> {
    let mut w = PlanWriter::new(Vec::new());
    w.push_all(evs)?;
    w.finish("version: 1\n").map(|(_, s)| s)
}

#[test]
fn a_well_formed_plan_writes_and_counts() {
    let mut evs = request(0, 0, 4);
    evs.extend(request(10, 1, 3));
    let s = write(&evs).unwrap();
    assert_eq!(s.event_count, 7);
    assert_eq!(s.request_count, 2);
    assert_eq!(s.total_bytes, 7 * 1024);
    assert_eq!(s.time_origin_ns, 0);
    assert_eq!(s.duration_ns, 10);
}

#[test]
fn every_record_is_exactly_forty_bytes_on_the_wire() {
    let mut w = PlanWriter::new(Vec::new());
    w.push_all(&request(0, 0, 5)).unwrap();
    let (bytes, _) = w.finish("").unwrap();
    assert_eq!(bytes.len(), 5 * RECORD_BYTES);
}

#[test]
fn time_going_backwards_is_refused() {
    // The runner consumes the plan as a schedule; a backwards step is a
    // different artifact, not a reordering of this one.
    let mut evs = request(100, 0, 2);
    evs.extend(request(50, 1, 2));
    let e = write(&evs).unwrap_err();
    assert!(matches!(e, WriteError::TimeWentBackwards { previous: 100, found: 50 }));
    assert!(e.message().contains("consumed as a schedule"), "{}", e.message());
}

#[test]
fn equal_timestamps_are_fine_because_non_decreasing_is_the_promise() {
    let mut evs = request(7, 0, 2);
    evs.extend(request(7, 1, 2));
    assert!(write(&evs).is_ok());
}

#[test]
fn interleaving_two_requests_is_refused() {
    // Scanning to REQUEST_END must not cross into another request.
    let a = request(0, 0, 3);
    let b = request(0, 1, 3);
    let evs = vec![a[0], b[0], a[1], a[2], b[1], b[2]];
    let e = write(&evs).unwrap_err();
    // The interrupting event opens a request, so it is caught as nesting --
    // either way the plan is refused rather than silently written.
    assert!(matches!(e, WriteError::NestedRequest { open: 0 }), "got {e:?}");
    // And an interruption that does not re-open is caught as interleaving.
    let evs = vec![a[0], ev(0, 1, 1, 0)];
    assert!(matches!(write(&evs).unwrap_err(), WriteError::RequestInterleaved { open: 0, found: 1 }));
}

#[test]
fn keys_out_of_path_order_are_refused() {
    // `depth` is stored precisely because it equals the ordinal.
    let evs = vec![ev(0, 0, 0, flags::REQUEST_START), ev(0, 0, 2, flags::REQUEST_END)];
    assert!(matches!(
        write(&evs).unwrap_err(),
        WriteError::DepthOutOfOrder { request_id: 0, expected: 1, found: 2 }
    ));
}

#[test]
fn a_request_that_never_opens_or_never_closes_is_refused() {
    let orphan = vec![ev(0, 3, 0, 0)];
    assert!(matches!(write(&orphan).unwrap_err(), WriteError::UnopenedRequest { request_id: 3 }));
    let unterminated = vec![ev(0, 0, 0, flags::REQUEST_START)];
    assert!(matches!(
        write(&unterminated).unwrap_err(),
        WriteError::UnterminatedRequest { request_id: 0 }
    ));
}

#[test]
fn request_ids_must_ascend() {
    let mut evs = request(0, 5, 2);
    evs.extend(request(1, 5, 2));
    assert!(matches!(
        write(&evs).unwrap_err(),
        WriteError::RequestIdWentBackwards { previous: 5, found: 5 }
    ));
}

#[test]
fn a_reserved_flag_bit_is_refused_at_write_time() {
    // They exist so a future flag can be added without moving a field, which
    // only works while they are zero.
    let evs = vec![ev(0, 0, 0, flags::REQUEST_START | 0x10)];
    assert!(matches!(write(&evs).unwrap_err(), WriteError::ReservedFlag { flags: 0x11 }));
}

#[test]
fn the_content_hash_covers_the_input_as_well_as_the_events() {
    // Two plans with identical events but different normalised input are
    // different plans, because the input is what a report is traced to.
    let evs = request(0, 0, 3);
    let mut w = PlanWriter::new(Vec::new());
    w.push_all(&evs).unwrap();
    let a = w.finish("version: 1\nseed: 1\n").unwrap().1;
    let mut w = PlanWriter::new(Vec::new());
    w.push_all(&evs).unwrap();
    let b = w.finish("version: 1\nseed: 2\n").unwrap().1;
    assert_ne!(a.content_hash, b.content_hash);
    // And identical input plus identical events agree.
    let mut w = PlanWriter::new(Vec::new());
    w.push_all(&evs).unwrap();
    let c = w.finish("version: 1\nseed: 1\n").unwrap().1;
    assert_eq!(a.content_hash, c.content_hash);
    // The stream digest is over keys alone, so it agrees where the content
    // hash does not.
    assert_eq!(a.stream_digest, b.stream_digest);
}

#[test]
fn the_written_bytes_are_the_encoded_records_in_order() {
    let evs = request(3, 0, 2);
    let mut w = PlanWriter::new(Vec::new());
    for e in &evs {
        w.push(e).unwrap();
    }
    assert_eq!(w.event_count(), 2);
    let (bytes, stats) = w.finish("").unwrap();
    let mut expected = evs[0].encode().to_vec();
    expected.extend_from_slice(&evs[1].encode());
    assert_eq!(bytes, expected);
    assert_eq!(stats.time_origin_ns, 3);
    assert_eq!(stats.duration_ns, 0);
}

#[test]
fn a_refused_event_leaves_the_writer_where_it_was() {
    let mut w = PlanWriter::new(Vec::new());
    w.push_all(&request(10, 0, 2)).unwrap();
    assert!(w.push(&ev(5, 1, 0, flags::REQUEST_START | flags::REQUEST_END)).is_err());
    assert_eq!(w.event_count(), 2);
    w.push(&ev(10, 1, 0, flags::REQUEST_START | flags::REQUEST_END)).unwrap();
    let (bytes, stats) = w.finish("").unwrap();
    assert_eq!(bytes.len(), 3 * RECORD_BYTES);
    assert_eq!(stats.request_count, 2);
}

#[test]
fn taking_the_output_drains_what_was_written_so_far() {
    let mut w = PlanWriter::new(Vec::new());
    w.push_all(&request(0, 0, 2)).unwrap();
    let first = w.take_output();
    assert_eq!(first.len(), 2 * RECORD_BYTES);
    w.push_all(&request(1, 1, 1)).unwrap();
    let (rest, stats) = w.finish("").unwrap();
    assert_eq!(rest.len(), RECORD_BYTES);
    assert_eq!(stats.event_count, 3);
}

#[test]
fn every_write_error_names_its_values() {
    assert_eq!(
        WriteError::RequestIdWentBackwards { previous: 5, found: 4 }.message(),
        "request_id must ascend; 5 then 4"
    );
    assert_eq!(
        WriteError::NestedRequest { open: 12 }.message(),
        "REQUEST_START inside open request 12"
    );
    assert!(WriteError::ReservedFlag { flags: 0x11 }.message().starts_with("flags 0x11 sets a reserved bit"));
    assert!(WriteError::ReservedFlag { flags: 0x0a }.message().starts_with("flags 0x0a "));
    assert_eq!(
        WriteError::UnterminatedRequest { request_id: 0 }.message(),
        "the plan ended inside request 0; half a request is not a request"
    );
    assert!(WriteError::UnboundedPlan.message().contains("parameter hash"));
    assert!(WriteError::DepthOutOfOrder { request_id: 1, expected: 2, found: 3 }
        .message()
        .starts_with("request 1 is not in path order: expected depth 2, found 3."));
    assert!(WriteError::UnopenedRequest { request_id: 9 }.message().starts_with("request 9 has no REQUEST_START"));
    assert!(WriteError::RequestInterleaved { open: 1, found: 2 }
        .message()
        .starts_with("request 2 interrupted request 1;"));
    let io = WriteError::Io(std::io::Error::new(std::io::ErrorKind::Other, "disk full"));
    assert_eq!(io.message(), "writing the plan: disk full");
}

#[test]
fn a_chunk_hands_its_records_to_the_output() {
    let mut evs = request(0, 0, 4);
    evs.extend(request(10, 1, 3));
    let mut w = PlanWriter::new(Vec::new());
    w.push_all(&evs).unwrap();
    let (bytes, s) = w.finish("version: 1\n").unwrap();
    assert_eq!(bytes.len(), 280);
    assert_eq!(s.event_count, 7);
    for (i, e) in evs.iter().enumerate() {
        assert_eq!(&bytes[i * RECORD_BYTES..(i + 1) * RECORD_BYTES], &e.encode()[..]);
    }
}

#[test]
fn a_refused_chunk_keeps_the_records_before_the_refusal() {
    let mut evs = request(100, 0, 2);
    evs.extend(request(50, 1, 2));
    let mut w = PlanWriter::new(Vec::new());
    assert!(matches!(w.push_all(&evs), Err(WriteError::TimeWentBackwards { .. })));
    assert_eq!(w.take_output().len(), 2 * RECORD_BYTES);
}

#[test]
fn checking_an_event_writes_nothing_and_names_the_refusal() {
    let mut w = PlanWriter::new(Vec::new());
    // Depth u32::MAX would overflow if accepted; unopened, it is refused instead.
    let e = ev(0, 0, u32::MAX, 0);
    assert!(matches!(w.check(&e), Err(WriteError::UnopenedRequest { request_id: 0 })));
    assert!(matches!(w.push(&e), Err(WriteError::UnopenedRequest { request_id: 0 })));
    assert_eq!(w.event_count(), 0);
    assert!(w.check(&request(0, 0, 1)[0]).is_ok());
    assert!(w.take_output().is_empty());
}
