use workload_model::keys::{CacheKey, SessionId};
use workload_model::plan::flags;
use workload_model::plan::reader::decode_plan;
use workload_model::plan::record::{DecodeError, PlanEvent, RECORD_BYTES};

fn sample() -> PlanEvent {
    PlanEvent {
        t_ns: 1_234_567_890,
        key: CacheKey(0xDEAD_BEEF_CAFE_F00D),
        size: 131_072,
        request_id: 42,
        session_id: SessionId(7),
        depth: 19,
        turn: 3,
        node: 2,
        mix_index: 1,
        flags: flags::REQUEST_START | flags::COLD,
    }
}

#[test]
fn record_is_forty_bytes_and_field_offsets_are_aligned() {
    // Offsets are asserted explicitly because the decoder's only signal of the
    // layout is the manifest's plan_format.
    assert_eq!(RECORD_BYTES, 40);
    assert_eq!(RECORD_BYTES % 8, 0, "array would need packed intermediate");
    // Natural alignment: u64s at 0 and 8, u32s at 16/20/24/28, u16s at 32/34.
    for (off, width) in [(0, 8), (8, 8), (16, 4), (20, 4), (24, 4), (28, 4), (32, 2), (34, 2)] {
        assert_eq!(off % width, 0, "field at {off} is not {width}-aligned");
    }
}

#[test]
fn round_trips() {
    let e = sample();
    assert_eq!(PlanEvent::decode(&e.encode()).unwrap(), e);
}

#[test]
fn reserved_flag_bits_are_rejected_not_ignored() {
    let mut b = sample().encode();
    b[37] |= 0x10;
    assert_eq!(PlanEvent::decode(&b), Err(DecodeError::ReservedNonZero));
}

#[test]
fn reserved_trailing_bytes_are_rejected() {
    let mut b = sample().encode();
    b[38] = 1;
    assert_eq!(PlanEvent::decode(&b), Err(DecodeError::ReservedNonZero));
}

#[test]
fn short_buffer_is_reported_with_its_length() {
    assert_eq!(PlanEvent::decode(&[0u8; 39]), Err(DecodeError::ShortBuffer(39)));
    assert_eq!(PlanEvent::decode(&[0u8; 41]), Err(DecodeError::ShortBuffer(41)));
}

#[test]
fn cold_is_not_a_predicted_miss() {
    // Documented semantics, pinned so a future reader does not treat COLD as
    // an expected outcome.
    let e = sample();
    assert!(e.has(flags::COLD));
    assert!(!e.has(flags::WARMUP));
}

#[test]
fn the_layout_is_little_endian_at_the_documented_offsets() {
    let b = sample().encode();
    assert_eq!(&b[0..8], &1_234_567_890u64.to_le_bytes());
    assert_eq!(&b[8..16], &0xDEAD_BEEF_CAFE_F00Du64.to_le_bytes());
    assert_eq!(&b[16..20], &131_072u32.to_le_bytes());
    assert_eq!(&b[20..24], &42u32.to_le_bytes());
    assert_eq!(&b[24..28], &7u32.to_le_bytes());
    assert_eq!(&b[28..32], &19u32.to_le_bytes());
    assert_eq!(&b[32..34], &3u16.to_le_bytes());
    assert_eq!(&b[34..36], &2u16.to_le_bytes());
    assert_eq!(b[36], 1);
    assert_eq!(b[37], flags::REQUEST_START | flags::COLD);
    assert_eq!(&b[38..40], &[0, 0]);
}

#[test]
fn a_buffer_longer_than_one_record_is_refused() {
    let mut v = sample().encode().to_vec();
    v.extend_from_slice(&[9u8; 7]);
    assert_eq!(PlanEvent::decode(&v), Err(DecodeError::ShortBuffer(47)));
}

#[test]
fn decode_errors_say_what_went_wrong() {
    assert_eq!(DecodeError::ShortBuffer(39).message(), "record buffer is 39 bytes, expected 40");
    assert_eq!(
        DecodeError::ReservedNonZero.message(),
        "reserved bits are non-zero; refusing to guess the layout"
    );
}

#[test]
fn a_plan_file_decodes_record_by_record() {
    let a = sample();
    let mut b = sample();
    b.t_ns += 5;
    b.flags = flags::REQUEST_END;
    let mut bytes = a.encode().to_vec();
    bytes.extend_from_slice(&b.encode());
    assert_eq!(decode_plan(&bytes).unwrap(), vec![a, b]);
    assert_eq!(decode_plan(&[]).unwrap(), Vec::<PlanEvent>::new());
}

#[test]
fn a_plan_file_with_a_cut_tail_reports_the_tail_length() {
    let mut bytes = sample().encode().to_vec();
    bytes.extend_from_slice(&[0u8; 13]);
    assert_eq!(decode_plan(&bytes), Err(DecodeError::ShortBuffer(13)));
    let mut bad = sample().encode().to_vec();
    bad.extend_from_slice(&sample().encode());
    bad[40 + 39] = 1;
    assert_eq!(decode_plan(&bad), Err(DecodeError::ReservedNonZero));
}
