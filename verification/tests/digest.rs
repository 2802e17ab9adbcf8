use workload_model::hashing::render_digest;
use workload_model::keys::CacheKey;
use workload_model::plan::digest::{parameter_hash, PlanDigest, StreamDigest};
use workload_model::plan::manifest::{check_plan_format, Identity, ManifestError, PLAN_FORMAT};

#[test]
fn identical_streams_agree() {
    let keys = [CacheKey(1), CacheKey(2), CacheKey(3)];
    let mut a = StreamDigest::new();
    let mut b = StreamDigest::new();
    for k in keys {
        a.push(k);
        b.push(k);
    }
    assert_eq!(a.finish(), b.finish());
    assert_eq!(a.len(), 3);
}

#[test]
fn order_matters() {
    // A reordered stream is a different stream.
    let mut a = StreamDigest::new();
    let mut b = StreamDigest::new();
    for k in [CacheKey(1), CacheKey(2)] {
        a.push(k);
    }
    for k in [CacheKey(2), CacheKey(1)] {
        b.push(k);
    }
    assert_ne!(a.finish(), b.finish());
}

#[test]
fn a_prefix_is_not_the_whole() {
    // Length is folded in, so a truncated run cannot collide with a complete
    // one that happens to start the same way.
    let mut a = StreamDigest::new();
    let mut b = StreamDigest::new();
    a.push(CacheKey(1));
    b.push(CacheKey(1));
    b.push(CacheKey(2));
    assert_ne!(a.finish(), b.finish());
}

#[test]
fn parameter_hash_depends_on_every_input() {
    let base = parameter_hash("corpus: {}", 1, 1);
    assert_ne!(base, parameter_hash("corpus: {}", 2, 1));
    assert_ne!(base, parameter_hash("corpus: {}", 1, 2));
    assert_ne!(base, parameter_hash("corpus: {a: 1}", 1, 1));
    assert_eq!(base, parameter_hash("corpus: {}", 1, 1));
}

#[test]
fn the_two_digest_kinds_are_labelled_distinctly() {
    // So a report can never present a parameter hash as a plan hash.
    let p = parameter_hash("x", 1, 1);
    let c = PlanDigest::Content("blake3:00".into());
    assert_ne!(p.kind(), c.kind());
}

#[test]
fn a_digest_is_the_prefix_and_sixty_four_hex_digits() {
    let p = parameter_hash("x", 1, 1);
    let s = p.as_str();
    assert!(s.starts_with("blake3:"), "{s}");
    assert_eq!(s.len(), 7 + 64);
    assert!(s[7..].chars().all(|c| c.is_ascii_hexdigit() && !c.is_ascii_uppercase()));
    assert!(matches!(p, PlanDigest::Parameters(_)));
}

#[test]
fn the_parameter_hash_is_blake3_over_yaml_seed_and_format() {
    let mut bytes = b"corpus: {}".to_vec();
    bytes.extend_from_slice(&7u64.to_le_bytes());
    bytes.extend_from_slice(&1u32.to_le_bytes());
    let expected = format!("blake3:{}", blake3::hash(&bytes).to_hex());
    assert_eq!(parameter_hash("corpus: {}", 7, 1).as_str(), expected);
}

#[test]
fn the_stream_digest_is_blake3_over_keys_then_count() {
    let mut d = StreamDigest::new();
    d.push(CacheKey(5));
    d.push(CacheKey(6));
    let mut bytes = Vec::new();
    bytes.extend_from_slice(&5u64.to_le_bytes());
    bytes.extend_from_slice(&6u64.to_le_bytes());
    bytes.extend_from_slice(&2u64.to_le_bytes());
    assert_eq!(d.finish(), format!("blake3:{}", blake3::hash(&bytes).to_hex()));
    assert!(!d.is_empty());
    assert!(StreamDigest::new().is_empty());
}

#[test]
fn hex_rendering_is_lowercase_high_nibble_first() {
    assert_eq!(render_digest(&[0x0f, 0xa0, 0x00]), "blake3:0fa000");
    assert_eq!(render_digest(&[]), "blake3:");
}

#[test]
fn the_two_identity_kinds_carry_their_digest_and_distinct_labels() {
    let bounded_id = Identity::ContentHash("blake3:1".into());
    let unbounded_id: Identity = parameter_hash("version: 1", 1, PLAN_FORMAT).into();
    assert_ne!(bounded_id.label(), unbounded_id.label());
    assert!(unbounded_id.label().contains("unbounded"));
    assert_eq!(bounded_id.digest(), "blake3:1");
    assert!(matches!(unbounded_id, Identity::ParameterHash(_)));
}

#[test]
fn an_unimplemented_plan_format_is_refused_by_the_format_check() {
    assert!(check_plan_format(PLAN_FORMAT).is_ok());
    let e = check_plan_format(99).unwrap_err();
    assert_eq!(e, ManifestError::UnsupportedFormat { found: 99, supported: PLAN_FORMAT });
    assert_eq!(
        e.message(),
        "plan_format 99 is not implemented by this build (supports 1); refusing rather than \
         guessing the record width, which has no length prefix"
    );
    assert_eq!(ManifestError::Malformed("eof".into()).message(), "malformed manifest: eof");
}
