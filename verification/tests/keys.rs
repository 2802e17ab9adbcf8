use workload_model::keys::{
    clamp_entry_size, private_child, root, size_stream, trunk_child, CacheKey, Generation,
    SessionId,
};

const S: SessionId = SessionId(7);
const T: SessionId = SessionId(8);
const STABLE: Generation = Generation(0);

#[test]
fn a_rotated_generation_changes_the_key() {
    let parent = root(3, STABLE);
    assert_ne!(trunk_child(parent, 5, STABLE), trunk_child(parent, 5, Generation(1)));
}

#[test]
fn rotating_a_node_invalidates_its_whole_subtree() {
    // The rolling hash does this implicitly: a changed parent rehashes every
    // descendant. One parameter therefore covers whole-tree and per-branch
    // replacement.
    let old = trunk_child(root(0, STABLE), 0, STABLE);
    let new = trunk_child(root(0, STABLE), 0, Generation(1));
    for d in 0..8 {
        assert_ne!(trunk_child(old, d, STABLE), trunk_child(new, d, STABLE));
    }
}

#[test]
fn private_keys_follow_the_minter_not_the_reader() {
    // A fan-out child passes its PARENT's id and must therefore derive the
    // parent's keys.
    let p = root(0, STABLE);
    let parent_minted = private_child(p, S, 0);
    let child_reading_parents_prefix = private_child(p, S, 0);
    assert_eq!(parent_minted, child_reading_parents_prefix);
}

#[test]
fn reader_id_would_produce_different_keys() {
    // Keyed on the reader, a child would derive a fresh key for content the
    // parent already holds, and every fan-out would become a miss storm.
    let p = root(0, STABLE);
    assert_ne!(private_child(p, S, 0), private_child(p, T, 0));
}

#[test]
fn trunk_and_private_namespaces_are_disjoint_by_construction() {
    // Disjoint by domain tag, not probabilistically. Same words into both
    // derivations must not collide.
    let p = root(1, STABLE);
    for i in 0..256 {
        assert_ne!(trunk_child(p, i, STABLE), private_child(p, SessionId(i), i));
    }
    // And a root can never equal a trunk or private node.
    for i in 0..64u32 {
        let r = root(i, STABLE);
        assert_ne!(r, trunk_child(r, i, STABLE));
        assert_ne!(r, private_child(r, SessionId(i), i));
    }
}

#[test]
fn siblings_differ_and_are_reproducible() {
    let p = root(0, STABLE);
    let kids: Vec<_> = (0..64).map(|i| trunk_child(p, i, STABLE)).collect();
    let again: Vec<_> = (0..64).map(|i| trunk_child(p, i, STABLE)).collect();
    assert_eq!(kids, again);
    let uniq: std::collections::HashSet<_> = kids.iter().collect();
    assert_eq!(uniq.len(), kids.len(), "sibling collision");
}

#[test]
fn divergence_is_irreversible() {
    // Once two paths differ, every key below differs -- so sharing can only
    // ever be a monotone prefix property.
    let r = root(0, STABLE);
    let mut a = trunk_child(r, 0, STABLE);
    let mut b = trunk_child(r, 1, STABLE);
    for _ in 0..32 {
        // Same child index on both branches: content "identical", keys not.
        a = trunk_child(a, 0, STABLE);
        b = trunk_child(b, 0, STABLE);
        assert_ne!(a, b);
    }
}

#[test]
fn the_stable_generation_is_generation_zero() {
    assert!(Generation::stable().is_stable());
    assert_eq!(Generation::stable(), STABLE);
    assert!(!Generation(3).is_stable());
}

#[test]
fn a_keys_size_stream_depends_on_the_key_alone() {
    let k = trunk_child(root(2, STABLE), 9, STABLE);
    assert_eq!(size_stream(k).take_u64(4), size_stream(k).take_u64(4));
    let other = trunk_child(root(2, STABLE), 10, STABLE);
    assert_ne!(size_stream(k).take_u64(4), size_stream(other).take_u64(4));
}

#[test]
fn an_entry_size_saturates_at_the_largest_u32() {
    assert_eq!(clamp_entry_size(131_072), 131_072);
    assert_eq!(clamp_entry_size(u64::from(u32::MAX)), u32::MAX);
    assert_eq!(clamp_entry_size(u64::MAX), u32::MAX);
}

#[test]
fn keys_are_deterministic_across_calls() {
    assert_eq!(root(5, STABLE), root(5, STABLE));
    assert_ne!(root(5, STABLE), root(6, STABLE));
    assert_ne!(root(5, STABLE), root(5, Generation(2)));
    assert_eq!(CacheKey(3), CacheKey(3));
}
