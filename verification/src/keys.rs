//! Key derivation: the trie whose node identity *is* the hash of the path to it.
//!
//! Three derivations, deliberately kept as three functions rather than one with
//! flags, because the namespaces they inhabit are the invariant:
//!
//! - [`root`] — a depth-0 key.
//! - [`trunk_child`] — a shared node, identified by its path alone.
//! - [`private_child`] — a node private to the session that **minted** it.
//!
//! Each key is the first eight bytes (little-endian) of the BLAKE3 digest of a
//! message: a one-byte domain tag followed by the little-endian words that
//! identify the node. The messages are stated here as spec functions, and the
//! laws at the end prove what the namespaces promise about them: the three
//! derivations never hash the same message, and within one derivation distinct
//! arguments never hash the same message.

use vstd::prelude::*;
use vstd::bytes::*;

use crate::hashing::{blake3_digest, hasher_finalize, hasher_input, hasher_new, hasher_update};
use crate::rng::{initial_state, Stream};

verus! {

/// An opaque KV block identity.
///
/// Not an index and not meaningfully ordered: the only operations that mean
/// anything are equality and hashing.
#[derive(Debug, Copy, Clone, PartialEq, Eq, Structural, Hash, PartialOrd, Ord)]
pub struct CacheKey(pub u64);

/// Which session **minted** a key — not which reads it.
///
/// An agent-fan-out child reads keys its parent minted, so it passes the
/// *parent's* id for the inherited prefix and its own below the spawn point.
#[derive(Debug, Copy, Clone, PartialEq, Eq, Structural, Hash)]
pub struct SessionId(pub u32);

/// Which generation of shared content a trunk node belongs to.
///
/// Advances only when churn is configured. [`Generation(0)`] means no
/// churn, and reduces the derivation to exactly the pre-churn form.
#[derive(Debug, Copy, Clone, PartialEq, Eq, Structural, Hash)]
pub struct Generation(pub u32);

impl Generation {
    /// The no-churn generation, `Generation(0)`. The default everywhere.
    pub fn stable() -> (r: Generation)
        ensures
            r.0 == 0,
    {
        Generation(0)
    }

    /// Whether this is the no-churn generation.
    pub fn is_stable(&self) -> (r: bool)
        ensures
            r == (self.0 == 0),
    {
        self.0 == 0
    }
}

/// Domain tag of a root key.
pub const TAG_ROOT: u8 = 1;

/// Domain tag of a trunk key.
pub const TAG_TRUNK: u8 = 2;

/// Domain tag of a private key.
pub const TAG_PRIVATE: u8 = 3;

/// The little-endian bytes of each word, concatenated in order.
pub open spec fn words_bytes(words: Seq<u64>) -> Seq<u8>
    decreases words.len(),
{
    if words.len() == 0 {
        Seq::empty()
    } else {
        words_bytes(words.drop_last()) + spec_u64_to_le_bytes(words.last())
    }
}

/// The message hashed for a key: the domain tag, then the words.
pub open spec fn key_message(tag: u8, words: Seq<u64>) -> Seq<u8> {
    seq![tag] + words_bytes(words)
}

/// The key a message hashes to: the digest's first eight bytes, little-endian.
pub open spec fn key_of(message: Seq<u8>) -> CacheKey {
    CacheKey(spec_u64_from_le_bytes(blake3_digest(message).subrange(0, 8)))
}

/// The words identifying a root; the generation word is absent when stable.
pub open spec fn root_words(root_index: u32, gen: Generation) -> Seq<u64> {
    if gen.0 == 0 {
        seq![root_index as u64]
    } else {
        seq![root_index as u64, gen.0 as u64]
    }
}

/// The words identifying a trunk child; the generation word is absent when stable.
pub open spec fn trunk_words(parent: CacheKey, child_index: u32, gen: Generation) -> Seq<u64> {
    if gen.0 == 0 {
        seq![parent.0, child_index as u64]
    } else {
        seq![parent.0, child_index as u64, gen.0 as u64]
    }
}

/// The words identifying a private child.
pub open spec fn private_words(parent: CacheKey, minting_session: SessionId, index: u32) -> Seq<u64> {
    seq![parent.0, minting_session.0 as u64, index as u64]
}

/// The message a root key hashes.
pub open spec fn root_message(root_index: u32, gen: Generation) -> Seq<u8> {
    key_message(TAG_ROOT, root_words(root_index, gen))
}

/// The message a trunk key hashes.
pub open spec fn trunk_message(parent: CacheKey, child_index: u32, gen: Generation) -> Seq<u8> {
    key_message(TAG_TRUNK, trunk_words(parent, child_index, gen))
}

/// The message a private key hashes.
pub open spec fn private_message(parent: CacheKey, minting_session: SessionId, index: u32) -> Seq<u8> {
    key_message(TAG_PRIVATE, private_words(parent, minting_session, index))
}

pub proof fn lemma_words_bytes_len(words: Seq<u64>)
    ensures
        words_bytes(words).len() == 8 * words.len(),
    decreases words.len(),
{
    lemma_auto_spec_u64_to_from_le_bytes();
    if words.len() > 0 {
        lemma_words_bytes_len(words.drop_last());
    }
}

/// Hash the domain tag and the given words into a key.
fn derive(tag: u8, words: &[u64]) -> (r: CacheKey)
    requires
        words@.len() <= 3,
    ensures
        r == key_of(key_message(tag, words@)),
{
    let mut h = hasher_new();
    let tag_bytes: Vec<u8> = vec![tag];
    hasher_update(&mut h, tag_bytes.as_slice());
    proof {
        assert(hasher_input(h) =~= key_message(tag, words@.take(0)));
    }
    let mut i: usize = 0;
    while i < words.len()
        invariant
            i <= words@.len() <= 3,
            hasher_input(h) == key_message(tag, words@.take(i as int)),
        decreases words@.len() - i,
    {
        proof {
            lemma_words_bytes_len(words@.take(i as int));
        }
        let b = u64_to_le_bytes(words[i]);
        hasher_update(&mut h, b.as_slice());
        proof {
            let t = words@.take(i + 1);
            assert(t.drop_last() =~= words@.take(i as int));
            assert(hasher_input(h) =~= key_message(tag, t));
        }
        i = i + 1;
    }
    assert(words@.take(words@.len() as int) =~= words@);
    let d = hasher_finalize(&h);
    let k = u64_from_le_bytes(&d[0..8]);
    CacheKey(k)
}

/// A depth-0 key: the start of one tree in the forest.
pub fn root(root_index: u32, gen: Generation) -> (r: CacheKey)
    ensures
        r == key_of(root_message(root_index, gen)),
{
    let words = if gen.is_stable() {
        vec![root_index as u64]
    } else {
        vec![root_index as u64, gen.0 as u64]
    };
    assert(words@ =~= root_words(root_index, gen));
    derive(TAG_ROOT, words.as_slice())
}

/// A shared trunk node: `H(parent, child_index, generation)`.
///
/// With [`Generation(0)`] the generation term is omitted entirely, so a
/// build that never configures churn produces byte-identical keys to one with
/// no churn concept at all.
pub fn trunk_child(parent: CacheKey, child_index: u32, gen: Generation) -> (r: CacheKey)
    ensures
        r == key_of(trunk_message(parent, child_index, gen)),
{
    if gen.is_stable() {
        derive(TAG_TRUNK, vec![parent.0, child_index as u64].as_slice())
    } else {
        derive(TAG_TRUNK, vec![parent.0, child_index as u64, gen.0 as u64].as_slice())
    }
}

/// A node private to the session that minted it.
///
/// The namespace is keyed on `minting_session` — **not** on whoever is
/// reading. For an agent-fan-out child the two differ: the child passes its
/// parent's id for the inherited prefix, so it derives the parent's keys.
pub fn private_child(parent: CacheKey, minting_session: SessionId, index: u32) -> (r: CacheKey)
    ensures
        r == key_of(private_message(parent, minting_session, index)),
{
    derive(TAG_PRIVATE, vec![parent.0, minting_session.0 as u64, index as u64].as_slice())
}

/// The stream an entry size is drawn from: keyed on the key's own value.
///
/// This is what makes a size a **pure function of key identity**: the draw
/// never depends on position in the stream, so the same key has the same size
/// in every run and at every position.
pub fn size_stream(key: CacheKey) -> (r: Stream)
    ensures
        r@ == initial_state(key.0, TAG_PRIVATE as u64),
{
    Stream::new(key.0, TAG_PRIVATE as u64)
}

/// A drawn size, saturated into the `u32` a record carries.
pub fn clamp_entry_size(drawn: u64) -> (r: u32)
    ensures
        r as u64 == (if drawn < u32::MAX as u64 { drawn } else { u32::MAX as u64 }),
{
    if drawn < u32::MAX as u64 {
        drawn as u32
    } else {
        u32::MAX
    }
}

/// The three derivations never hash the same message: a root, a trunk node
/// and a private node differ in their first byte, the domain tag.
pub proof fn law_namespaces_are_disjoint(
    root_index: u32,
    g1: Generation,
    parent: CacheKey,
    child_index: u32,
    g2: Generation,
    parent2: CacheKey,
    minting_session: SessionId,
    index: u32,
)
    ensures
        root_message(root_index, g1) != trunk_message(parent, child_index, g2),
        root_message(root_index, g1) != private_message(parent2, minting_session, index),
        trunk_message(parent, child_index, g2) != private_message(parent2, minting_session, index),
{
    assert(root_message(root_index, g1)[0] == TAG_ROOT);
    assert(trunk_message(parent, child_index, g2)[0] == TAG_TRUNK);
    assert(private_message(parent2, minting_session, index)[0] == TAG_PRIVATE);
}

pub proof fn lemma_words_bytes_injective(a: Seq<u64>, b: Seq<u64>)
    requires
        words_bytes(a) == words_bytes(b),
        a.len() == b.len(),
    ensures
        a == b,
    decreases a.len(),
{
    lemma_auto_spec_u64_to_from_le_bytes();
    if a.len() > 0 {
        let n = a.len() as int;
        lemma_words_bytes_len(a.drop_last());
        lemma_words_bytes_len(b.drop_last());
        let wa = words_bytes(a);
        let k = 8 * (n - 1);
        assert(wa.subrange(0, k) =~= words_bytes(a.drop_last()));
        assert(wa.subrange(k, k + 8) =~= spec_u64_to_le_bytes(a.last()));
        assert(words_bytes(b).subrange(0, k) =~= words_bytes(b.drop_last()));
        assert(words_bytes(b).subrange(k, k + 8) =~= spec_u64_to_le_bytes(b.last()));
        lemma_words_bytes_injective(a.drop_last(), b.drop_last());
        assert(a.last() == b.last());
        assert(a =~= a.drop_last().push(a.last()));
        assert(b =~= b.drop_last().push(b.last()));
    }
}

proof fn lemma_message_words(tag: u8, a: Seq<u64>, b: Seq<u64>)
    requires
        key_message(tag, a) == key_message(tag, b),
    ensures
        a == b,
{
    lemma_words_bytes_len(a);
    lemma_words_bytes_len(b);
    assert(key_message(tag, a).subrange(1, key_message(tag, a).len() as int) =~= words_bytes(a));
    assert(key_message(tag, b).subrange(1, key_message(tag, b).len() as int) =~= words_bytes(b));
    lemma_words_bytes_injective(a, b);
}

/// Identity is the path: two trunk nodes hash the same message only when they
/// have the same parent, the same child index and the same generation. So two
/// trunk keys can coincide only through a collision of the hash itself.
pub proof fn law_trunk_message_is_injective(
    p1: CacheKey,
    c1: u32,
    g1: Generation,
    p2: CacheKey,
    c2: u32,
    g2: Generation,
)
    requires
        trunk_message(p1, c1, g1) == trunk_message(p2, c2, g2),
    ensures
        p1 == p2 && c1 == c2 && g1 == g2,
{
    lemma_message_words(TAG_TRUNK, trunk_words(p1, c1, g1), trunk_words(p2, c2, g2));
    let w1 = trunk_words(p1, c1, g1);
    let w2 = trunk_words(p2, c2, g2);
    assert(w1[0] == w2[0] && w1[1] == w2[1]);
    if g1.0 != 0 {
        assert(w1[2] == w2[2]);
    }
}

/// Private nodes hash the same message only when parent, minting session and
/// index all agree: a reader's identity cannot enter a private key.
pub proof fn law_private_message_is_injective(
    p1: CacheKey,
    s1: SessionId,
    i1: u32,
    p2: CacheKey,
    s2: SessionId,
    i2: u32,
)
    requires
        private_message(p1, s1, i1) == private_message(p2, s2, i2),
    ensures
        p1 == p2 && s1 == s2 && i1 == i2,
{
    lemma_message_words(TAG_PRIVATE, private_words(p1, s1, i1), private_words(p2, s2, i2));
    let w1 = private_words(p1, s1, i1);
    let w2 = private_words(p2, s2, i2);
    assert(w1[0] == w2[0] && w1[1] == w2[1] && w1[2] == w2[2]);
}

/// Roots hash the same message only for the same index and generation.
pub proof fn law_root_message_is_injective(r1: u32, g1: Generation, r2: u32, g2: Generation)
    requires
        root_message(r1, g1) == root_message(r2, g2),
    ensures
        r1 == r2 && g1 == g2,
{
    lemma_message_words(TAG_ROOT, root_words(r1, g1), root_words(r2, g2));
    let w1 = root_words(r1, g1);
    let w2 = root_words(r2, g2);
    assert(w1[0] == w2[0]);
    if g1.0 != 0 {
        assert(w1[1] == w2[1]);
    }
}

/// With the stable generation a trunk key is exactly the pre-churn form
/// `H(TAG_TRUNK, parent, child_index)`, and a rotated generation hashes a
/// different message.
pub proof fn law_stable_generation_is_the_pre_churn_form(parent: CacheKey, child_index: u32, gen: Generation)
    ensures
        trunk_message(parent, child_index, Generation(0)) == key_message(
            TAG_TRUNK,
            seq![parent.0, child_index as u64],
        ),
        gen.0 != 0 ==> trunk_message(parent, child_index, gen) != trunk_message(
            parent,
            child_index,
            Generation(0),
        ),
{
    if gen.0 != 0 && trunk_message(parent, child_index, gen) == trunk_message(parent, child_index, Generation(0)) {
        law_trunk_message_is_injective(parent, child_index, gen, parent, child_index, Generation(0));
    }
}

} // verus!
