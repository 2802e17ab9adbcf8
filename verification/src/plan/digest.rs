//! Content hashing and stream digests.
//!
//! Two kinds of identity, and a report must say which it carries, because they
//! answer different questions and confusing them would let an unbounded run
//! masquerade as a bounded one.
//!
//! - [`PlanDigest::Content`] — a hash over the realised events. Available only
//!   for a bounded plan, and the strongest statement: *these exact events*.
//! - [`PlanDigest::Parameters`] — a hash over the normalised YAML, the seed and
//!   `plan_format`. What an unbounded run carries, since it has no final event
//!   set to hash.

use vstd::prelude::*;
use vstd::bytes::*;
use vstd::string::StringSliceAdditionalSpecFns;

use crate::hashing::{
    blake3_digest, digest_string, hasher_clone, hasher_finalize, hasher_input, hasher_new,
    hasher_update, render_digest,
};
use crate::keys::{lemma_words_bytes_injective, lemma_words_bytes_len, words_bytes, CacheKey};

verus! {

/// Which kind of identity an artifact carries.
#[derive(Debug, Clone)]
pub enum PlanDigest {
    /// Hash over the realised events; bounded plans only.
    Content(String),
    /// Hash over normalised YAML + seed + `plan_format`; unbounded runs.
    Parameters(String),
}

impl PartialEq for PlanDigest {
    fn eq(&self, other: &PlanDigest) -> (r: bool) {
        match (self, other) {
            (PlanDigest::Content(a), PlanDigest::Content(b)) => a.eq(b),
            (PlanDigest::Parameters(a), PlanDigest::Parameters(b)) => a.eq(b),
            _ => false,
        }
    }
}

impl vstd::std_specs::cmp::PartialEqSpecImpl for PlanDigest {
    open spec fn obeys_eq_spec() -> bool {
        true
    }

    open spec fn eq_spec(&self, other: &PlanDigest) -> bool {
        match (self, other) {
            (PlanDigest::Content(a), PlanDigest::Content(b)) => a@ == b@,
            (PlanDigest::Parameters(a), PlanDigest::Parameters(b)) => a@ == b@,
            _ => false,
        }
    }
}

impl PlanDigest {
    /// The digest string carried by either kind.
    pub open spec fn text(&self) -> Seq<char> {
        match self {
            PlanDigest::Content(s) => s@,
            PlanDigest::Parameters(s) => s@,
        }
    }

    /// The `blake3:`-prefixed hex form written into a manifest.
    pub fn as_str(&self) -> (r: &str)
        ensures
            r@ == self.text(),
    {
        match self {
            PlanDigest::Content(s) => s.as_str(),
            PlanDigest::Parameters(s) => s.as_str(),
        }
    }

    /// Human label, so a report can never present one kind as the other.
    pub fn kind(&self) -> (r: &'static str)
        ensures
            self is Content ==> r@ == "content-hash (bounded plan)"@,
            self is Parameters ==> r@ == "parameter-hash (unbounded run)"@,
    {
        match self {
            PlanDigest::Content(_) => "content-hash (bounded plan)",
            PlanDigest::Parameters(_) => "parameter-hash (unbounded run)",
        }
    }
}

/// The bytes a parameter hash is taken over.
pub open spec fn parameter_message(yaml: Seq<u8>, seed: u64, plan_format: u32) -> Seq<u8> {
    yaml + spec_u64_to_le_bytes(seed) + spec_u32_to_le_bytes(plan_format)
}

/// Hash the generator's identity: normalised input, seed, and format version.
pub fn parameter_hash(normalised_yaml: &str, seed: u64, plan_format: u32) -> (r: PlanDigest)
    requires
        normalised_yaml.spec_bytes().len() + 12 <= u64::MAX,
    ensures
        r is Parameters,
        r.text() == digest_string(
            blake3_digest(parameter_message(normalised_yaml.spec_bytes(), seed, plan_format)),
        ),
{
    let mut h = hasher_new();
    hasher_update(&mut h, normalised_yaml.as_bytes());
    let s = u64_to_le_bytes(seed);
    hasher_update(&mut h, s.as_slice());
    let f = u32_to_le_bytes(plan_format);
    hasher_update(&mut h, f.as_slice());
    let d = hasher_finalize(&h);
    assert(hasher_input(h) =~= parameter_message(normalised_yaml.spec_bytes(), seed, plan_format));
    PlanDigest::Parameters(render_digest(d.as_slice()))
}

/// The bytes a stream digest is finally taken over: every key, then the count.
///
/// The count is folded in so a truncated run cannot share its message with a
/// complete one that starts the same way.
pub open spec fn stream_message(keys: Seq<u64>) -> Seq<u8> {
    words_bytes(keys) + spec_u64_to_le_bytes(keys.len() as u64)
}

/// Most keys a stream digest absorbs, so its hasher's input stays below 2⁶⁴ bytes.
pub open spec fn max_stream_keys() -> nat {
    (u64::MAX / 8 - 2) as nat
}

/// Accumulates a digest over a consumed key sequence.
///
/// Every consumer of a plan emits one. Two arms with equal digests saw the
/// identical stream, which is this tool's whole contribution to a comparison's
/// validity.
pub struct StreamDigest {
    hasher: blake3::Hasher,
    count: u64,
    keys: Ghost<Seq<u64>>,
}

impl View for StreamDigest {
    type V = Seq<u64>;

    /// The keys absorbed, in consumption order.
    closed spec fn view(&self) -> Seq<u64> {
        self.keys@
    }
}

proof fn lemma_words_bytes_push(words: Seq<u64>, w: u64)
    ensures
        words_bytes(words.push(w)) == words_bytes(words) + spec_u64_to_le_bytes(w),
{
    assert(words.push(w).drop_last() =~= words);
}

impl StreamDigest {
    /// The digest's internal consistency: the hasher has absorbed exactly the
    /// keys' bytes and the count is their number.
    pub closed spec fn wf(&self) -> bool {
        &&& hasher_input(self.hasher) == words_bytes(self.keys@)
        &&& self.count == self.keys@.len()
        &&& self.keys@.len() <= max_stream_keys()
    }

    /// A fresh digest.
    pub fn new() -> (r: StreamDigest)
        ensures
            r.wf(),
            r@ == Seq::<u64>::empty(),
    {
        let r = StreamDigest { hasher: hasher_new(), count: 0, keys: Ghost(Seq::empty()) };
        assert(words_bytes(r.keys@) =~= Seq::<u8>::empty());
        r
    }

    /// Absorb one key, in consumption order.
    pub fn push(&mut self, key: CacheKey)
        requires
            old(self).wf(),
            old(self)@.len() < max_stream_keys(),
        ensures
            final(self).wf(),
            final(self)@ == old(self)@.push(key.0),
    {
        proof {
            lemma_words_bytes_len(self.keys@);
        }
        let b = u64_to_le_bytes(key.0);
        hasher_update(&mut self.hasher, b.as_slice());
        self.count = self.count + 1;
        proof {
            lemma_words_bytes_push(self.keys@, key.0);
            self.keys = Ghost(self.keys@.push(key.0));
        }
    }

    /// How many keys were absorbed.
    pub fn len(&self) -> (r: u64)
        requires
            self.wf(),
        ensures
            r == self@.len(),
    {
        self.count
    }

    /// Whether nothing was absorbed.
    pub fn is_empty(&self) -> (r: bool)
        requires
            self.wf(),
        ensures
            r == (self@.len() == 0),
    {
        self.count == 0
    }

    /// Finish, returning the `blake3:`-prefixed digest.
    pub fn finish(&self) -> (r: String)
        requires
            self.wf(),
        ensures
            r@ == digest_string(blake3_digest(stream_message(self@))),
    {
        proof {
            lemma_words_bytes_len(self.keys@);
        }
        let mut h = hasher_clone(&self.hasher);
        let c = u64_to_le_bytes(self.count);
        hasher_update(&mut h, c.as_slice());
        let d = hasher_finalize(&h);
        render_digest(d.as_slice())
    }
}

/// Two key streams hash the same message only when they are the same stream:
/// the same keys, in the same order, and the same number of them. So a
/// reordered stream, or a prefix of a stream, can share a digest with the whole
/// only through a collision of the hash itself.
pub proof fn law_stream_message_is_injective(a: Seq<u64>, b: Seq<u64>)
    requires
        stream_message(a) == stream_message(b),
    ensures
        a == b,
{
    lemma_auto_spec_u64_to_from_le_bytes();
    lemma_words_bytes_len(a);
    lemma_words_bytes_len(b);
    assert(stream_message(a).len() == 8 * a.len() + 8);
    assert(a.len() == b.len());
    let n = 8 * a.len() as int;
    assert(stream_message(a).subrange(0, n) =~= words_bytes(a));
    assert(stream_message(b).subrange(0, n) =~= words_bytes(b));
    lemma_words_bytes_injective(a, b);
}

} // verus!
