//! The fixed-width `events.bin` record.
//!
//! 40 bytes, little-endian, every field naturally aligned and the record size a
//! multiple of 8 — so an array of records keeps its `u64` fields aligned and a
//! decoder needs no packed intermediate. Fixed width is what makes the file
//! memory-mappable and indexable by ordinal.
//!
//! The layout is [`encoding`]; [`PlanEvent::decode`] is its exact inverse on
//! every record whose reserved bits are zero, and refuses every other record.

use vstd::prelude::*;
use vstd::bytes::*;

use crate::keys::{CacheKey, SessionId};
use crate::plan::flags;
use crate::text::{decimal, push_decimal};

verus! {

/// Size of one encoded record.
pub const RECORD_BYTES: usize = 40;

/// One plan event: a single block reference.
#[derive(Debug, Clone, Copy, PartialEq, Eq, Structural)]
pub struct PlanEvent {
    /// Absolute nanoseconds from the plan's time origin; non-decreasing.
    pub t_ns: u64,
    /// The block referenced.
    pub key: CacheKey,
    /// Payload bytes; a pure function of `key`.
    pub size: u32,
    /// Groups the keys of one request; ascending.
    pub request_id: u32,
    /// The owning session. Stored, not derived.
    pub session_id: SessionId,
    /// Trie depth of this key.
    pub depth: u32,
    /// 1-based turn index within the session.
    pub turn: u16,
    /// Index into `topology.nodes`.
    pub node: u16,
    /// Which `workload.mix` entry the session was drawn from.
    pub mix_index: u8,
    /// See [`flags`].
    pub flags: u8,
}

/// A record that could not be decoded.
#[derive(Debug, PartialEq, Eq, Structural)]
pub enum DecodeError {
    /// The buffer was not `RECORD_BYTES` long.
    ShortBuffer(usize),
    /// A reserved flag bit or the reserved field was non-zero.
    ///
    /// Rejected rather than ignored so that a later additive change cannot be
    /// silently misread by an older decoder.
    ReservedNonZero,
}

/// The 40 bytes a record encodes to.
pub open spec fn encoding(e: PlanEvent) -> Seq<u8> {
    spec_u64_to_le_bytes(e.t_ns) + spec_u64_to_le_bytes(e.key.0) + spec_u32_to_le_bytes(e.size)
        + spec_u32_to_le_bytes(e.request_id) + spec_u32_to_le_bytes(e.session_id.0)
        + spec_u32_to_le_bytes(e.depth) + spec_u16_to_le_bytes(e.turn) + spec_u16_to_le_bytes(
        e.node,
    ) + seq![e.mix_index, e.flags, 0u8, 0u8]
}

/// Whether a record has a reserved flag bit set.
pub open spec fn reserved_flags(f: u8) -> bool {
    f & flags::RESERVED_MASK != 0
}

/// Whether a 40-byte buffer carries anything in a reserved place.
pub open spec fn reserved_nonzero(b: Seq<u8>) -> bool {
    reserved_flags(b[37]) || b[38] != 0 || b[39] != 0
}

/// The event a 40-byte buffer describes.
pub open spec fn decoding(b: Seq<u8>) -> PlanEvent {
    PlanEvent {
        t_ns: spec_u64_from_le_bytes(b.subrange(0, 8)),
        key: CacheKey(spec_u64_from_le_bytes(b.subrange(8, 16))),
        size: spec_u32_from_le_bytes(b.subrange(16, 20)),
        request_id: spec_u32_from_le_bytes(b.subrange(20, 24)),
        session_id: SessionId(spec_u32_from_le_bytes(b.subrange(24, 28))),
        depth: spec_u32_from_le_bytes(b.subrange(28, 32)),
        turn: spec_u16_from_le_bytes(b.subrange(32, 34)),
        node: spec_u16_from_le_bytes(b.subrange(34, 36)),
        mix_index: b[36],
        flags: b[37],
    }
}

/// What decoding `b` yields.
pub open spec fn decode_result(b: Seq<u8>) -> Result<PlanEvent, DecodeError> {
    if b.len() != RECORD_BYTES {
        Err(DecodeError::ShortBuffer(b.len() as usize))
    } else if reserved_nonzero(b) {
        Err(DecodeError::ReservedNonZero)
    } else {
        Ok(decoding(b))
    }
}

proof fn lemma_encoding_parts(e: PlanEvent)
    ensures
        encoding(e).len() == 40,
        encoding(e).subrange(0, 8) == spec_u64_to_le_bytes(e.t_ns),
        encoding(e).subrange(8, 16) == spec_u64_to_le_bytes(e.key.0),
        encoding(e).subrange(16, 20) == spec_u32_to_le_bytes(e.size),
        encoding(e).subrange(20, 24) == spec_u32_to_le_bytes(e.request_id),
        encoding(e).subrange(24, 28) == spec_u32_to_le_bytes(e.session_id.0),
        encoding(e).subrange(28, 32) == spec_u32_to_le_bytes(e.depth),
        encoding(e).subrange(32, 34) == spec_u16_to_le_bytes(e.turn),
        encoding(e).subrange(34, 36) == spec_u16_to_le_bytes(e.node),
        encoding(e)[36] == e.mix_index,
        encoding(e)[37] == e.flags,
        encoding(e)[38] == 0,
        encoding(e)[39] == 0,
{
    lemma_auto_spec_u64_to_from_le_bytes();
    lemma_auto_spec_u32_to_from_le_bytes();
    lemma_auto_spec_u16_to_from_le_bytes();
    let b = encoding(e);
    assert(b.subrange(0, 8) =~= spec_u64_to_le_bytes(e.t_ns));
    assert(b.subrange(8, 16) =~= spec_u64_to_le_bytes(e.key.0));
    assert(b.subrange(16, 20) =~= spec_u32_to_le_bytes(e.size));
    assert(b.subrange(20, 24) =~= spec_u32_to_le_bytes(e.request_id));
    assert(b.subrange(24, 28) =~= spec_u32_to_le_bytes(e.session_id.0));
    assert(b.subrange(28, 32) =~= spec_u32_to_le_bytes(e.depth));
    assert(b.subrange(32, 34) =~= spec_u16_to_le_bytes(e.turn));
    assert(b.subrange(34, 36) =~= spec_u16_to_le_bytes(e.node));
}

/// Every record is exactly [`RECORD_BYTES`] long.
pub proof fn lemma_encoding_len(e: PlanEvent)
    ensures
        encoding(e).len() == RECORD_BYTES,
{
    lemma_encoding_parts(e);
}

/// Decoding an encoded record gives the record back, whenever its reserved
/// flag bits are zero — the only records a writer accepts.
pub proof fn law_decode_inverts_encode(e: PlanEvent)
    requires
        !reserved_flags(e.flags),
    ensures
        encoding(e).len() == RECORD_BYTES,
        decode_result(encoding(e)) == Ok::<PlanEvent, DecodeError>(e),
{
    lemma_encoding_parts(e);
    lemma_auto_spec_u64_to_from_le_bytes();
    lemma_auto_spec_u32_to_from_le_bytes();
    lemma_auto_spec_u16_to_from_le_bytes();
}

/// Encoding a decoded record gives back exactly the 40 bytes it came from.
pub proof fn law_encode_inverts_decode(b: Seq<u8>)
    requires
        decode_result(b) is Ok,
    ensures
        b.len() == RECORD_BYTES,
        encoding(decoding(b)) == b,
{
    lemma_auto_spec_u64_to_from_le_bytes();
    lemma_auto_spec_u32_to_from_le_bytes();
    lemma_auto_spec_u16_to_from_le_bytes();
    let e = decoding(b);
    lemma_encoding_parts(e);
    let x = encoding(e);
    let y = b.subrange(0, 40);
    assert(b.subrange(0, 8).len() == 8);
    assert(x.subrange(0, 8) =~= y.subrange(0, 8));
    assert(x.subrange(8, 16) =~= y.subrange(8, 16));
    assert(x.subrange(16, 20) =~= y.subrange(16, 20));
    assert(x.subrange(20, 24) =~= y.subrange(20, 24));
    assert(x.subrange(24, 28) =~= y.subrange(24, 28));
    assert(x.subrange(28, 32) =~= y.subrange(28, 32));
    assert(x.subrange(32, 34) =~= y.subrange(32, 34));
    assert(x.subrange(34, 36) =~= y.subrange(34, 36));
    assert forall|i: int| 0 <= i < 40 implies x[i] == y[i] by {
        if i < 8 {
            assert(x[i] == x.subrange(0, 8)[i]);
            assert(y[i] == y.subrange(0, 8)[i]);
        } else if i < 16 {
            assert(x[i] == x.subrange(8, 16)[i - 8]);
            assert(y[i] == y.subrange(8, 16)[i - 8]);
        } else if i < 20 {
            assert(x[i] == x.subrange(16, 20)[i - 16]);
            assert(y[i] == y.subrange(16, 20)[i - 16]);
        } else if i < 24 {
            assert(x[i] == x.subrange(20, 24)[i - 20]);
            assert(y[i] == y.subrange(20, 24)[i - 20]);
        } else if i < 28 {
            assert(x[i] == x.subrange(24, 28)[i - 24]);
            assert(y[i] == y.subrange(24, 28)[i - 24]);
        } else if i < 32 {
            assert(x[i] == x.subrange(28, 32)[i - 28]);
            assert(y[i] == y.subrange(28, 32)[i - 28]);
        } else if i < 34 {
            assert(x[i] == x.subrange(32, 34)[i - 32]);
            assert(y[i] == y.subrange(32, 34)[i - 32]);
        } else if i < 36 {
            assert(x[i] == x.subrange(34, 36)[i - 34]);
            assert(y[i] == y.subrange(34, 36)[i - 34]);
        }
    }
    assert(x =~= y);
    assert(y =~= b);
}

/// Append `bytes` to `out`.
fn put(out: &mut Vec<u8>, bytes: &Vec<u8>)
    ensures
        final(out)@ == old(out)@ + bytes@,
{
    let mut i: usize = 0;
    let ghost start = out@;
    while i < bytes.len()
        invariant
            i <= bytes@.len(),
            out@ == start + bytes@.take(i as int),
        decreases bytes@.len() - i,
    {
        out.push(bytes[i]);
        i = i + 1;
        proof {
            assert(bytes@.take(i as int) =~= bytes@.take(i - 1).push(bytes@[i - 1]));
        }
    }
    assert(bytes@.take(bytes@.len() as int) =~= bytes@);
}

/// The text of each decode error.
pub open spec fn decode_error_text(e: DecodeError) -> Seq<char> {
    match e {
        DecodeError::ShortBuffer(n) => "record buffer is "@ + decimal(n as nat) + " bytes, expected 40"@,
        DecodeError::ReservedNonZero => "reserved bits are non-zero; refusing to guess the layout"@,
    }
}

impl DecodeError {
    /// What went wrong, with the length a short buffer had.
    pub fn message(&self) -> (r: String)
        ensures
            r@ == decode_error_text(*self),
    {
        match self {
            DecodeError::ShortBuffer(n) => {
                let mut out = String::from_str("record buffer is ");
                push_decimal(&mut out, *n as u64);
                out.append(" bytes, expected 40");
                out
            },
            DecodeError::ReservedNonZero => String::from_str(
                "reserved bits are non-zero; refusing to guess the layout",
            ),
        }
    }
}

impl PlanEvent {
    /// Encode into exactly [`RECORD_BYTES`] bytes.
    pub fn encode(&self) -> (r: [u8; 40])
        ensures
            r@ == encoding(*self),
    {
        let mut v: Vec<u8> = Vec::new();
        put(&mut v, &u64_to_le_bytes(self.t_ns));
        put(&mut v, &u64_to_le_bytes(self.key.0));
        put(&mut v, &u32_to_le_bytes(self.size));
        put(&mut v, &u32_to_le_bytes(self.request_id));
        put(&mut v, &u32_to_le_bytes(self.session_id.0));
        put(&mut v, &u32_to_le_bytes(self.depth));
        put(&mut v, &u16_to_le_bytes(self.turn));
        put(&mut v, &u16_to_le_bytes(self.node));
        v.push(self.mix_index);
        v.push(self.flags);
        v.push(0u8);
        v.push(0u8);
        proof {
            lemma_encoding_parts(*self);
            assert(v@ =~= encoding(*self));
        }
        let mut b = [0u8; 40];
        let mut i: usize = 0;
        while i < 40
            invariant
                i <= 40,
                v@ == encoding(*self),
                v@.len() == 40,
                forall|j: int| 0 <= j < i ==> b@[j] == v@[j],
                b@.len() == 40,
            decreases 40 - i,
        {
            b[i] = v[i];
            i = i + 1;
        }
        assert(b@ =~= v@);
        b
    }

    /// Decode exactly one record, rejecting a buffer of any other length and
    /// anything with reserved bits set.
    pub fn decode(b: &[u8]) -> (r: Result<PlanEvent, DecodeError>)
        ensures
            r == decode_result(b@),
    {
        if b.len() != RECORD_BYTES {
            return Err(DecodeError::ShortBuffer(b.len()));
        }
        let f = b[37];
        if f & flags::RESERVED_MASK != 0 || b[38] != 0 || b[39] != 0 {
            return Err(DecodeError::ReservedNonZero);
        }
        Ok(PlanEvent {
            t_ns: u64_from_le_bytes(&b[0..8]),
            key: CacheKey(u64_from_le_bytes(&b[8..16])),
            size: u32_from_le_bytes(&b[16..20]),
            request_id: u32_from_le_bytes(&b[20..24]),
            session_id: SessionId(u32_from_le_bytes(&b[24..28])),
            depth: u32_from_le_bytes(&b[28..32]),
            turn: u16_from_le_bytes(&b[32..34]),
            node: u16_from_le_bytes(&b[34..36]),
            mix_index: b[36],
            flags: f,
        })
    }

    /// Whether this event carries `bit`.
    pub fn has(&self, bit: u8) -> (r: bool)
        ensures
            r == (self.flags & bit != 0),
    {
        self.flags & bit != 0
    }
}

} // verus!
