//! Reading `events.bin` back: the records in order, or the first one that
//! cannot be decoded.
//!
//! A file is cut into 40-byte records from the front; a shorter tail is a
//! record cut short and is refused with its length, as any short buffer is.

use vstd::prelude::*;

use crate::plan::record::{
    decode_result, encoding, law_decode_inverts_encode, lemma_encoding_len, reserved_flags,
    DecodeError, PlanEvent, RECORD_BYTES,
};
use crate::plan::flags;
use crate::plan::writer::{accepts, encodings, has_flag, push_error, state_after};

verus! {

/// The records `b` holds, front to back, or the error of the first that does
/// not decode.
pub open spec fn decode_records(b: Seq<u8>) -> Result<Seq<PlanEvent>, DecodeError>
    decreases b.len(),
{
    if b.len() == 0 {
        Ok(Seq::empty())
    } else {
        let take = if b.len() < RECORD_BYTES {
            b.len() as int
        } else {
            RECORD_BYTES as int
        };
        match decode_result(b.take(take)) {
            Err(e) => Err(e),
            Ok(first) => match decode_records(b.skip(take)) {
                Ok(rest) => Ok(seq![first] + rest),
                Err(e) => Err(e),
            },
        }
    }
}

/// Decode a whole `events.bin`.
pub fn decode_plan(bytes: &[u8]) -> (r: Result<Vec<PlanEvent>, DecodeError>)
    ensures
        match (r, decode_records(bytes@)) {
            (Ok(v), Ok(s)) => v@ == s,
            (Err(e), Err(x)) => e == x,
            _ => false,
        },
{
    let n = bytes.len();
    let mut out: Vec<PlanEvent> = Vec::new();
    let mut pos: usize = 0;
    proof {
        assert(bytes@.skip(0) =~= bytes@);
        match decode_records(bytes@) {
            Ok(all) => {
                assert(out@ + all =~= all);
            },
            Err(_) => {},
        }
    }
    while pos < n
        invariant
            n == bytes@.len(),
            pos <= n,
            decode_records(bytes@) == match decode_records(bytes@.skip(pos as int)) {
                Ok(rest) => Ok::<Seq<PlanEvent>, DecodeError>(out@ + rest),
                Err(e) => Err(e),
            },
        decreases n - pos,
    {
        let end = if n - pos < RECORD_BYTES {
            n
        } else {
            pos + RECORD_BYTES
        };
        let ghost rest = bytes@.skip(pos as int);
        proof {
            assert(rest.take(end - pos) =~= bytes@.subrange(pos as int, end as int));
            assert(rest.skip(end - pos) =~= bytes@.skip(end as int));
        }
        match PlanEvent::decode(&bytes[pos..end]) {
            Ok(e) => {
                let ghost before = out@;
                out.push(e);
                proof {
                    match decode_records(bytes@.skip(end as int)) {
                        Ok(tail) => {
                            assert(out@ + tail =~= before + (seq![e] + tail));
                        },
                        Err(_) => {},
                    }
                }
                pos = end;
            },
            Err(e) => {
                return Err(e);
            },
        }
    }
    proof {
        assert(bytes@.skip(pos as int) =~= Seq::<u8>::empty());
        assert(out@ + Seq::<PlanEvent>::empty() =~= out@);
    }
    Ok(out)
}

proof fn lemma_encodings_front(es: Seq<PlanEvent>)
    requires
        es.len() > 0,
    ensures
        encodings(es) == encoding(es[0]) + encodings(es.drop_first()),
    decreases es.len(),
{
    if es.len() == 1 {
        assert(es.drop_first() =~= Seq::<PlanEvent>::empty());
        assert(es.drop_last() =~= Seq::<PlanEvent>::empty());
        assert(encodings(es) =~= encoding(es[0]) + encodings(es.drop_first()));
    } else {
        lemma_encodings_front(es.drop_last());
        assert(es.drop_last().drop_first() =~= es.drop_first().drop_last());
        assert(es.drop_first().last() == es.last());
        assert(encodings(es) =~= encoding(es[0]) + encodings(es.drop_first()));
    }
}

/// What the writer writes, the reader reads back: decoding the records of
/// any events whose reserved flag bits are zero gives those events, in order.
pub proof fn law_decoding_written_records_gives_the_events(es: Seq<PlanEvent>)
    requires
        forall|i: int| 0 <= i < es.len() ==> !#[trigger] reserved_flags(es[i].flags),
    ensures
        decode_records(encodings(es)) == Ok::<Seq<PlanEvent>, DecodeError>(es),
    decreases es.len(),
{
    if es.len() == 0 {
        assert(encodings(es) =~= Seq::<u8>::empty());
        assert(es =~= Seq::<PlanEvent>::empty());
    } else {
        lemma_encodings_front(es);
        lemma_encoding_len(es[0]);
        law_decode_inverts_encode(es[0]);
        let b = encodings(es);
        let head = encoding(es[0]);
        assert(!reserved_flags(es[0].flags));
        assert(b.take(40) =~= head);
        assert(b.skip(40) =~= encodings(es.drop_first()));
        assert(b.len() >= 40);
        assert(decode_result(b.take(40)) == Ok::<PlanEvent, DecodeError>(es[0]));
        law_decoding_written_records_gives_the_events(es.drop_first());
        assert(seq![es[0]] + es.drop_first() =~= es);
        assert(decode_records(b) == Ok::<Seq<PlanEvent>, DecodeError>(seq![es[0]] + es.drop_first()));
    }
}

proof fn lemma_accepted_flags_are_clear(es: Seq<PlanEvent>)
    requires
        accepts(es),
    ensures
        forall|i: int| 0 <= i < es.len() ==> !#[trigger] reserved_flags(es[i].flags),
    decreases es.len(),
{
    if es.len() > 0 {
        lemma_accepted_flags_are_clear(es.drop_last());
        assert(push_error(state_after(es.drop_last()), es.last()) is None);
        assert(!has_flag(es.last(), flags::RESERVED_MASK));
        assert forall|i: int| 0 <= i < es.len() implies !#[trigger] reserved_flags(es[i].flags) by {
            if i < es.len() - 1 {
                assert(es[i] == es.drop_last()[i]);
            }
        }
    }
}

/// A plan the writer accepts reads back as exactly the events it accepted.
pub proof fn law_an_accepted_plan_reads_back(es: Seq<PlanEvent>)
    requires
        accepts(es),
    ensures
        decode_records(encodings(es)) == Ok::<Seq<PlanEvent>, DecodeError>(es),
{
    lemma_accepted_flags_are_clear(es);
    law_decoding_written_records_gives_the_events(es);
}

} // verus!
