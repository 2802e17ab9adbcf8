//! Writing a plan: the records, and the invariants a reader is entitled to assume.
//!
//! The writer is where the format's promises are **enforced rather than
//! documented**. A consumer may batch a request by scanning forward to
//! `REQUEST_END`, and may consume the stream as a schedule because `t_ns` never
//! goes backwards. Both are things a consumer cannot check cheaply, so every
//! event passes through [`PlanWriter::push`] and a violation is an error at
//! write time.
//!
//! The checks are stated once, as [`push_error`] over the writer's state after
//! the events it has accepted ([`state_after`]); [`law_accepted_plan_is_well_formed`]
//! proves what any sequence the writer accepts looks like.
//!
//! ## The content hash
//!
//! Identity is over the **normalised input and the realised events together**:
//! `blake3(tag || normalised_yaml || blake3(events))`. Nesting the event hash
//! means the writer hashes events as they go without holding the plan, and the
//! yaml is folded in at the end.

use vstd::prelude::*;
use vstd::string::StringSliceAdditionalSpecFns;

use crate::hashing::{
    blake3_digest, digest_string, hasher_finalize, hasher_input, hasher_new, hasher_update,
    render_digest,
};
use crate::plan::digest::{max_stream_keys, stream_message, StreamDigest};
use crate::plan::flags;
use crate::plan::generate::Budget;
use crate::plan::record::{encoding, PlanEvent};
use crate::text::{decimal, hex_byte, push_decimal, push_hex_byte};

verus! {

/// The sink's error type, carried opaquely.
#[verifier::external_type_specification]
#[verifier::external_body]
pub struct ExIoError(std::io::Error);

/// A plan that would have broken a promise the format makes to its readers.
#[allow(inconsistent_fields)]
#[derive(Debug)]
pub enum WriteError {
    /// `t_ns` decreased. The runner consumes the plan as a schedule, so a
    /// backwards step is not a reordering but a different artifact.
    TimeWentBackwards {
        /// The last timestamp written.
        previous: u64,
        /// The one offered.
        found: u64,
    },
    /// A second request's events arrived before the open one ended.
    RequestInterleaved {
        /// The request still open.
        open: u32,
        /// The one that interrupted it.
        found: u32,
    },
    /// `request_id` did not ascend.
    RequestIdWentBackwards {
        /// The last one written.
        previous: u32,
        /// The one offered.
        found: u32,
    },
    /// An event arrived with no request open and without `REQUEST_START`.
    UnopenedRequest {
        /// Which request it claimed to belong to.
        request_id: u32,
    },
    /// `REQUEST_START` inside an already-open request.
    NestedRequest {
        /// The request still open.
        open: u32,
    },
    /// Keys were not in path order: `depth` must equal the key's ordinal
    /// within its request.
    DepthOutOfOrder {
        /// Which request.
        request_id: u32,
        /// The ordinal reached.
        expected: u32,
        /// What the event claimed.
        found: u32,
    },
    /// A reserved flag bit was set.
    ReservedFlag {
        /// The offending flags byte.
        flags: u8,
    },
    /// The stream ended mid-request.
    UnterminatedRequest {
        /// Which request was left open.
        request_id: u32,
    },
    /// A plan file cannot be written for a run with no end.
    UnboundedPlan,
    /// The sink failed.
    Io(std::io::Error),
}

/// Whether a plan file may be written for a run with this budget: only a run
/// with an end leaves anything to write.
pub fn check_bounded(budget: &Budget) -> (r: Result<(), WriteError>)
    ensures
        *budget == Budget::Unbounded ==> r matches Err(WriteError::UnboundedPlan),
        *budget != Budget::Unbounded ==> r is Ok,
{
    match budget {
        Budget::Unbounded => Err(WriteError::UnboundedPlan),
        _ => Ok(()),
    }
}

/// The text of each write error but a failing sink, whose own text comes
/// from the operating system.
pub open spec fn write_error_text(e: WriteError) -> Seq<char> {
    match e {
        WriteError::TimeWentBackwards { previous, found } => "t_ns went backwards ("@ + decimal(
            previous as nat,
        ) + " then "@ + decimal(found as nat)
            + "); the plan is consumed as a schedule, so this is a different artifact rather than a reordering of this one"@,
        WriteError::RequestInterleaved { open, found } => "request "@ + decimal(found as nat)
            + " interrupted request "@ + decimal(open as nat)
            + "; a consumer batching by scanning to REQUEST_END would attribute one request's keys to the other"@,
        WriteError::RequestIdWentBackwards { previous, found } => "request_id must ascend; "@
            + decimal(previous as nat) + " then "@ + decimal(found as nat),
        WriteError::UnopenedRequest { request_id } => "request "@ + decimal(request_id as nat)
            + " has no REQUEST_START, so a consumer has no point to batch from"@,
        WriteError::NestedRequest { open } => "REQUEST_START inside open request "@ + decimal(
            open as nat,
        ),
        WriteError::DepthOutOfOrder { request_id, expected, found } => "request "@ + decimal(
            request_id as nat,
        ) + " is not in path order: expected depth "@ + decimal(expected as nat) + ", found "@
            + decimal(found as nat)
            + ". depth is stored precisely because it equals the ordinal, so that a reader indexing by ordinal need not scan back to REQUEST_START"@,
        WriteError::ReservedFlag { flags } => "flags "@ + hex_byte(flags)
            + " sets a reserved bit; those exist so a future flag can be added without moving a field, which requires them to be zero now"@,
        WriteError::UnterminatedRequest { request_id } => "the plan ended inside request "@
            + decimal(request_id as nat) + "; half a request is not a request"@,
        WriteError::UnboundedPlan => "an unbounded run has no events.bin to write: nothing accumulates, which is the point of it (FR-021e). Its identity is the parameter hash over the normalised YAML, seed and plan_format (FR-021g)"@,
        WriteError::Io(_) => "writing the plan: "@,
    }
}

/// `Display` for `std::io::Error`: the operating system's text for it.
///
/// Nothing is stated of the text: it depends on the platform and its locale.
#[verifier::external_body]
fn io_error_text(e: &std::io::Error) -> String {
    format!("{e}")
}

impl WriteError {
    /// What promise the plan would have broken, naming the values involved.
    ///
    /// A failing sink's message is `writing the plan: ` followed by the
    /// operating system's own text for the failure.
    pub fn message(&self) -> (r: String)
        ensures
            self is Io ==> r@.len() >= write_error_text(*self).len() && r@.take(
                write_error_text(*self).len() as int,
            ) == write_error_text(*self),
            !(self is Io) ==> r@ == write_error_text(*self),
    {
        match self {
            WriteError::TimeWentBackwards { previous, found } => {
                let mut out = String::from_str("t_ns went backwards (");
                push_decimal(&mut out, *previous);
                out.append(" then ");
                push_decimal(&mut out, *found);
                out.append(
                    "); the plan is consumed as a schedule, so this is a different artifact rather than a reordering of this one",
                );
                out
            },
            WriteError::RequestInterleaved { open, found } => {
                let mut out = String::from_str("request ");
                push_decimal(&mut out, *found as u64);
                out.append(" interrupted request ");
                push_decimal(&mut out, *open as u64);
                out.append(
                    "; a consumer batching by scanning to REQUEST_END would attribute one request's keys to the other",
                );
                out
            },
            WriteError::RequestIdWentBackwards { previous, found } => {
                let mut out = String::from_str("request_id must ascend; ");
                push_decimal(&mut out, *previous as u64);
                out.append(" then ");
                push_decimal(&mut out, *found as u64);
                out
            },
            WriteError::UnopenedRequest { request_id } => {
                let mut out = String::from_str("request ");
                push_decimal(&mut out, *request_id as u64);
                out.append(" has no REQUEST_START, so a consumer has no point to batch from");
                out
            },
            WriteError::NestedRequest { open } => {
                let mut out = String::from_str("REQUEST_START inside open request ");
                push_decimal(&mut out, *open as u64);
                out
            },
            WriteError::DepthOutOfOrder { request_id, expected, found } => {
                let mut out = String::from_str("request ");
                push_decimal(&mut out, *request_id as u64);
                out.append(" is not in path order: expected depth ");
                push_decimal(&mut out, *expected as u64);
                out.append(", found ");
                push_decimal(&mut out, *found as u64);
                out.append(
                    ". depth is stored precisely because it equals the ordinal, so that a reader indexing by ordinal need not scan back to REQUEST_START",
                );
                out
            },
            WriteError::ReservedFlag { flags } => {
                let mut out = String::from_str("flags ");
                push_hex_byte(&mut out, *flags);
                out.append(
                    " sets a reserved bit; those exist so a future flag can be added without moving a field, which requires them to be zero now",
                );
                out
            },
            WriteError::UnterminatedRequest { request_id } => {
                let mut out = String::from_str("the plan ended inside request ");
                push_decimal(&mut out, *request_id as u64);
                out.append("; half a request is not a request");
                out
            },
            WriteError::UnboundedPlan => String::from_str(
                "an unbounded run has no events.bin to write: nothing accumulates, which is the point of it (FR-021e). Its identity is the parameter hash over the normalised YAML, seed and plan_format (FR-021g)",
            ),
            WriteError::Io(e) => {
                let mut out = String::from_str("writing the plan: ");
                let text = io_error_text(e);
                let ghost head = out@;
                out.append(text.as_str());
                proof {
                    assert(out@.take(head.len() as int) =~= head);
                }
                out
            },
        }
    }
}

/// What a completed write realised.
#[derive(Debug, Clone)]
pub struct PlanStats {
    /// Events written.
    pub event_count: u64,
    /// Requests written.
    pub request_count: u64,
    /// Payload bytes referenced.
    pub total_bytes: u64,
    /// First timestamp.
    pub time_origin_ns: u64,
    /// Span from the first timestamp to the last.
    pub duration_ns: u64,
    /// `blake3:` hash over the normalised input and the events together.
    pub content_hash: String,
    /// `blake3:` digest over the keys in event order.
    pub stream_digest: String,
}

/// The request currently open.
#[derive(Debug, Clone, Copy, PartialEq, Eq, Structural)]
pub struct OpenRequest {
    /// Which request.
    pub request_id: u32,
    /// The depth the next event of it must carry.
    pub next_depth: u32,
}

/// Where a writer stands after some accepted events.
pub struct WriterState {
    /// The first timestamp, once there is one.
    pub first_t_ns: Option<u64>,
    /// The last timestamp, 0 before any.
    pub last_t_ns: u64,
    /// The last request closed.
    pub last_request_id: Option<u32>,
    /// The request open, if any.
    pub open: Option<OpenRequest>,
}

/// A writer that has accepted nothing.
pub open spec fn initial_state() -> WriterState {
    WriterState { first_t_ns: None, last_t_ns: 0, last_request_id: None, open: None }
}

/// Whether an event carries `bit`.
pub open spec fn has_flag(e: PlanEvent, bit: u8) -> bool {
    e.flags & bit != 0
}

/// Why an event is refused in state `st`, checked in this order; `None` if accepted.
pub open spec fn push_error(st: WriterState, e: PlanEvent) -> Option<WriteError> {
    if has_flag(e, flags::RESERVED_MASK) {
        Some(WriteError::ReservedFlag { flags: e.flags })
    } else if st.first_t_ns is Some && e.t_ns < st.last_t_ns {
        Some(WriteError::TimeWentBackwards { previous: st.last_t_ns, found: e.t_ns })
    } else {
        match st.open {
            Some(o) => {
                if has_flag(e, flags::REQUEST_START) {
                    Some(WriteError::NestedRequest { open: o.request_id })
                } else if e.request_id != o.request_id {
                    Some(WriteError::RequestInterleaved { open: o.request_id, found: e.request_id })
                } else if e.depth != o.next_depth {
                    Some(
                        WriteError::DepthOutOfOrder {
                            request_id: e.request_id,
                            expected: o.next_depth,
                            found: e.depth,
                        },
                    )
                } else {
                    None
                }
            },
            None => {
                if !has_flag(e, flags::REQUEST_START) {
                    Some(WriteError::UnopenedRequest { request_id: e.request_id })
                } else if st.last_request_id is Some && e.request_id
                    <= st.last_request_id->0 {
                    Some(
                        WriteError::RequestIdWentBackwards {
                            previous: st.last_request_id->0,
                            found: e.request_id,
                        },
                    )
                } else if e.depth != 0 {
                    Some(
                        WriteError::DepthOutOfOrder {
                            request_id: e.request_id,
                            expected: 0,
                            found: e.depth,
                        },
                    )
                } else {
                    None
                }
            },
        }
    }
}

/// The state after accepting `e` in state `st`.
pub open spec fn step(st: WriterState, e: PlanEvent) -> WriterState {
    WriterState {
        first_t_ns: if st.first_t_ns is Some {
            st.first_t_ns
        } else {
            Some(e.t_ns)
        },
        last_t_ns: e.t_ns,
        last_request_id: if has_flag(e, flags::REQUEST_END) {
            Some(e.request_id)
        } else {
            st.last_request_id
        },
        open: if has_flag(e, flags::REQUEST_END) {
            None
        } else {
            Some(OpenRequest { request_id: e.request_id, next_depth: (e.depth + 1) as u32 })
        },
    }
}

/// The state after accepting every event of `es`, in order.
pub open spec fn state_after(es: Seq<PlanEvent>) -> WriterState
    decreases es.len(),
{
    if es.len() == 0 {
        initial_state()
    } else {
        step(state_after(es.drop_last()), es.last())
    }
}

/// Whether a writer accepts every event of `es`, in order.
pub open spec fn accepts(es: Seq<PlanEvent>) -> bool
    decreases es.len(),
{
    es.len() == 0 || (accepts(es.drop_last()) && push_error(state_after(es.drop_last()), es.last()) is None)
}

/// The records of `es`, concatenated.
pub open spec fn encodings(es: Seq<PlanEvent>) -> Seq<u8>
    decreases es.len(),
{
    if es.len() == 0 {
        Seq::empty()
    } else {
        encodings(es.drop_last()) + encoding(es.last())
    }
}

/// How many events of `es` open a request.
pub open spec fn request_starts(es: Seq<PlanEvent>) -> nat
    decreases es.len(),
{
    if es.len() == 0 {
        0
    } else {
        request_starts(es.drop_last()) + if has_flag(es.last(), flags::REQUEST_START) {
            1nat
        } else {
            0nat
        }
    }
}

/// The payload bytes `es` references.
pub open spec fn total_size(es: Seq<PlanEvent>) -> nat
    decreases es.len(),
{
    if es.len() == 0 {
        0
    } else {
        total_size(es.drop_last()) + es.last().size as nat
    }
}

/// The keys of `es`, in order.
pub open spec fn keys_of(es: Seq<PlanEvent>) -> Seq<u64> {
    es.map_values(|e: PlanEvent| e.key.0)
}

/// Most events one writer accepts, so its hashers' inputs stay below 2⁶⁴ bytes.
pub open spec fn max_plan_events() -> nat {
    (u64::MAX / 40 - 2) as nat
}

/// The domain separator of the content hash, `certus-plan-content-v1`.
pub open spec fn content_tag() -> Seq<u8> {
    seq![
        99u8, 101, 114, 116, 117, 115, 45, 112, 108, 97, 110, 45, 99, 111, 110, 116, 101, 110,
        116, 45, 118, 49,
    ]
}

/// The bytes the content hash is taken over.
pub open spec fn content_message(yaml: Seq<u8>, es: Seq<PlanEvent>) -> Seq<u8> {
    content_tag() + yaml + blake3_digest(encodings(es))
}

/// The content hash commits to the realised events: its message is the
/// domain tag, then the normalised input, then the digest of the plan's
/// records — so two plans over the same input whose records digest
/// differently are hashed over different messages.
pub proof fn law_the_content_hash_covers_the_events(
    yaml: Seq<u8>,
    a: Seq<PlanEvent>,
    b: Seq<PlanEvent>,
)
    ensures
        content_message(yaml, a).subrange(0, 22) == seq![
            99u8, 101, 114, 116, 117, 115, 45, 112, 108, 97, 110, 45, 99, 111, 110, 116, 101, 110,
            116, 45, 118, 49,
        ],
        content_message(yaml, a).subrange(22, 22 + yaml.len() as int) == yaml,
        content_message(yaml, a).subrange(22 + yaml.len() as int, content_message(yaml, a).len() as int)
            == blake3_digest(encodings(a)),
        blake3_digest(encodings(a)) != blake3_digest(encodings(b)) ==> content_message(yaml, a)
            != content_message(yaml, b),
{
    let ma = content_message(yaml, a);
    let mb = content_message(yaml, b);
    let t = content_tag();
    assert(t.len() == 22);
    assert(ma.subrange(0, 22) =~= t);
    assert(ma.subrange(22, 22 + yaml.len() as int) =~= yaml);
    assert(ma.subrange(22 + yaml.len() as int, ma.len() as int) =~= blake3_digest(encodings(a)));
    assert(mb.subrange(22 + yaml.len() as int, mb.len() as int) =~= blake3_digest(encodings(b)));
    if blake3_digest(encodings(a)) != blake3_digest(encodings(b)) && ma == mb {
        assert(ma.subrange(22 + yaml.len() as int, ma.len() as int) == mb.subrange(22 + yaml.len() as int, mb.len() as int));
    }
}

fn content_tag_bytes() -> (r: Vec<u8>)
    ensures
        r@ == content_tag(),
{
    let r: Vec<u8> = vec![
        99u8, 101, 114, 116, 117, 115, 45, 112, 108, 97, 110, 45, 99, 111, 110, 116, 101, 110,
        116, 45, 118, 49,
    ];
    assert(r@ =~= content_tag());
    r
}

/// Append `bytes` to `out`.
fn append_bytes(out: &mut Vec<u8>, bytes: &[u8])
    ensures
        final(out)@ == old(out)@ + bytes@,
{
    let ghost start = out@;
    let mut i: usize = 0;
    while i < bytes.len()
        invariant
            i <= bytes@.len(),
            out@ == start + bytes@.take(i as int),
        decreases bytes@.len() - i,
    {
        out.push(bytes[i]);
        i = i + 1;
        proof {
            assert(bytes@.take(i as int) =~= bytes@.take(i - 1).push(bytes@[i - 1]));
        }
    }
    assert(bytes@.take(bytes@.len() as int) =~= bytes@);
}

/// Writes the records of a plan into a byte buffer, checking every promise the
/// format makes.
pub struct PlanWriter {
    out: Vec<u8>,
    events: blake3::Hasher,
    digest: StreamDigest,
    event_count: u64,
    request_count: u64,
    total_bytes: u64,
    first_t_ns: Option<u64>,
    last_t_ns: u64,
    last_request_id: Option<u32>,
    open: Option<OpenRequest>,
    accepted: Ghost<Seq<PlanEvent>>,
    taken: Ghost<Seq<u8>>,
    prefix: Ghost<Seq<u8>>,
}

impl View for PlanWriter {
    type V = Seq<PlanEvent>;

    /// The events accepted so far, in order.
    closed spec fn view(&self) -> Seq<PlanEvent> {
        self.accepted@
    }
}

proof fn lemma_push_unfolds(es: Seq<PlanEvent>, e: PlanEvent)
    ensures
        es.push(e).drop_last() == es,
        es.push(e).last() == e,
        state_after(es.push(e)) == step(state_after(es), e),
        encodings(es.push(e)) == encodings(es) + encoding(e),
        request_starts(es.push(e)) == request_starts(es) + if has_flag(e, flags::REQUEST_START) {
            1nat
        } else {
            0nat
        },
        total_size(es.push(e)) == total_size(es) + e.size as nat,
        keys_of(es.push(e)) == keys_of(es).push(e.key.0),
        accepts(es.push(e)) == (accepts(es) && push_error(state_after(es), e) is None),
{
    assert(es.push(e).drop_last() =~= es);
    assert(keys_of(es.push(e)) =~= keys_of(es).push(e.key.0));
}

proof fn lemma_bounds(es: Seq<PlanEvent>)
    ensures
        encodings(es).len() == 40 * es.len(),
        request_starts(es) <= es.len(),
    decreases es.len(),
{
    if es.len() > 0 {
        lemma_bounds(es.drop_last());
        crate::plan::record::lemma_encoding_len(es.last());
    }
}

/// What the writer's state records about the last event it accepted.
proof fn lemma_state_after_last(es: Seq<PlanEvent>)
    requires
        es.len() > 0,
    ensures
        state_after(es).first_t_ns is Some,
        state_after(es).last_t_ns == es.last().t_ns,
        has_flag(es.last(), flags::REQUEST_END) ==> state_after(es).open is None
            && state_after(es).last_request_id == Some(es.last().request_id),
        !has_flag(es.last(), flags::REQUEST_END) ==> state_after(es).open == Some(
            OpenRequest { request_id: es.last().request_id, next_depth: (es.last().depth + 1) as u32 },
        ),
{
}

/// What an accepted event promises relative to the one before it (`None` for the first).
pub open spec fn follows(prev: Option<PlanEvent>, e: PlanEvent) -> bool {
    &&& !has_flag(e, flags::RESERVED_MASK)
    &&& prev is None ==> has_flag(e, flags::REQUEST_START) && e.depth == 0
    &&& prev is Some ==> {
        let q = prev->0;
        &&& q.t_ns <= e.t_ns
        &&& has_flag(e, flags::REQUEST_START) == has_flag(q, flags::REQUEST_END)
        &&& has_flag(e, flags::REQUEST_START) ==> q.request_id < e.request_id && e.depth == 0
        &&& !has_flag(e, flags::REQUEST_START) ==> e.request_id == q.request_id && e.depth == q.depth + 1
    }
}

/// The event before position `i` of `es`, if any.
pub open spec fn before(es: Seq<PlanEvent>, i: int) -> Option<PlanEvent> {
    if i == 0 {
        None
    } else {
        Some(es[i - 1])
    }
}

/// Whether every event that leaves a request open has a next depth that fits in a `u32`.
pub open spec fn depths_fit(es: Seq<PlanEvent>) -> bool {
    forall|i: int|
        0 <= i < es.len() && !has_flag(#[trigger] es[i], flags::REQUEST_END) ==> es[i].depth < u32::MAX
}

proof fn lemma_step_follows(p: Seq<PlanEvent>, e: PlanEvent)
    requires
        push_error(state_after(p), e) is None,
        depths_fit(p),
    ensures
        follows(if p.len() == 0 { None } else { Some(p.last()) }, e),
{
    if p.len() > 0 {
        lemma_state_after_last(p);
        assert(p.last() == p[p.len() - 1]);
    }
}

proof fn lemma_pointwise(es: Seq<PlanEvent>)
    requires
        accepts(es),
        depths_fit(es),
    ensures
        forall|i: int| 0 <= i < es.len() ==> follows(before(es, i), #[trigger] es[i]),
    decreases es.len(),
{
    if es.len() > 0 {
        let p = es.drop_last();
        assert forall|i: int| 0 <= i < p.len() && !has_flag(#[trigger] p[i], flags::REQUEST_END) implies p[i].depth < u32::MAX by {
            assert(p[i] == es[i]);
        }
        lemma_pointwise(p);
        if p.len() > 0 {
            assert(p.last() == es[p.len() - 1]);
        }
        lemma_step_follows(p, es.last());
        assert forall|i: int| 0 <= i < es.len() implies follows(before(es, i), #[trigger] es[i]) by {
            if i < p.len() {
                assert(es[i] == p[i]);
                assert(follows(before(p, i), p[i]));
                if i > 0 {
                    assert(p[i - 1] == es[i - 1]);
                }
            } else if i > 0 {
                assert(p.last() == es[i - 1]);
            }
        }
    }
}

proof fn lemma_time_monotone(es: Seq<PlanEvent>, i: int, j: int)
    requires
        forall|k: int| 0 <= k < es.len() ==> follows(before(es, k), #[trigger] es[k]),
        0 <= i <= j < es.len(),
    ensures
        es[i].t_ns <= es[j].t_ns,
    decreases j - i,
{
    if i < j {
        lemma_time_monotone(es, i, j - 1);
        assert(follows(before(es, j), es[j]));
    }
}

/// Every plan the writer accepts keeps the promises the format makes:
/// no reserved bit is set; timestamps never decrease; the first event opens a
/// request at depth 0; an event opens a request exactly when the one before it
/// closed one, and then with a strictly larger id; every other event continues
/// the open request at the next depth; and the writer has no request open
/// exactly when the last event closed one.
pub proof fn law_accepted_plan_is_well_formed(es: Seq<PlanEvent>)
    requires
        accepts(es),
        depths_fit(es),
    ensures
        forall|i: int| 0 <= i < es.len() ==> follows(before(es, i), #[trigger] es[i]),
        forall|i: int, j: int| 0 <= i <= j < es.len() ==> #[trigger] es[i].t_ns <= #[trigger] es[j].t_ns,
        (state_after(es).open is None) == (es.len() == 0 || has_flag(es.last(), flags::REQUEST_END)),
{
    lemma_pointwise(es);
    assert forall|i: int, j: int| 0 <= i <= j < es.len() implies #[trigger] es[i].t_ns
        <= #[trigger] es[j].t_ns by {
        lemma_time_monotone(es, i, j);
    }
    if es.len() > 0 {
        lemma_state_after_last(es);
    }
}

proof fn lemma_total_size_prefix(es: Seq<PlanEvent>, n: int)
    requires
        0 <= n <= es.len(),
    ensures
        total_size(es.take(n)) <= total_size(es),
    decreases es.len() - n,
{
    if n < es.len() {
        lemma_total_size_prefix(es, n + 1);
        assert(es.take(n + 1).drop_last() =~= es.take(n));
    } else {
        assert(es.take(n) =~= es);
    }
}

proof fn lemma_accepts_prefix(es: Seq<PlanEvent>, n: int)
    requires
        0 <= n <= es.len(),
    ensures
        accepts(es) ==> accepts(es.take(n)),
    decreases es.len() - n,
{
    if n < es.len() {
        lemma_accepts_prefix(es, n + 1);
        assert(es.take(n + 1).drop_last() =~= es.take(n));
    } else {
        assert(es.take(n) =~= es);
    }
}

impl PlanWriter {
    /// Everything the sink has received since construction, in order: the
    /// buffer it was created with, then one record per accepted event.
    pub closed spec fn stream(&self) -> Seq<u8> {
        self.prefix@ + encodings(self.accepted@)
    }

    /// The bytes still held, not yet handed out by [`PlanWriter::take_output`].
    pub closed spec fn pending(&self) -> Seq<u8> {
        self.out@
    }

    /// The writer's internal consistency.
    pub closed spec fn wf(&self) -> bool {
        let es = self.accepted@;
        let st = state_after(es);
        &&& accepts(es)
        &&& es.len() <= max_plan_events()
        &&& self.first_t_ns == st.first_t_ns
        &&& self.last_t_ns == st.last_t_ns
        &&& self.last_request_id == st.last_request_id
        &&& self.open == st.open
        &&& self.event_count == es.len()
        &&& self.request_count == request_starts(es)
        &&& self.total_bytes == total_size(es)
        &&& hasher_input(self.events) == encodings(es)
        &&& self.digest.wf()
        &&& self.digest@ == keys_of(es)
        &&& self.taken@ + self.out@ == self.prefix@ + encodings(es)
    }

    /// The state the writer is in, as the checks see it.
    pub open spec fn state(&self) -> WriterState {
        state_after(self@)
    }

    /// A writer appending to `out`.
    pub fn new(out: Vec<u8>) -> (r: PlanWriter)
        ensures
            r.wf(),
            r@ == Seq::<PlanEvent>::empty(),
            r.stream() == out@,
            r.pending() == out@,
    {
        let ghost initial = out@;
        let r = PlanWriter {
            out,
            events: hasher_new(),
            digest: StreamDigest::new(),
            event_count: 0,
            request_count: 0,
            total_bytes: 0,
            first_t_ns: None,
            last_t_ns: 0,
            last_request_id: None,
            open: None,
            accepted: Ghost(Seq::empty()),
            taken: Ghost(Seq::empty()),
            prefix: Ghost(initial),
        };
        assert(r.taken@ + r.out@ =~= r.prefix@ + encodings(r.accepted@));
        assert(keys_of(r.accepted@) =~= Seq::<u64>::empty());
        r
    }

    /// Whether [`PlanWriter::push`] would accept `e`, and if not, why: the
    /// checks it makes, with nothing written.
    pub fn check(&self, e: &PlanEvent) -> (r: Result<(), WriteError>)
        requires
            self.wf(),
        ensures
            r is Ok <==> push_error(self.state(), *e) is None,
            r matches Err(err) ==> push_error(self.state(), *e) == Some(err),
    {
        if e.flags & flags::RESERVED_MASK != 0 {
            return Err(WriteError::ReservedFlag { flags: e.flags });
        }
        if self.first_t_ns.is_some() && e.t_ns < self.last_t_ns {
            return Err(WriteError::TimeWentBackwards { previous: self.last_t_ns, found: e.t_ns });
        }
        match self.open {
            Some(open) => {
                if e.has(flags::REQUEST_START) {
                    return Err(WriteError::NestedRequest { open: open.request_id });
                }
                if e.request_id != open.request_id {
                    return Err(
                        WriteError::RequestInterleaved { open: open.request_id, found: e.request_id },
                    );
                }
                if e.depth != open.next_depth {
                    return Err(
                        WriteError::DepthOutOfOrder {
                            request_id: e.request_id,
                            expected: open.next_depth,
                            found: e.depth,
                        },
                    );
                }
            },
            None => {
                if !e.has(flags::REQUEST_START) {
                    return Err(WriteError::UnopenedRequest { request_id: e.request_id });
                }
                if let Some(prev) = self.last_request_id {
                    if e.request_id <= prev {
                        return Err(
                            WriteError::RequestIdWentBackwards { previous: prev, found: e.request_id },
                        );
                    }
                }
                if e.depth != 0 {
                    return Err(
                        WriteError::DepthOutOfOrder {
                            request_id: e.request_id,
                            expected: 0,
                            found: e.depth,
                        },
                    );
                }
            },
        }
        Ok(())
    }

    /// Write one event, or refuse it.
    ///
    /// Refused exactly when [`push_error`] names a broken promise, and then
    /// nothing about the writer changes. Accepted, the event's record is
    /// appended and every count moves by it.
    pub fn push(&mut self, e: &PlanEvent) -> (r: Result<(), WriteError>)
        requires
            old(self).wf(),
            push_error(old(self).state(), *e) is None ==> old(self)@.len() < max_plan_events(),
            push_error(old(self).state(), *e) is None && !has_flag(*e, flags::REQUEST_END) ==> e.depth
                < u32::MAX,
            push_error(old(self).state(), *e) is None ==> total_size(old(self)@) + e.size <= u64::MAX,
        ensures
            final(self).wf(),
            push_error(old(self).state(), *e) is Some ==> r == Err::<(), WriteError>(
                push_error(old(self).state(), *e)->0,
            ) && *final(self) == *old(self),
            push_error(old(self).state(), *e) is None ==> r is Ok && final(self)@ == old(
                self,
            )@.push(*e) && final(self).stream() == old(self).stream() + encoding(*e)
                && final(self).pending() == old(self).pending() + encoding(*e),
    {
        let ghost es = self.accepted@;
        proof {
            lemma_push_unfolds(es, *e);
            lemma_bounds(es);
        }
        match self.check(e) {
            Err(err) => {
                return Err(err);
            },
            Ok(()) => {},
        }
        if self.open.is_none() {
            self.request_count = self.request_count + 1;
        }
        let rec = e.encode();
        let ghost out_before = self.out@;
        assert(self.taken@ + out_before == self.prefix@ + encodings(es));
        append_bytes(&mut self.out, rec.as_slice());
        assert(self.out@ == out_before + encoding(*e));
        hasher_update(&mut self.events, rec.as_slice());
        self.digest.push(e.key);
        self.event_count = self.event_count + 1;
        self.total_bytes = self.total_bytes + e.size as u64;
        if self.first_t_ns.is_none() {
            self.first_t_ns = Some(e.t_ns);
        }
        self.last_t_ns = e.t_ns;
        if e.has(flags::REQUEST_END) {
            self.last_request_id = Some(e.request_id);
            self.open = None;
        } else {
            self.open = Some(OpenRequest { request_id: e.request_id, next_depth: e.depth + 1 });
        }
        proof {
            self.accepted = Ghost(es.push(*e));
            assert(encodings(self.accepted@) == encodings(es) + encoding(*e));
            assert(self.taken@ + (out_before + encoding(*e)) =~= (self.taken@ + out_before) + encoding(*e));
            assert(self.taken@ + self.out@ =~= self.prefix@ + encodings(self.accepted@));
            assert(self.prefix@ + encodings(self.accepted@) =~= (self.prefix@ + encodings(es))
                + encoding(*e));
        }
        Ok(())
    }

    /// Write a whole chunk, stopping at the first event refused.
    ///
    /// On success every event of the chunk was accepted, in order. On failure
    /// the events before the refused one were accepted and the error is the
    /// one [`push_error`] names for it.
    pub fn push_all(&mut self, chunk: &[PlanEvent]) -> (r: Result<(), WriteError>)
        requires
            old(self).wf(),
            old(self)@.len() + chunk@.len() < max_plan_events(),
            total_size(old(self)@ + chunk@) <= u64::MAX,
            forall|i: int|
                0 <= i < chunk@.len() && accepts(old(self)@ + chunk@.take(i + 1)) && !has_flag(
                    #[trigger] chunk@[i],
                    flags::REQUEST_END,
                ) ==> chunk@[i].depth < u32::MAX,
        ensures
            final(self).wf(),
            r is Ok <==> accepts(old(self)@ + chunk@),
            r is Ok ==> final(self)@ == old(self)@ + chunk@ && final(self).stream() == old(
                self,
            ).stream() + encodings(chunk@) && final(self).pending() == old(self).pending()
                + encodings(chunk@),
            r is Err ==> exists|k: int|
                0 <= k < chunk@.len() && final(self)@ == old(self)@ + chunk@.take(k) && push_error(
                    final(self).state(),
                    chunk@[k],
                ) == Some(r->Err_0) && final(self).pending() == old(self).pending() + encodings(
                    chunk@.take(k),
                ),
    {
        let ghost start = self@;
        let ghost stream0 = self.stream();
        let ghost pending0 = self.pending();
        let mut i: usize = 0;
        proof {
            assert(chunk@.take(0) =~= Seq::<PlanEvent>::empty());
            assert(start + chunk@.take(0) =~= start);
            assert(encodings(chunk@.take(0)) =~= Seq::<u8>::empty());
            assert(stream0 + encodings(chunk@.take(0)) =~= stream0);
            assert(pending0 + encodings(chunk@.take(0)) =~= pending0);
        }
        while i < chunk.len()
            invariant
                self.wf(),
                i <= chunk@.len(),
                old(self)@ == start,
                old(self).stream() == stream0,
                old(self).pending() == pending0,
                start.len() + chunk@.len() < max_plan_events(),
                total_size(start + chunk@) <= u64::MAX,
                forall|j: int|
                    0 <= j < chunk@.len() && accepts(start + chunk@.take(j + 1)) && !has_flag(
                        #[trigger] chunk@[j],
                        flags::REQUEST_END,
                    ) ==> chunk@[j].depth < u32::MAX,
                self@ == start + chunk@.take(i as int),
                self.stream() == stream0 + encodings(chunk@.take(i as int)),
                self.pending() == pending0 + encodings(chunk@.take(i as int)),
            decreases chunk@.len() - i,
        {
            let e = &chunk[i];
            proof {
                lemma_total_size_prefix(start + chunk@, start.len() + i + 1);
                assert((start + chunk@).take(start.len() + i) =~= self@);
                assert((start + chunk@).take(start.len() + i + 1) =~= self@.push(*e));
                lemma_push_unfolds(self@, *e);
                assert(start + chunk@.take(i + 1) =~= self@.push(*e));
                assert(chunk@[i as int] == *e);
            }
            let res = self.push(e);
            match res {
                Ok(()) => {},
                Err(err) => {
                    proof {
                        let k = i as int;
                        assert(self@ == start + chunk@.take(k));
                        assert(chunk@[k] == *e);
                        assert(push_error(self.state(), chunk@[k]) == Some(err));
                        lemma_accepts_prefix(start + chunk@, start.len() + i + 1);
                        assert((start + chunk@).take(start.len() + i + 1) =~= self@.push(*e));
                        lemma_push_unfolds(self@, *e);
                        assert(self.pending() == pending0 + encodings(chunk@.take(k)));
                        assert(0 <= k < chunk@.len() && self@ == start + chunk@.take(k) && push_error(
                            self.state(),
                            chunk@[k],
                        ) == Some(err) && self.pending() == pending0 + encodings(chunk@.take(k)));
                    }
                    return Err(err);
                },
            }
            proof {
                let t = chunk@.take(i + 1);
                assert(t =~= chunk@.take(i as int).push(*e));
                lemma_push_unfolds(chunk@.take(i as int), *e);
                assert(start + t =~= (start + chunk@.take(i as int)).push(*e));
            }
            i = i + 1;
        }
        proof {
            assert(chunk@.take(chunk@.len() as int) =~= chunk@);
        }
        Ok(())
    }

    /// Events written so far.
    pub fn event_count(&self) -> (r: u64)
        requires
            self.wf(),
        ensures
            r == self@.len(),
    {
        self.event_count
    }

    /// Hand out the bytes held so far, so a caller can pass them to a file
    /// without the writer holding the whole plan.
    pub fn take_output(&mut self) -> (r: Vec<u8>)
        requires
            old(self).wf(),
        ensures
            final(self).wf(),
            r@ == old(self).pending(),
            final(self).pending() == Seq::<u8>::empty(),
            final(self)@ == old(self)@,
            final(self).stream() == old(self).stream(),
            final(self).state() == old(self).state(),
    {
        let mut r: Vec<u8> = Vec::new();
        std::mem::swap(&mut r, &mut self.out);
        proof {
            self.taken = Ghost(self.taken@ + r@);
            assert(self.taken@ + self.out@ =~= self.prefix@ + encodings(self.accepted@));
        }
        r
    }

    /// Finish, returning the bytes held and what was realised.
    ///
    /// Refused when a request is still open; otherwise the statistics are exact
    /// functions of the accepted events and the normalised input.
    pub fn finish(self, normalised_yaml: &str) -> (r: Result<(Vec<u8>, PlanStats), WriteError>)
        requires
            self.wf(),
            normalised_yaml.spec_bytes().len() + 54 <= u64::MAX,
        ensures
            self.state().open is Some ==> r == Err::<(Vec<u8>, PlanStats), WriteError>(
                WriteError::UnterminatedRequest { request_id: self.state().open->0.request_id },
            ),
            self.state().open is None ==> r is Ok && {
                let es = self@;
                let st = self.state();
                let (bytes, stats) = r->Ok_0;
                let origin: u64 = if st.first_t_ns is Some {
                    st.first_t_ns->0
                } else {
                    0
                };
                &&& bytes@ == self.pending()
                &&& stats.event_count == es.len()
                &&& stats.request_count == request_starts(es)
                &&& stats.total_bytes == total_size(es)
                &&& stats.time_origin_ns == origin
                &&& stats.duration_ns == (if st.last_t_ns >= origin {
                    st.last_t_ns - origin
                } else {
                    0
                })
                &&& stats.content_hash@ == digest_string(
                    blake3_digest(content_message(normalised_yaml.spec_bytes(), es)),
                )
                &&& stats.stream_digest@ == digest_string(blake3_digest(stream_message(keys_of(es))))
            },
    {
        if let Some(open) = self.open {
            return Err(WriteError::UnterminatedRequest { request_id: open.request_id });
        }
        let mut h = hasher_new();
        let tag = content_tag_bytes();
        hasher_update(&mut h, tag.as_slice());
        hasher_update(&mut h, normalised_yaml.as_bytes());
        let inner = hasher_finalize(&self.events);
        hasher_update(&mut h, inner.as_slice());
        assert(hasher_input(h) =~= content_message(normalised_yaml.spec_bytes(), self@));
        let d = hasher_finalize(&h);
        let origin = match self.first_t_ns {
            Some(t) => t,
            None => 0,
        };
        let stats = PlanStats {
            event_count: self.event_count,
            request_count: self.request_count,
            total_bytes: self.total_bytes,
            time_origin_ns: origin,
            duration_ns: self.last_t_ns.saturating_sub(origin),
            content_hash: render_digest(d.as_slice()),
            stream_digest: self.digest.finish(),
        };
        Ok((self.out, stats))
    }
}

} // verus!
