//! Turning one request of a session into its block references.
//!
//! The trunk walk decides which key sits at each position of the path and the
//! block-size law decides each key's size; what is left is the same for every
//! request: one event per position, numbered by depth, all stamped with the
//! request's time and ids, the first marked as the request's start, the last
//! as its end, and all of them as warmup when the request falls inside it.

use vstd::prelude::*;

use crate::keys::{CacheKey, SessionId};
use crate::plan::flags;
use crate::plan::record::PlanEvent;
use crate::plan::writer::{accepts, has_flag, state_after, OpenRequest, WriterState};
use crate::rng::{below_outcome, initial_state, Stream};
use crate::schema::Placement;

verus! {

/// Label tag of the stream that places a request under per-request placement.
pub const TAG_NODE: u64 = 0x0D0D_E101;

/// What every event of one request shares.
#[derive(Debug, Clone, Copy, PartialEq, Eq, Structural)]
pub struct RequestPlan {
    /// The request's id.
    pub request_id: u32,
    /// When it is issued.
    pub t_ns: u64,
    /// The session it belongs to.
    pub session_id: SessionId,
    /// Which turn of the session.
    pub turn: u16,
    /// The node that issues it.
    pub node: u16,
    /// Which `workload.mix` entry the session was drawn from.
    pub mix_index: u8,
    /// Where warmup ends, in plan time.
    pub warmup_ns: u64,
}

/// The flags of position `i` of an `n`-key request.
pub open spec fn position_flags(req: RequestPlan, i: int, n: int) -> u8 {
    let warm: u8 = if req.t_ns < req.warmup_ns {
        flags::WARMUP
    } else {
        0
    };
    let first: u8 = if i == 0 {
        warm | flags::REQUEST_START
    } else {
        warm
    };
    if i + 1 == n {
        first | flags::REQUEST_END
    } else {
        first
    }
}

/// The event at position `i` of a request whose path is `keys`, sized `sizes`.
pub open spec fn request_event(req: RequestPlan, keys: Seq<CacheKey>, sizes: Seq<u32>, i: int) -> PlanEvent {
    PlanEvent {
        t_ns: req.t_ns,
        key: keys[i],
        size: sizes[i],
        request_id: req.request_id,
        session_id: req.session_id,
        depth: i as u32,
        turn: req.turn,
        node: req.node,
        mix_index: req.mix_index,
        flags: position_flags(req, i, keys.len() as int),
    }
}

/// Every event of the request, in depth order.
pub open spec fn request_events(req: RequestPlan, keys: Seq<CacheKey>, sizes: Seq<u32>) -> Seq<PlanEvent> {
    Seq::new(keys.len(), |i: int| request_event(req, keys, sizes, i))
}

/// Append one request's events to `out`: one per key of its path, in depth
/// order.
pub fn emit_request(req: &RequestPlan, keys: &[CacheKey], sizes: &[u32], out: &mut Vec<PlanEvent>)
    requires
        keys@.len() == sizes@.len(),
        keys@.len() < u32::MAX,
    ensures
        final(out)@ == old(out)@ + request_events(*req, keys@, sizes@),
{
    let n = keys.len();
    let warm: u8 = if req.t_ns < req.warmup_ns {
        flags::WARMUP
    } else {
        0
    };
    let ghost start = out@;
    let mut d: usize = 0;
    while d < n
        invariant
            n == keys@.len(),
            n == sizes@.len(),
            n < u32::MAX,
            d <= n,
            warm == (if req.t_ns < req.warmup_ns {
                flags::WARMUP
            } else {
                0u8
            }),
            out@ == start + request_events(*req, keys@, sizes@).take(d as int),
        decreases n - d,
    {
        let mut f = warm;
        if d == 0 {
            f = f | flags::REQUEST_START;
        }
        if d + 1 == n {
            f = f | flags::REQUEST_END;
        }
        let e = PlanEvent {
            t_ns: req.t_ns,
            key: keys[d],
            size: sizes[d],
            request_id: req.request_id,
            session_id: req.session_id,
            depth: d as u32,
            turn: req.turn,
            node: req.node,
            mix_index: req.mix_index,
            flags: f,
        };
        proof {
            assert(e == request_event(*req, keys@, sizes@, d as int));
        }
        out.push(e);
        d = d + 1;
        proof {
            assert(request_events(*req, keys@, sizes@).take(d as int) =~= request_events(
                *req,
                keys@,
                sizes@,
            ).take(d - 1).push(e));
        }
    }
    proof {
        assert(request_events(*req, keys@, sizes@).take(n as int) =~= request_events(
            *req,
            keys@,
            sizes@,
        ));
    }
}

/// The node that issues request `request_id`: the session's own under sticky
/// placement, otherwise an unbiased draw below `nodes` from the request's own
/// stream, so one request lands on the same node in every run.
pub fn request_node(placement: Placement, seed: u64, nodes: u16, request_id: u32, sticky: u16) -> (r: u16)
    ensures
        placement == Placement::Sticky ==> r == sticky,
        placement == Placement::PerRequest && nodes == 0 ==> r == 0,
        placement == Placement::PerRequest && nodes > 0 ==> r < nodes && exists|j: nat, s: u64|
            #[trigger] below_outcome(
                initial_state(seed ^ TAG_NODE, request_id as u64),
                nodes as u64,
                j,
                r as u64,
                s,
            ),
{
    match placement {
        Placement::Sticky => sticky,
        Placement::PerRequest => {
            let mut st = Stream::new(seed ^ TAG_NODE, request_id as u64);
            let ghost s0 = st@;
            let v = st.next_below(nodes as u64);
            let r = v as u16;
            proof {
                if nodes > 0 {
                    let j = choose|j: nat| #[trigger] below_outcome(s0, nodes as u64, j, v, st@);
                    assert(r as u64 == v);
                    assert(below_outcome(s0, nodes as u64, j, r as u64, st@));
                }
            }
            r
        },
    }
}

proof fn lemma_flag_bits(w: u8, s: bool, e: bool)
    requires
        w == 0 || w == 4,
    ensures
        ({
            let f: u8 = if s { w | 1u8 } else { w };
            let g: u8 = if e { f | 2u8 } else { f };
            &&& g & 0xF0u8 == 0
            &&& (g & 1u8 != 0) == s
            &&& (g & 2u8 != 0) == e
        }),
{
    if s {
        if e {
            assert(((w | 1u8) | 2u8) & 0xF0u8 == 0 && ((w | 1u8) | 2u8) & 1u8 != 0 && ((w | 1u8) | 2u8)
                & 2u8 != 0) by (bit_vector)
                requires
                    w == 0 || w == 4,
            ;
        } else {
            assert((w | 1u8) & 0xF0u8 == 0 && (w | 1u8) & 1u8 != 0 && (w | 1u8) & 2u8 == 0) by (bit_vector)
                requires
                    w == 0 || w == 4,
            ;
        }
    } else {
        if e {
            assert((w | 2u8) & 0xF0u8 == 0 && (w | 2u8) & 1u8 == 0 && (w | 2u8) & 2u8 != 0) by (bit_vector)
                requires
                    w == 0 || w == 4,
            ;
        } else {
            assert(w & 0xF0u8 == 0 && w & 1u8 == 0 && w & 2u8 == 0) by (bit_vector)
                requires
                    w == 0 || w == 4,
            ;
        }
    }
}

/// What an event's flags say about its place in its request.
proof fn lemma_position_flags(req: RequestPlan, keys: Seq<CacheKey>, sizes: Seq<u32>, i: int)
    ensures
        !has_flag(request_event(req, keys, sizes, i), flags::RESERVED_MASK),
        has_flag(request_event(req, keys, sizes, i), flags::REQUEST_START) == (i == 0),
        has_flag(request_event(req, keys, sizes, i), flags::REQUEST_END) == (i + 1 == keys.len()),
{
    let w: u8 = if req.t_ns < req.warmup_ns {
        flags::WARMUP
    } else {
        0
    };
    lemma_flag_bits(w, i == 0, i + 1 == keys.len());
}

/// Where a writer stands after `j` events of a request, begun in state `st`.
pub open spec fn request_state(st: WriterState, req: RequestPlan, n: int, j: int) -> WriterState {
    WriterState {
        first_t_ns: if st.first_t_ns is Some {
            st.first_t_ns
        } else {
            Some(req.t_ns)
        },
        last_t_ns: req.t_ns,
        last_request_id: if j == n {
            Some(req.request_id)
        } else {
            st.last_request_id
        },
        open: if j == n {
            None
        } else {
            Some(OpenRequest { request_id: req.request_id, next_depth: j as u32 })
        },
    }
}

/// Whether a request may follow a writer's state: nothing is open, its id is
/// above the last one closed, and it is not earlier than the last event.
pub open spec fn may_follow(st: WriterState, req: RequestPlan) -> bool {
    &&& st.open is None
    &&& (st.last_request_id is Some ==> st.last_request_id->0 < req.request_id)
    &&& (st.first_t_ns is Some ==> st.last_t_ns <= req.t_ns)
}

proof fn lemma_request_prefix(
    es: Seq<PlanEvent>,
    req: RequestPlan,
    keys: Seq<CacheKey>,
    sizes: Seq<u32>,
    j: int,
)
    requires
        accepts(es),
        may_follow(state_after(es), req),
        keys.len() == sizes.len(),
        1 <= j <= keys.len(),
        keys.len() < u32::MAX,
    ensures
        accepts(es + request_events(req, keys, sizes).take(j)),
        state_after(es + request_events(req, keys, sizes).take(j)) == request_state(
            state_after(es),
            req,
            keys.len() as int,
            j,
        ),
    decreases j,
{
    let r = request_events(req, keys, sizes);
    let all = es + r.take(j);
    let pre = es + r.take(j - 1);
    assert(all.drop_last() =~= pre);
    assert(all.last() == request_event(req, keys, sizes, j - 1));
    lemma_position_flags(req, keys, sizes, j - 1);
    if j == 1 {
        assert(pre =~= es);
    } else {
        lemma_request_prefix(es, req, keys, sizes, j - 1);
    }
}

/// A request assembled by [`emit_request`] is accepted whole by a plan writer
/// that may take it — nothing open, its id above the last one closed, its
/// time not before the last event — and leaves the writer with that request
/// closed.
pub proof fn law_an_emitted_request_is_accepted_whole(
    es: Seq<PlanEvent>,
    req: RequestPlan,
    keys: Seq<CacheKey>,
    sizes: Seq<u32>,
)
    requires
        accepts(es),
        may_follow(state_after(es), req),
        keys.len() == sizes.len(),
        1 <= keys.len() < u32::MAX,
    ensures
        accepts(es + request_events(req, keys, sizes)),
        state_after(es + request_events(req, keys, sizes)) == request_state(
            state_after(es),
            req,
            keys.len() as int,
            keys.len() as int,
        ),
{
    lemma_request_prefix(es, req, keys, sizes, keys.len() as int);
    assert(request_events(req, keys, sizes).take(keys.len() as int) =~= request_events(req, keys, sizes));
}

} // verus!
