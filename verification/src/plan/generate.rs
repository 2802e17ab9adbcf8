//! The run length and look-ahead of chunked generation, and the budget check
//! the generator makes before every birth and every turn.
//!
//! Generation is pull-based and bounded: a caller hands in a buffer and gets
//! back up to a horizon's worth of events. An unbounded run is the same
//! mechanism with a different budget, so the horizon is reported rather than
//! buried.

use vstd::prelude::*;

use crate::plan::record::RECORD_BYTES;
use crate::text::{decimal, push_decimal};

verus! {

/// Default look-ahead: 64Ki events, about 2.5 MiB of records.
pub const DEFAULT_HORIZON_EVENTS: usize = 65536;

/// How the run ends. Exactly one, which the schema's rule 19 enforces.
#[derive(Debug, Clone, Copy, PartialEq, Eq, Structural)]
pub enum Budget {
    /// Stop once plan time passes this.
    Duration(u64),
    /// Stop after this many requests.
    Requests(u64),
    /// Stop after this many block references. The only unit that converts
    /// directly to a file size, which is why file output requires it.
    Blocks(u64),
    /// Run until stopped. Direct-to-server only.
    Unbounded,
}

/// Why a document could not be turned into a generator.
#[derive(Debug)]
pub enum GenError {
    /// A unit-suffixed scalar did not parse.
    Unit {
        /// Which field.
        field: &'static str,
        /// What was wrong with it.
        err: String,
    },
    /// Not exactly one run length; rule 19.
    RunLength(usize),
    /// `open_loop` with no rate, or `closed_loop` with no concurrency.
    Arrival(&'static str),
}

/// The text of each generator error.
pub open spec fn gen_error_text(e: GenError) -> Seq<char> {
    match e {
        GenError::Unit { field, err } => field@ + ": "@ + err@,
        GenError::RunLength(n) => "exactly one of duration | requests | blocks | unbounded is required, found "@
            + decimal(n as nat),
        GenError::Arrival(m) => m@,
    }
}

impl GenError {
    /// What is wrong with the document, naming the field where there is one.
    pub fn message(&self) -> (r: String)
        ensures
            r@ == gen_error_text(*self),
    {
        match self {
            GenError::Unit { field, err } => {
                let mut out = String::from_str(field);
                out.append(": ");
                out.append(err.as_str());
                out
            },
            GenError::RunLength(n) => {
                let mut out = String::from_str(
                    "exactly one of duration | requests | blocks | unbounded is required, found ",
                );
                push_decimal(&mut out, *n as u64);
                out
            },
            GenError::Arrival(m) => String::from_str(m),
        }
    }
}

/// How many run lengths a document states.
pub open spec fn stated_run_lengths(
    duration_ns: Option<u64>,
    requests: Option<u64>,
    blocks: Option<u64>,
    unbounded: Option<bool>,
) -> nat {
    (if duration_ns is Some { 1nat } else { 0nat }) + (if requests is Some { 1nat } else { 0nat })
        + (if blocks is Some { 1nat } else { 0nat }) + (if unbounded == Some(true) { 1nat } else { 0nat })
}

impl Budget {
    /// Whether this run has no end.
    pub fn is_unbounded(&self) -> (r: bool)
        ensures
            r == (*self is Unbounded),
    {
        match self {
            Budget::Unbounded => true,
            _ => false,
        }
    }

    /// The run length a document states, given its four run-length fields
    /// (`duration` already converted to nanoseconds).
    ///
    /// Rule 19 is a *validation* rule, so a document reaching here with none
    /// or several is a caller that skipped validation; this reports how many
    /// it found rather than picking one.
    pub fn from_run_lengths(
        duration_ns: Option<u64>,
        requests: Option<u64>,
        blocks: Option<u64>,
        unbounded: Option<bool>,
    ) -> (r: Result<Budget, GenError>)
        ensures
            stated_run_lengths(duration_ns, requests, blocks, unbounded) == 1 <==> r is Ok,
            stated_run_lengths(duration_ns, requests, blocks, unbounded) != 1 ==> r
                is Err && r->Err_0 == GenError::RunLength(
                stated_run_lengths(duration_ns, requests, blocks, unbounded) as usize,
            ),
            r is Ok ==> match r->Ok_0 {
                Budget::Duration(ns) => duration_ns == Some(ns),
                Budget::Requests(n) => requests == Some(n),
                Budget::Blocks(n) => blocks == Some(n),
                Budget::Unbounded => unbounded == Some(true),
            },
    {
        let mut found: Vec<Budget> = Vec::new();
        if let Some(ns) = duration_ns {
            found.push(Budget::Duration(ns));
        }
        if let Some(n) = requests {
            found.push(Budget::Requests(n));
        }
        if let Some(n) = blocks {
            found.push(Budget::Blocks(n));
        }
        if let Some(true) = unbounded {
            found.push(Budget::Unbounded);
        }
        if found.len() == 1 {
            Ok(found[0])
        } else {
            Err(GenError::RunLength(found.len()))
        }
    }

    /// Whether `keys` more block references fit inside the budget.
    ///
    /// `requests` and `events` are what has been emitted so far, and
    /// `next_event_ns` is the plan time of whatever is scheduled next: a birth
    /// or a turn already past the end contributes nothing.
    pub fn admits(&self, requests: u64, events: u64, keys: u64, next_event_ns: u64) -> (r: bool)
        ensures
            r == match *self {
                Budget::Unbounded => true,
                Budget::Requests(n) => requests < n,
                Budget::Blocks(n) => events + keys <= n,
                Budget::Duration(ns) => next_event_ns <= ns,
            },
    {
        match *self {
            Budget::Unbounded => true,
            Budget::Requests(n) => requests < n,
            Budget::Blocks(n) => keys <= n && events <= n - keys,
            Budget::Duration(ns) => next_event_ns <= ns,
        }
    }
}

/// The look-ahead depth, reported because it must be stated.
#[derive(Debug, Clone, Copy, PartialEq, Eq, Structural)]
pub struct Horizon {
    /// Events per chunk.
    pub events: usize,
    /// Bytes of `events.bin` those events occupy.
    pub bytes: usize,
}

/// How a horizon is reported: its events and the KiB they occupy.
pub open spec fn horizon_text(h: Horizon) -> Seq<char> {
    "look-ahead horizon "@ + decimal(h.events as nat) + " events ("@ + decimal((h.bytes / 1024) as nat)
        + " KiB)"@
}

impl Horizon {
    /// `look-ahead horizon N events (K KiB)`.
    pub fn describe(&self) -> (r: String)
        ensures
            r@ == horizon_text(*self),
    {
        let mut out = String::from_str("look-ahead horizon ");
        push_decimal(&mut out, self.events as u64);
        out.append(" events (");
        push_decimal(&mut out, (self.bytes / 1024) as u64);
        out.append(" KiB)");
        out
    }

    /// The horizon of `events` events per chunk.
    pub fn of(events: usize) -> (r: Horizon)
        requires
            events * RECORD_BYTES <= usize::MAX,
        ensures
            r.events == events,
            r.bytes == events * RECORD_BYTES,
    {
        Horizon { events, bytes: events * RECORD_BYTES }
    }
}

} // verus!
