//! `extends`: the chain of presets a document is merged on top of.
//!
//! The including document wins on every conflicting leaf and lists replace
//! rather than append; that merge is [`crate::schema::merge`]'s. What is
//! decided here is whether a chain may be followed one more step: a path
//! already visited, or a chain already [`MAX_DEPTH`] long, is a cycle.

use vstd::prelude::*;

verus! {

/// How far `extends` chains may be followed before declaring a cycle.
pub const MAX_DEPTH: usize = 16;

/// Something wrong with an `extends` chain.
#[derive(Debug, PartialEq, Eq)]
pub enum ExtendsError {
    /// The chain revisited a path, or exceeded [`MAX_DEPTH`].
    Cycle(String),
    /// A preset could not be read.
    Unreadable { path: String, reason: String },
    /// A preset was not valid YAML.
    Malformed { path: String, reason: String },
}

/// The text of each chain error.
pub open spec fn extends_error_text(e: ExtendsError) -> Seq<char> {
    match e {
        ExtendsError::Cycle(p) => "extends chain cycles or exceeds 16 levels at `"@ + p@ + "`"@,
        ExtendsError::Unreadable { path, reason } => "cannot read preset `"@ + path@ + "`: "@
            + reason@,
        ExtendsError::Malformed { path, reason } => "preset `"@ + path@ + "` is not valid YAML: "@
            + reason@,
    }
}

impl ExtendsError {
    /// What this error says, naming the preset it concerns.
    pub fn message(&self) -> (r: String)
        ensures
            r@ == extends_error_text(*self),
    {
        match self {
            ExtendsError::Cycle(p) => {
                let mut out = String::from_str("extends chain cycles or exceeds 16 levels at `");
                out.append(p.as_str());
                out.append("`");
                out
            },
            ExtendsError::Unreadable { path, reason } => {
                let mut out = String::from_str("cannot read preset `");
                out.append(path.as_str());
                out.append("`: ");
                out.append(reason.as_str());
                out
            },
            ExtendsError::Malformed { path, reason } => {
                let mut out = String::from_str("preset `");
                out.append(path.as_str());
                out.append("` is not valid YAML: ");
                out.append(reason.as_str());
                out
            },
        }
    }
}

/// The paths a chain has visited, as text.
pub open spec fn visited(seen: Seq<String>) -> Seq<Seq<char>> {
    seen.map_values(|s: String| s@)
}

/// Take one more step along an `extends` chain, to `path`.
///
/// A path already visited, or a chain already [`MAX_DEPTH`] long, is a cycle
/// and leaves `seen` alone; otherwise `path` is recorded and handed back.
pub fn enter_chain(seen: &mut Vec<String>, path: String) -> (r: Result<String, ExtendsError>)
    ensures
        ({
            let cycles = visited(old(seen)@).contains(path@) || old(seen)@.len() >= MAX_DEPTH;
            &&& cycles ==> (r matches Err(ExtendsError::Cycle(p)) && p@ == path@)
            &&& cycles ==> final(seen)@ == old(seen)@
            &&& !cycles ==> (r matches Ok(p) && p@ == path@)
            &&& !cycles ==> visited(final(seen)@) == visited(old(seen)@).push(path@)
        }),
{
    if seen.len() >= MAX_DEPTH {
        return Err(ExtendsError::Cycle(path));
    }
    let mut i: usize = 0;
    while i < seen.len()
        invariant
            i <= seen@.len(),
            forall|j: int| 0 <= j < i ==> seen@[j]@ != path@,
        decreases seen@.len() - i,
    {
        if seen[i] == path {
            proof {
                assert(visited(seen@)[i as int] == path@);
            }
            return Err(ExtendsError::Cycle(path));
        }
        i = i + 1;
    }
    proof {
        assert(!visited(seen@).contains(path@)) by {
            if visited(seen@).contains(path@) {
                let j = choose|j: int| 0 <= j < visited(seen@).len() && visited(seen@)[j] == path@;
                assert(seen@[j]@ == path@);
            }
        }
    }
    let copy = path.clone();
    seen.push(copy);
    proof {
        assert(visited(seen@) =~= visited(old(seen)@).push(path@));
    }
    Ok(path)
}

} // verus!
