//! Validation findings.
//!
//! Every violation is reported, not just the first, and some rules reject
//! rather than warn: the distinction is whether the resulting numbers would be
//! *wrong* or merely *noisy*.

use vstd::prelude::*;

verus! {

/// How seriously a finding should be taken.
#[derive(Debug, Clone, Copy, PartialEq, Eq, Structural)]
pub enum Severity {
    /// The document cannot be used.
    Reject,
    /// Usable, but the reader should know.
    Warn,
}

/// One validation finding.
#[derive(Debug, Clone, PartialEq, Eq)]
pub struct Finding {
    /// Reject or warn.
    pub severity: Severity,
    /// Which rule.
    pub rule: &'static str,
    /// What is wrong, and where the quantity belongs if it has moved.
    pub message: String,
}

/// The outcome of validating a document.
#[derive(Debug)]
pub struct Report {
    /// Everything found, in rule order.
    pub findings: Vec<Finding>,
}

impl Default for Report {
    fn default() -> (r: Report)
        ensures
            r.findings@.len() == 0,
    {
        Report { findings: Vec::new() }
    }
}

/// Whether a finding rejects its document.
pub open spec fn rejects(f: Finding) -> bool {
    f.severity == Severity::Reject
}

/// The findings a list of references points at.
pub open spec fn pointed(s: Seq<&Finding>) -> Seq<Finding> {
    s.map_values(|f: &Finding| *f)
}

/// The predicate that picks out rejections.
pub open spec fn rejecting() -> spec_fn(Finding) -> bool {
    |f: Finding| rejects(f)
}

impl Report {
    /// Whether anything rejects the document.
    pub fn is_rejected(&self) -> (r: bool)
        ensures
            r == exists|i: int| 0 <= i < self.findings@.len() && #[trigger] rejects(self.findings@[i]),
    {
        let mut i: usize = 0;
        while i < self.findings.len()
            invariant
                i <= self.findings@.len(),
                forall|j: int| 0 <= j < i ==> !#[trigger] rejects(self.findings@[j]),
            decreases self.findings@.len() - i,
        {
            if self.findings[i].severity == Severity::Reject {
                proof {
                    assert(rejects(self.findings@[i as int]));
                }
                return true;
            }
            i = i + 1;
        }
        false
    }

    /// Only the rejections, in the order they were found.
    pub fn rejections(&self) -> (r: Vec<&Finding>)
        ensures
            pointed(r@) == self.findings@.filter(rejecting()),
    {
        let mut out: Vec<&Finding> = Vec::new();
        let mut i: usize = 0;
        while i < self.findings.len()
            invariant
                i <= self.findings@.len(),
                pointed(out@) == self.findings@.take(i as int).filter(rejecting()),
            decreases self.findings@.len() - i,
        {
            let f = &self.findings[i];
            proof {
                let t = self.findings@.take(i + 1);
                assert(t.drop_last() =~= self.findings@.take(i as int));
                assert(t.last() == *f);
                reveal(Seq::filter);
                assert(t.filter(rejecting()) == if rejects(*f) {
                    self.findings@.take(i as int).filter(rejecting()).push(*f)
                } else {
                    self.findings@.take(i as int).filter(rejecting())
                });
            }
            let ghost before = out@;
            if f.severity == Severity::Reject {
                out.push(f);
                proof {
                    assert(pointed(out@) =~= pointed(before).push(*f));
                }
            }
            i = i + 1;
        }
        proof {
            assert(self.findings@.take(self.findings@.len() as int) =~= self.findings@);
        }
        out
    }

    /// Record a rejection under `rule`.
    pub fn reject(&mut self, rule: &'static str, message: String)
        ensures
            final(self).findings@ == old(self).findings@.push(
                Finding { severity: Severity::Reject, rule, message },
            ),
    {
        self.findings.push(Finding { severity: Severity::Reject, rule, message });
    }

    /// Record a warning under `rule`.
    pub fn warn(&mut self, rule: &'static str, message: String)
        ensures
            final(self).findings@ == old(self).findings@.push(
                Finding { severity: Severity::Warn, rule, message },
            ),
    {
        self.findings.push(Finding { severity: Severity::Warn, rule, message });
    }
}

/// Whether `c` has Unicode's `White_Space` property: the characters
/// `str::trim` removes.
pub open spec fn white_space(c: char) -> bool {
    let u = c as u32;
    ||| 0x09 <= u <= 0x0D
    ||| u == 0x20
    ||| u == 0x85
    ||| u == 0xA0
    ||| u == 0x1680
    ||| 0x2000 <= u <= 0x200A
    ||| u == 0x2028
    ||| u == 0x2029
    ||| u == 0x202F
    ||| u == 0x205F
    ||| u == 0x3000
}

/// `s` without its leading whitespace.
pub open spec fn trim_start(s: Seq<char>) -> Seq<char>
    decreases s.len(),
{
    if s.len() > 0 && white_space(s[0]) {
        trim_start(s.drop_first())
    } else {
        s
    }
}

/// `s` without its trailing whitespace.
pub open spec fn trim_end(s: Seq<char>) -> Seq<char>
    decreases s.len(),
{
    if s.len() > 0 && white_space(s.last()) {
        trim_end(s.drop_last())
    } else {
        s
    }
}

/// What `str::trim` leaves of a string: `s` without leading or trailing
/// whitespace.
pub open spec fn trimmed(s: Seq<char>) -> Seq<char> {
    trim_end(trim_start(s))
}

/// `str::trim`: `s` with leading and trailing whitespace removed, whitespace
/// being the characters with Unicode's `White_Space` property.
#[verifier::external_body]
fn trim(s: &str) -> (r: &str)
    ensures
        r@ == trimmed(s@),
{
    s.trim()
}

/// Whether `t` starts with `c` followed by `d`.
pub open spec fn starts_with2(t: Seq<char>, c: char, d: char) -> bool {
    t.len() >= 2 && t[0] == c && t[1] == d
}

/// Whether a duration string, once trimmed, is `0` or a zero with a unit.
pub open spec fn zero_duration_text(t: Seq<char>) -> bool {
    ||| t == seq!['0']
    ||| starts_with2(t, '0', 's')
    ||| starts_with2(t, '0', 'm')
    ||| starts_with2(t, '0', 'h')
}

/// Whether a written duration is zero: `0`, or a zero followed by a unit.
pub fn is_zero_duration(s: &str) -> (r: bool)
    ensures
        r == zero_duration_text(trimmed(s@)),
{
    let t = trim(s);
    let n = t.unicode_len();
    if n == 0 {
        return false;
    }
    let first = t.get_char(0);
    if first != '0' {
        return false;
    }
    if n == 1 {
        proof {
            assert(t@ =~= seq!['0']);
        }
        return true;
    }
    let second = t.get_char(1);
    second == 's' || second == 'm' || second == 'h'
}

} // verus!
