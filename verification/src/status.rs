//! How a run ended, and the exit code it reports.
//!
//! Shared by both programs so `hledger-xfmt` and `hledger-xadd` cannot drift
//! apart on what an exit code means.

use vstd::prelude::*;

verus! {

/// How the run ended. Ordered worst-last: a run that both finds unformatted
/// files and hits an error reports the error.
#[derive(Debug, Clone, Copy, PartialEq, Eq, Structural)]
pub enum Status {
    /// Everything succeeded.
    Success,
    /// `--check` found files that need formatting.
    Unformatted,
    /// The invocation itself did not make sense.
    Usage,
    /// A file could not be read, written, or walked.
    Error,
}

impl Default for Status {
    fn default() -> (r: Self)
        ensures
            r == Status::Success,
    {
        Status::Success
    }
}

impl Status {
    /// The exit code, which grows with how bad the end was.
    pub open spec fn code_spec(self) -> u8 {
        match self {
            Status::Success => 0,
            Status::Unformatted => 1,
            Status::Usage => 2,
            Status::Error => 3,
        }
    }

    /// The worse of two ends.
    pub open spec fn worse(self, other: Self) -> Self {
        if other.code_spec() > self.code_spec() {
            other
        } else {
            self
        }
    }

    #[must_use]
    pub fn code(self) -> (r: u8)
        ensures
            r == self.code_spec(),
    {
        match self {
            Status::Success => 0,
            Status::Unformatted => 1,
            Status::Usage => 2,
            Status::Error => 3,
        }
    }

    /// Keep the worse of the two.
    pub fn merge(&mut self, other: Self)
        ensures
            *final(self) == old(self).worse(other),
    {
        if other.code() > self.code() {
            *self = other;
        }
    }
}

/// In whatever order ends are merged, the worst is kept: merging is
/// commutative, associative, and merging an end again changes nothing.
pub proof fn merging_keeps_the_worst(a: Status, b: Status, c: Status)
    ensures
        a.worse(b) == b.worse(a),
        a.worse(b).worse(c) == a.worse(b.worse(c)),
        a.worse(a) == a,
        a.worse(b).code_spec() >= a.code_spec(),
        a.worse(b) == a || a.worse(b) == b,
        Status::Success.worse(a) == a,
{
}

} // verus!
