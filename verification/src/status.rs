//! The status a leaf process reports to the engine.

use vstd::prelude::*;

verus! {

/// Execution status of a leaf. Only `Success` and `Failure` are terminal;
/// `Running` and `Idle` describe a leaf between terminal reports.
#[derive(Debug, Clone, Copy, PartialEq, Eq, Hash, Structural)]
pub enum Status {
    Success,
    Failure,
    Running,
    Idle,
}

impl Status {
    pub fn is_running(&self) -> (r: bool)
        ensures
            r == (*self is Running),
    {
        matches!(self, Status::Running)
    }

    pub fn is_failure(&self) -> (r: bool)
        ensures
            r == (*self is Failure),
    {
        matches!(self, Status::Failure)
    }

    pub fn is_idle(&self) -> (r: bool)
        ensures
            r == (*self is Idle),
    {
        matches!(self, Status::Idle)
    }

    pub fn is_succes(&self) -> (r: bool)
        ensures
            r == (*self is Success),
    {
        matches!(self, Status::Success)
    }
}

/// The status a finished leaf body reports: `true` is `Success`, `false` is
/// `Failure`.
pub open spec fn status_of_bool(b: bool) -> Status {
    if b {
        Status::Success
    } else {
        Status::Failure
    }
}

impl From<bool> for Status {
    fn from(b: bool) -> Status {
        if b {
            Status::Success
        } else {
            Status::Failure
        }
    }
}

impl vstd::std_specs::convert::FromSpecImpl<bool> for Status {
    open spec fn obeys_from_spec() -> bool {
        true
    }

    open spec fn from_spec(b: bool) -> Status {
        status_of_bool(b)
    }
}

} // verus!
