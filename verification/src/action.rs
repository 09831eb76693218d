//! The action leaf's transition table.
//!
//! An action is a long-lived process that runs a user-supplied body while
//! `Running` and sleeps while `Idle`. The task that awaits the body and the
//! parent's messages is asynchronous and lives outside this crate; what it
//! decides on each message is the table here. The other half of the table —
//! a finished body's `true` reporting `Success` and `false` reporting
//! `Failure` — is the `Status` conversion from `bool`.

use vstd::prelude::*;

use crate::message::ChildMessage;
use crate::status::Status;

verus! {

/// The status an action takes, and reports to its parent, on a message:
/// `Start` sets it running, `Stop` returns it to idle. `Kill` yields no
/// status: the process terminates and acknowledges with `Killed` instead.
pub open spec fn spec_action_command(msg: ChildMessage) -> Option<Status> {
    match msg {
        ChildMessage::Start => Some(Status::Running),
        ChildMessage::Stop => Some(Status::Idle),
        ChildMessage::Kill => None,
    }
}

/// The action's response to a message from its parent.
pub fn action_command(msg: &ChildMessage) -> (r: Option<Status>)
    ensures
        r == spec_action_command(*msg),
{
    match msg {
        ChildMessage::Start => Some(Status::Running),
        ChildMessage::Stop => Some(Status::Idle),
        ChildMessage::Kill => None,
    }
}

} // verus!
