//! The messages exchanged between the engine and a leaf process, and the
//! errors a leaf can raise.

use vstd::prelude::*;

use crate::node::Node;
use crate::status::Status;

verus! {

/// Message from the engine to a leaf process.
#[derive(Debug, Clone, Copy, PartialEq, Eq, Structural)]
pub enum ChildMessage {
    Start,
    Stop,
    Kill,
}

/// Error raised by a leaf process. Channel faults of the runtime are carried
/// as text, so the error stays a plain value.
#[derive(Debug, Clone, PartialEq, Eq)]
pub enum NodeError {
    /// The process was told to terminate; never surfaced to the user.
    KillError,
    /// Another leaf or subtree poisoned this one.
    PoisonError(String),
    /// The user-supplied body returned an error.
    ExecutionError(String),
    /// A channel send or receive failed: the peer is gone.
    ChannelError(String),
}

/// Message from a leaf process to the engine.
#[derive(Debug, Clone, PartialEq, Eq)]
pub enum ParentMessage {
    Status(Status),
    Poison(NodeError),
    Killed,
}

/// What the engine's listener set resolved to first: the current leaf
/// finished with a status, or a watched condition at some position flipped.
#[derive(Debug)]
pub enum FutResult {
    CurrentNode(bool),
    Condition(Node, bool),
}

/// Whether a message must be acknowledged before the sender may go on:
/// `Stop` and `Kill` are handshakes, `Start` is fire-and-forget.
pub open spec fn spec_requires_reply(msg: ChildMessage) -> bool {
    msg is Stop || msg is Kill
}

/// Whether the sent message awaits an acknowledgement.
pub fn requires_reply(msg: &ChildMessage) -> (r: bool)
    ensures
        r == spec_requires_reply(*msg),
{
    matches!(msg, ChildMessage::Stop | ChildMessage::Kill)
}

/// Whether a reply ends the wait for a stop or kill acknowledgement: the
/// leaf either confirmed the kill or drained to idle. Any other reply is
/// unrelated and is discarded.
pub open spec fn spec_acknowledges(reply: ParentMessage) -> bool {
    match reply {
        ParentMessage::Killed => true,
        ParentMessage::Status(s) => s is Idle,
        ParentMessage::Poison(_) => false,
    }
}

/// Whether the received reply acknowledges a stop or kill.
pub fn acknowledges(reply: &ParentMessage) -> (r: bool)
    ensures
        r == spec_acknowledges(*reply),
{
    match reply {
        ParentMessage::Killed => true,
        ParentMessage::Status(Status::Idle) => true,
        _ => false,
    }
}

} // verus!
