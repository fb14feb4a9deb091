//! The error kinds the thread controller and the ring log report. Every
//! failure is a synchronous return value, and a failing call leaves all data
//! exactly as it was.

use vstd::prelude::*;

verus! {

/// Why an operation on a dialect or its message log was refused.
#[derive(Clone, Copy, Debug, PartialEq, Eq, Structural)]
pub enum DialectError {
    /// The record, once framed, exceeds the buffer's capacity: it could not
    /// fit even a fully empty buffer, so the append is permanently rejected.
    OversizedRecord,
    /// The acting identity is neither of the dialect's two members.
    NotAParticipant,
    /// The acting member's write capability is not set.
    WriteNotPermitted,
    /// The acting identity lacks the administrative capability required to
    /// close the dialect.
    NotAuthorized,
    /// The two identities given at creation are not two distinct identities
    /// in strictly ascending order.
    InvalidParticipants,
}

} // verus!
