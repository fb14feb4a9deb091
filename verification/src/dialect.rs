//! The thread controller: a dialect account owns exactly two members with
//! capability flags, validates the acting identity's capability before every
//! append or close, stamps each outgoing record with the sender's member
//! index and a timestamp, and delegates storage to the cyclic buffer.

use crate::cyclic_buffer::CyclicByteBuffer;
use crate::errors::DialectError;
use crate::frames::append_model;
use vstd::prelude::*;

verus! {

/// The fixed capacity, in bytes, of a dialect's message buffer.
pub const MESSAGE_BUFFER_LENGTH: u16 = 8192;

/// User who can exchange messages using a dialect account. The two flags
/// support basic role-based authorization: when `scopes[0]` is set the user
/// holds the admin role (may close the dialect and recover its storage),
/// when `scopes[1]` is set the user holds the writer role (may append
/// messages). With neither set the user may only read.
pub struct Member {
    /// User identity, as the host's canonical ordering key.
    pub public_key: u64,
    /// Capability flags: `scopes[0]` admin, `scopes[1]` writer.
    pub scopes: [bool; 2],
}

/// The main account for one-on-one messaging: exactly two members with their
/// capability scopes, the messages in a cyclic buffer, the timestamp of the
/// latest activity, and whether the messages are encrypted (informational
/// only: the account carries the flag and never decrypts anything).
pub struct DialectAccount {
    /// The dialect's members, in strictly ascending identity order.
    pub members: [Member; 2],
    /// The dialect's messages.
    pub messages: CyclicByteBuffer,
    /// UTC seconds of the latest activity: the timestamp of the last message
    /// sent, or the creation time while no message has been sent yet.
    pub last_message_timestamp: u32,
    /// Whether the dialect's messages are encrypted by the participants.
    pub encrypted: bool,
}

/// The four big-endian bytes of a 32-bit timestamp.
pub open spec fn u32_be_bytes(value: u32) -> Seq<u8> {
    seq![
        (value / 0x1000000) as u8,
        ((value / 0x10000) % 256) as u8,
        ((value / 0x100) % 256) as u8,
        (value % 256) as u8,
    ]
}

/// The payload framed for one message: the sender's member index as one
/// byte, the four big-endian timestamp bytes, then the message text.
pub open spec fn message_payload(sender_index: int, timestamp: u32, text: Seq<u8>) -> Seq<u8> {
    seq![sender_index as u8] + u32_be_bytes(timestamp) + text
}

impl DialectAccount {
    /// The two members are distinct and in strictly ascending identity
    /// order, and the message buffer's bookkeeping is consistent.
    pub open spec fn wf(self) -> bool {
        &&& self.messages.wf()
        &&& self.members[0].public_key < self.members[1].public_key
    }

    /// Whether `key` is one of the two members' identities.
    pub open spec fn is_member(self, key: u64) -> bool {
        self.members[0].public_key == key || self.members[1].public_key == key
    }

    /// The positional index (0 or 1) of the member with identity `key`.
    pub open spec fn member_index(self, key: u64) -> int {
        if self.members[0].public_key == key {
            0
        } else {
            1
        }
    }

    /// Whether `key` is a member whose writer capability is set.
    pub open spec fn can_write(self, key: u64) -> bool {
        self.is_member(key) && self.members[self.member_index(key)].scopes[1]
    }

    /// Whether `key` is a member whose admin capability is set.
    pub open spec fn can_administer(self, key: u64) -> bool {
        self.is_member(key) && self.members[self.member_index(key)].scopes[0]
    }

    /// Appends another message to the dialect's messages: builds the frame
    /// payload from the sender's member index, the timestamp `now` and the
    /// text, delegates storage to the cyclic buffer, and on success records
    /// `now` as the latest activity. A message whose frame cannot fit even
    /// an empty buffer is rejected and nothing changes.
    pub fn append(&mut self, text: Vec<u8>, sender: u64, now: u32) -> (result: Result<
        (),
        DialectError,
    >)
        requires
            old(self).wf(),
            old(self).is_member(sender),
        ensures
            final(self).wf(),
            final(self).members == old(self).members,
            final(self).encrypted == old(self).encrypted,
            final(self).messages.capacity() == old(self).messages.capacity(),
            text@.len() + 7 <= old(self).messages.capacity() ==> {
                &&& result == Ok::<(), DialectError>(())
                &&& final(self).messages@ == append_model(
                    old(self).messages@,
                    old(self).messages.capacity(),
                    message_payload(old(self).member_index(sender), now, text@),
                )
                &&& final(self).last_message_timestamp == now
            },
            text@.len() + 7 > old(self).messages.capacity() ==> {
                &&& result == Err::<(), DialectError>(DialectError::OversizedRecord)
                &&& *final(self) == *old(self)
            },
    {
        let sender_member_idx: u8 = if self.members[0].public_key == sender {
            0
        } else {
            1
        };
        let mut serialized_message: Vec<u8> = Vec::new();
        serialized_message.push(sender_member_idx);
        serialized_message.push((now / 0x1000000) as u8);
        serialized_message.push(((now / 0x10000) % 256) as u8);
        serialized_message.push(((now / 0x100) % 256) as u8);
        serialized_message.push((now % 256) as u8);
        let mut i: usize = 0;
        while i < text.len()
            invariant
                i <= text@.len(),
                serialized_message@.len() == 5 + i as int,
                serialized_message@[0] == sender_member_idx,
                serialized_message@[1] == ((now / 0x1000000) as u8),
                serialized_message@[2] == (((now / 0x10000) % 256) as u8),
                serialized_message@[3] == (((now / 0x100) % 256) as u8),
                serialized_message@[4] == ((now % 256) as u8),
                forall|j: int| 0 <= j < i as int ==> serialized_message@[5 + j] == #[trigger] text@[j],
            decreases text@.len() - i,
        {
            let b = text[i];
            serialized_message.push(b);
            i += 1;
        }
        proof {
            assert(serialized_message@ =~= message_payload(
                old(self).member_index(sender),
                now,
                text@,
            ));
        }
        let appended = self.messages.append(serialized_message);
        match appended {
            Ok(()) => {
                self.last_message_timestamp = now;
                Ok(())
            },
            Err(e) => Err(e),
        }
    }
}

/// Creates a dialect account for one-on-one messaging between two members
/// given in strictly ascending identity order, with their capability scopes,
/// implicitly ordered. Equal or descending identities are rejected. Creation
/// fixes both members and their capabilities for the dialect's lifetime,
/// starts with an empty message buffer of the fixed capacity, and records
/// the creation time as the latest activity.
pub fn create_dialect(
    member0: u64,
    member1: u64,
    scopes: [[bool; 2]; 2],
    encrypted: bool,
    now: u32,
) -> (result: Result<DialectAccount, DialectError>)
    ensures
        member0 < member1 ==> {
            &&& result is Ok
            &&& result->Ok_0.wf()
            &&& result->Ok_0.members[0].public_key == member0
            &&& result->Ok_0.members[1].public_key == member1
            &&& result->Ok_0.members[0].scopes == scopes[0]
            &&& result->Ok_0.members[1].scopes == scopes[1]
            &&& result->Ok_0.messages@ == Seq::<Seq<u8>>::empty()
            &&& result->Ok_0.messages.capacity() == MESSAGE_BUFFER_LENGTH as int
            &&& result->Ok_0.last_message_timestamp == now
            &&& result->Ok_0.encrypted == encrypted
        },
        !(member0 < member1) ==> result == Err::<DialectAccount, DialectError>(
            DialectError::InvalidParticipants,
        ),
{
    if member0 >= member1 {
        return Err(DialectError::InvalidParticipants);
    }
    let messages = CyclicByteBuffer::new(MESSAGE_BUFFER_LENGTH);
    Ok(
        DialectAccount {
            members: [
                Member { public_key: member0, scopes: scopes[0] },
                Member { public_key: member1, scopes: scopes[1] },
            ],
            messages,
            last_message_timestamp: now,
            encrypted,
        },
    )
}

/// Lets a member of the dialect with write privileges send a message. An
/// identity that is not a member, or a member without the writer capability,
/// is refused and the dialect is untouched: authorization gates every
/// mutation of the message buffer.
pub fn send_message(dialect: &mut DialectAccount, sender: u64, text: Vec<u8>, now: u32) -> (result:
    Result<(), DialectError>)
    requires
        old(dialect).wf(),
    ensures
        final(dialect).wf(),
        !old(dialect).is_member(sender) ==> {
            &&& result == Err::<(), DialectError>(DialectError::NotAParticipant)
            &&& *final(dialect) == *old(dialect)
        },
        old(dialect).is_member(sender) && !old(dialect).can_write(sender) ==> {
            &&& result == Err::<(), DialectError>(DialectError::WriteNotPermitted)
            &&& *final(dialect) == *old(dialect)
        },
        old(dialect).can_write(sender) && text@.len() + 7 > old(dialect).messages.capacity()
            ==> {
            &&& result == Err::<(), DialectError>(DialectError::OversizedRecord)
            &&& *final(dialect) == *old(dialect)
        },
        old(dialect).can_write(sender) && text@.len() + 7 <= old(dialect).messages.capacity()
            ==> {
            &&& result == Ok::<(), DialectError>(())
            &&& final(dialect).messages@ == append_model(
                old(dialect).messages@,
                old(dialect).messages.capacity(),
                message_payload(old(dialect).member_index(sender), now, text@),
            )
            &&& final(dialect).last_message_timestamp == now
            &&& final(dialect).members == old(dialect).members
            &&& final(dialect).encrypted == old(dialect).encrypted
            &&& final(dialect).messages.capacity() == old(dialect).messages.capacity()
        },
{
    let is_member = dialect.members[0].public_key == sender || dialect.members[1].public_key
        == sender;
    if !is_member {
        return Err(DialectError::NotAParticipant);
    }
    let idx: usize = if dialect.members[0].public_key == sender {
        0
    } else {
        1
    };
    if !dialect.members[idx].scopes[1] {
        return Err(DialectError::WriteNotPermitted);
    }
    dialect.append(text, sender, now)
}

/// Closes a dialect account: the acting identity must be a member whose
/// admin capability is set. Closing consumes the account and discards its
/// messages irreversibly; an unauthorized attempt hands the untouched
/// account back beside the error.
pub fn close_dialect(dialect: DialectAccount, acting: u64) -> (result: Result<
    (),
    (DialectError, DialectAccount),
>)
    requires
        dialect.wf(),
    ensures
        dialect.can_administer(acting) ==> result == Ok::<(), (DialectError, DialectAccount)>(()),
        !dialect.can_administer(acting) ==> result == Err::<(), (DialectError, DialectAccount)>(
            (DialectError::NotAuthorized, dialect),
        ),
{
    let is_admin = (dialect.members[0].public_key == acting && dialect.members[0].scopes[0]) || (
    dialect.members[1].public_key == acting && dialect.members[1].scopes[0]);
    if is_admin {
        Ok(())
    } else {
        Err((DialectError::NotAuthorized, dialect))
    }
}

} // verus!
