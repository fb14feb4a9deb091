//! A two-participant message thread stored in a fixed-capacity slot.
//!
//! The heart of the crate is [`cyclic_buffer::CyclicByteBuffer`], a circular
//! byte store that frames variable-length records with a two-byte big-endian
//! length prefix and evicts the oldest records when an append needs room.
//! [`dialect`] wraps it in a thread controller that owns exactly two members
//! with capability flags and validates who may append or close.

pub mod cyclic_buffer;
pub mod dialect;
pub mod errors;
pub mod frames;

pub use cyclic_buffer::CyclicByteBuffer;
pub use dialect::{
    close_dialect, create_dialect, send_message, DialectAccount, Member, MESSAGE_BUFFER_LENGTH,
};
pub use errors::DialectError;
