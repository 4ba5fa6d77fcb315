//! The crate's error taxonomy.
//!
//! Every failing operation reports one of these; each carries a fixed
//! displayable message.

use vstd::prelude::*;

verus! {

/// Why a session, channel or ticket operation failed.
#[derive(Clone, Copy, Debug, PartialEq, Eq, Structural)]
pub enum ChatError {
    /// No node is running; `init` has not been called.
    NodeNotInitialized,
    /// No channel is active; create or join a room first.
    NotInRoom,
    /// A ticket string had the wrong kind tag or a malformed payload.
    InvalidTicket,
    /// The networking collaborator refused to open the channel.
    ChannelJoinFailed,
    /// The send handle refused the outgoing message.
    SendFailed,
    /// The persistent store could not be reached.
    StoreUnavailable,
}

/// The fixed message of each error.
pub open spec fn spec_message(e: ChatError) -> Seq<char> {
    match e {
        ChatError::NodeNotInitialized => "node not initialized"@,
        ChatError::NotInRoom => "not in a room"@,
        ChatError::InvalidTicket => "invalid ticket"@,
        ChatError::ChannelJoinFailed => "failed to join channel"@,
        ChatError::SendFailed => "failed to send message"@,
        ChatError::StoreUnavailable => "store unavailable"@,
    }
}

impl ChatError {
    /// The displayable message for this error.
    pub fn message(&self) -> (r: String)
        ensures
            r@ == spec_message(*self),
    {
        match self {
            ChatError::NodeNotInitialized => "node not initialized".to_owned(),
            ChatError::NotInRoom => "not in a room".to_owned(),
            ChatError::InvalidTicket => "invalid ticket".to_owned(),
            ChatError::ChannelJoinFailed => "failed to join channel".to_owned(),
            ChatError::SendFailed => "failed to send message".to_owned(),
            ChatError::StoreUnavailable => "store unavailable".to_owned(),
        }
    }
}

} // verus!
