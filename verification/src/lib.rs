//! Session and channel membership manager for a peer-addressed chat.
//!
//! A chat room is identified by a portable ticket: a topic identifier plus a
//! bootstrap set of peer identifiers, encoded as a text-safe token. This
//! crate verifies the ticket codec, the per-room neighbor bookkeeping, the
//! single-active-channel session lifecycle, and the persisted history of
//! visited rooms.

pub mod base32;
pub mod channel;
pub mod errors;
pub mod history;
pub mod ids;
pub mod session;
pub mod ticket;
pub mod utils;
pub mod varint;
