//! Conversation-state engine for a text chat client: it tracks rooms,
//! contacts and message history for a single identity, resolves inbound
//! messages to the room whose member set matches, keeps the sidebar
//! selection and per-room scroll state within bounds, and encodes the
//! whole account for durable storage.
pub mod codec;
pub mod commands;
pub mod data;
pub mod laws;
pub mod messaging;
pub mod ui;
pub mod util;

use vstd::prelude::*;

verus! {

/// Combine two bytes into a room identifier.
pub fn room_id_from_bytes(hi: u8, lo: u8) -> (r: data::RoomId)
    ensures
        r == hi as u16 * 256 + lo as u16,
{
    hi as u16 * 256 + lo as u16
}

} // verus!
