//! A signaling server for WebRTC peers (as `WebRTCMultiplayerPeer` expects them): rooms
//! keyed by password, a host with peer id 1 and guests, and the relaying of SDP offers,
//! answers and ICE candidates between them.
pub mod handler;
pub mod laws;
pub mod protocol;
pub mod room;
pub mod session;
pub mod stats;
pub mod table;

pub use room::{Rooms, DEFAULT_MAX_ROOMS};

use vstd::prelude::*;

verus! {

/// An empty table of rooms.
pub fn new_rooms() -> (rooms: Rooms)
    ensures
        rooms@ == Map::<Seq<char>, room::RoomView>::empty(),
        rooms.wf(),
{
    Rooms::new()
}

} // verus!
