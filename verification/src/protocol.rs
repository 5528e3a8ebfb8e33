//! The messages of the signaling protocol. Each is told apart by its `cmd` on the wire;
//! turning them into text and back happens outside the library.
use vstd::prelude::*;

verus! {

/// A signaling message, from a client to the server or from the server to a client.
/// `PeerConnect` and `PeerDisconnect` name the peer by its id and its user name.
#[derive(Debug, Clone, PartialEq, Eq)]
pub enum SignalMessage {
    Host { password: String, username: String, max_player: u8 },
    Join { password: String, username: String },
    Leave {},
    Offer { target_id: u32, sdp: String },
    Answer { target_id: u32, sdp: String },
    IceCandidate { target_id: u32, media: String, index: i32, name: String },
    Seal {},
    Id { id: u32 },
    HostInfo { username: String },
    PeerConnect { id: u32, username: String },
    PeerDisconnect { id: u32, username: String },
    Error { message: String },
}

/// What the library's contracts see of a message: its command and its fields, strings
/// taken as characters.
pub enum SignalView {
    Host { password: Seq<char>, username: Seq<char>, max_player: u8 },
    Join { password: Seq<char>, username: Seq<char> },
    Leave,
    Offer { target_id: u32, sdp: Seq<char> },
    Answer { target_id: u32, sdp: Seq<char> },
    IceCandidate { target_id: u32, media: Seq<char>, index: i32, name: Seq<char> },
    Seal,
    Id { id: u32 },
    HostInfo { username: Seq<char> },
    PeerConnect { id: u32, username: Seq<char> },
    PeerDisconnect { id: u32, username: Seq<char> },
    Error { message: Seq<char> },
}

impl View for SignalMessage {
    type V = SignalView;

    open spec fn view(&self) -> SignalView {
        match self {
            SignalMessage::Host { password, username, max_player } => SignalView::Host {
                password: password@,
                username: username@,
                max_player: *max_player,
            },
            SignalMessage::Join { password, username } => SignalView::Join {
                password: password@,
                username: username@,
            },
            SignalMessage::Leave {} => SignalView::Leave,
            SignalMessage::Offer { target_id, sdp } => SignalView::Offer {
                target_id: *target_id,
                sdp: sdp@,
            },
            SignalMessage::Answer { target_id, sdp } => SignalView::Answer {
                target_id: *target_id,
                sdp: sdp@,
            },
            SignalMessage::IceCandidate { target_id, media, index, name } => SignalView::IceCandidate {
                target_id: *target_id,
                media: media@,
                index: *index,
                name: name@,
            },
            SignalMessage::Seal {} => SignalView::Seal,
            SignalMessage::Id { id } => SignalView::Id { id: *id },
            SignalMessage::HostInfo { username } => SignalView::HostInfo { username: username@ },
            SignalMessage::PeerConnect { id, username } => SignalView::PeerConnect {
                id: *id,
                username: username@,
            },
            SignalMessage::PeerDisconnect { id, username } => SignalView::PeerDisconnect {
                id: *id,
                username: username@,
            },
            SignalMessage::Error { message } => SignalView::Error { message: message@ },
        }
    }
}

/// A relayed message as its target receives it: `target_id` now names the sender.
/// Messages that are not relayed are left as they are.
pub open spec fn readdressed(m: SignalView, from: u32) -> SignalView {
    match m {
        SignalView::Offer { target_id, sdp } => SignalView::Offer { target_id: from, sdp },
        SignalView::Answer { target_id, sdp } => SignalView::Answer { target_id: from, sdp },
        SignalView::IceCandidate { target_id, media, index, name } => SignalView::IceCandidate {
            target_id: from,
            media,
            index,
            name,
        },
        _ => m,
    }
}

/// Puts the sender's id in the `target_id` of a relayed message.
pub fn readdress(msg: SignalMessage, from: u32) -> (res: SignalMessage)
    ensures
        res@ == readdressed(msg@, from),
{
    match msg {
        SignalMessage::Offer { target_id: _, sdp } => SignalMessage::Offer { target_id: from, sdp },
        SignalMessage::Answer { target_id: _, sdp } => SignalMessage::Answer { target_id: from, sdp },
        SignalMessage::IceCandidate { target_id: _, media, index, name } => {
            SignalMessage::IceCandidate { target_id: from, media, index, name }
        },
        other => other,
    }
}

} // verus!
