//! The decisions of a connection: which handler a message goes to, and when a silent
//! connection is given up.
use vstd::prelude::*;

use axum::extract::ws::Message;
use tokio::sync::mpsc::UnboundedSender;

use crate::handler::{
    deliveries, handle_host, handle_join, handle_leave, handle_seal, host_outcome, join_outcome,
    joined_view, leave_outcome, relay_outcome, relay_to, seal_outcome, Delivery, DeliveryView,
    Outcome,
};
use crate::protocol::{SignalMessage, SignalView};
use crate::room::{RoomView, Rooms};

verus! {

/// How often the server pings a connection, in seconds.
pub const PING_INTERVAL_SECS: u64 = 15;

/// A connection that has sent no pong for longer than this many seconds is taken for dead.
pub const PONG_TIMEOUT_SECS: u64 = 45;

/// What to do when the ping timer fires.
#[derive(Debug, PartialEq, Eq, Structural)]
pub enum TickAction {
    Disconnect,
    SendPing,
}

/// On each tick of the ping timer: disconnect when the last pong is older than the
/// timeout, else send a ping.
pub fn on_ping_tick(since_last_pong_nanos: u128) -> (action: TickAction)
    ensures
        action == (if since_last_pong_nanos > PONG_TIMEOUT_SECS * 1_000_000_000 {
            TickAction::Disconnect
        } else {
            TickAction::SendPing
        }),
{
    if since_last_pong_nanos > PONG_TIMEOUT_SECS as u128 * 1_000_000_000 {
        TickAction::Disconnect
    } else {
        TickAction::SendPing
    }
}

/// A request that names a new room keeps it; a refused one keeps the old.
pub open spec fn keep_joined(
    o: Outcome,
    joined: Option<(Seq<char>, u32)>,
) -> Outcome {
    Outcome { table: o.table, joined: if o.joined is Some { o.joined } else { joined }, out: o.out }
}

/// What one message from a client does. Host and join requests may give the client a
/// room, leaving takes it away, seal requests act on it, offers, answers and ICE
/// candidates are relayed, and the commands that only the server sends are ignored.
pub open spec fn message_outcome(
    t: Map<Seq<char>, RoomView>,
    joined: Option<(Seq<char>, u32)>,
    m: SignalView,
    max_rooms: usize,
    tx: UnboundedSender<Message>,
) -> Outcome {
    match m {
        SignalView::Host { password, username, max_player } => keep_joined(
            host_outcome(t, password, username, max_player, max_rooms, tx),
            joined,
        ),
        SignalView::Join { password, username } => keep_joined(
            join_outcome(t, password, username, tx),
            joined,
        ),
        SignalView::Leave => leave_outcome(t, joined),
        SignalView::Seal => seal_outcome(t, joined),
        SignalView::Offer { target_id, .. } => Outcome {
            table: t,
            joined,
            out: relay_outcome(t, joined, target_id, m),
        },
        SignalView::Answer { target_id, .. } => Outcome {
            table: t,
            joined,
            out: relay_outcome(t, joined, target_id, m),
        },
        SignalView::IceCandidate { target_id, .. } => Outcome {
            table: t,
            joined,
            out: relay_outcome(t, joined, target_id, m),
        },
        _ => Outcome { table: t, joined, out: Seq::<DeliveryView>::empty() },
    }
}

/// Handles one message from the client that holds `joined`.
pub fn handle_message(
    rooms: &mut Rooms,
    tx: &UnboundedSender<Message>,
    joined: &mut Option<(String, u32)>,
    msg: SignalMessage,
    max_rooms: usize,
) -> (out: Vec<Delivery>)
    requires
        old(rooms).wf(),
    ensures
        final(rooms).wf(),
        final(rooms)@ == message_outcome(old(rooms)@, joined_view(*old(joined)), msg@, max_rooms, *tx).table,
        joined_view(*final(joined)) == message_outcome(
            old(rooms)@,
            joined_view(*old(joined)),
            msg@,
            max_rooms,
            *tx,
        ).joined,
        deliveries(out@) == message_outcome(
            old(rooms)@,
            joined_view(*old(joined)),
            msg@,
            max_rooms,
            *tx,
        ).out,
{
    let ghost m = msg@;
    match msg {
        SignalMessage::Host { password, username, max_player } => {
            let (j, out) = handle_host(rooms, tx, password, username, max_player, max_rooms);
            if let Some(j) = j {
                *joined = Some(j);
            }
            out
        },
        SignalMessage::Join { password, username } => {
            let (j, out) = handle_join(rooms, tx, password, username);
            if let Some(j) = j {
                *joined = Some(j);
            }
            out
        },
        SignalMessage::Leave {} => handle_leave(rooms, joined),
        SignalMessage::Seal {} => handle_seal(rooms, joined),
        SignalMessage::Offer { target_id, sdp } => {
            relay_to(rooms, joined, target_id, SignalMessage::Offer { target_id, sdp })
        },
        SignalMessage::Answer { target_id, sdp } => {
            relay_to(rooms, joined, target_id, SignalMessage::Answer { target_id, sdp })
        },
        SignalMessage::IceCandidate { target_id, media, index, name } => {
            relay_to(
                rooms,
                joined,
                target_id,
                SignalMessage::IceCandidate { target_id, media, index, name },
            )
        },
        _ => {
            let out: Vec<Delivery> = Vec::new();
            assert(deliveries(out@) =~= Seq::<DeliveryView>::empty());
            out
        },
    }
}

} // verus!
