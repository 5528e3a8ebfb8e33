use axum::extract::ws::Message;
use tokio::sync::mpsc::{unbounded_channel, UnboundedReceiver, UnboundedSender};

use t1ds_signaling_rs::handler::{
    handle_host, handle_join, handle_leave, handle_seal, relay_to, validate_credentials, Delivery,
    Outbound, Recipient,
};
use t1ds_signaling_rs::new_rooms;
use t1ds_signaling_rs::protocol::{readdress, SignalMessage};
use t1ds_signaling_rs::room::{
    create_room, Client, CreateRoomError, JoinError, Room, Rooms, DEFAULT_MAX_ROOMS, HOST_PEER_ID,
    MAX_PASSWORD_LEN, MAX_USERNAME_LEN,
};
use t1ds_signaling_rs::session::{handle_message, on_ping_tick, TickAction};
use t1ds_signaling_rs::stats::{room_stats, Stats};

fn channel() -> (UnboundedSender<Message>, UnboundedReceiver<Message>) {
    unbounded_channel::<Message>()
}

/// Each delivery as its recipient (`None` for the requester) and what it carries
/// (`None` for a close).
fn summary(out: &[Delivery]) -> Vec<(Option<u32>, Option<SignalMessage>)> {
    out.iter()
        .map(|d| {
            let to = match &d.to {
                Recipient::Requester => None,
                Recipient::Peer { id, .. } => Some(*id),
            };
            let what = match &d.what {
                Outbound::Signal(m) => Some(m.clone()),
                Outbound::Close => None,
            };
            (to, what)
        })
        .collect()
}

fn error(message: &str) -> SignalMessage {
    SignalMessage::Error { message: message.to_string() }
}

fn client(id: u32, name: &str) -> Client {
    let (tx, _rx) = channel();
    Client { id, username: name.to_string(), tx }
}

fn room_with(ids: &[u32], max_player: u8) -> Room {
    Room {
        max_player,
        host_id: ids[0],
        clients: ids.iter().map(|&id| client(id, &format!("p{id}"))).collect(),
        is_sealed: false,
    }
}

/// A room "test" hosted by alice (peer 1) that bob (peer 2) has joined.
fn host_and_guest(max_player: u8) -> (Rooms, Option<(String, u32)>, Option<(String, u32)>) {
    let mut rooms = new_rooms();
    let (host_tx, _h) = channel();
    let (guest_tx, _g) = channel();
    let (host, _) = handle_host(&mut rooms, &host_tx, "test".into(), "alice".into(), max_player, DEFAULT_MAX_ROOMS);
    let (guest, _) = handle_join(&mut rooms, &guest_tx, "test".into(), "bob".into());
    (rooms, host, guest)
}

#[test]
fn credentials_within_limits_are_accepted() {
    let password = "p".repeat(MAX_PASSWORD_LEN);
    let username = "u".repeat(MAX_USERNAME_LEN);
    assert_eq!(validate_credentials(&password, &username), Ok(()));
    // characters are counted, not bytes
    let wide = "あ".repeat(MAX_PASSWORD_LEN);
    assert_eq!(validate_credentials(&wide, "bob"), Ok(()));
}

#[test]
fn long_credentials_are_refused_password_first() {
    let password = "p".repeat(MAX_PASSWORD_LEN + 1);
    let username = "u".repeat(MAX_USERNAME_LEN + 1);
    assert_eq!(validate_credentials(&password, "bob"), Err("password too long"));
    assert_eq!(validate_credentials("test", &username), Err("username too long"));
    assert_eq!(validate_credentials(&password, &username), Err("password too long"));
}

#[test]
fn room_methods() {
    let mut room = room_with(&[1, 2, 4], 4);
    assert!(room.is_host(1));
    assert!(!room.is_host(2));
    assert_eq!(room.host_username(), Some("p1"));
    assert_eq!(room.next_peer_id(), 3);
    assert_eq!(room.add_client(client(3, "p3")), Ok(()));
    assert_eq!(room.add_client(client(5, "p5")), Err(JoinError::RoomFull));
    assert_eq!(room.next_peer_id(), 5);
    assert!(!room.remove_client(2));
    let ids: Vec<u32> = room.clients.iter().map(|c| c.id).collect();
    assert_eq!(ids, vec![1, 4, 3]);
    assert_eq!(room.next_peer_id(), 2);
    room.is_sealed = true;
    assert_eq!(room.add_client(client(2, "p2")), Err(JoinError::RoomSealed));
    assert!(room.remove_client(1));
    assert_eq!(room.host_username(), None);
}

#[test]
fn sealed_is_checked_before_full() {
    let mut room = room_with(&[1], 1);
    room.is_sealed = true;
    assert_eq!(room.add_client(client(2, "p2")), Err(JoinError::RoomSealed));
    assert_eq!(room.clients.len(), 1);
}

#[test]
fn next_peer_id_starts_after_the_host() {
    assert_eq!(room_with(&[1], 2).next_peer_id(), 2);
    assert_eq!(room_with(&[1, 3], 4).next_peer_id(), 2);
    assert_eq!(room_with(&[5, 2, 3], 4).next_peer_id(), 4);
}

#[test]
fn create_room_checks_limit_then_password() {
    let mut rooms = new_rooms();
    assert_eq!(create_room(&mut rooms, "a".into(), client(1, "x"), 2, 2), Ok(()));
    assert_eq!(
        create_room(&mut rooms, "a".into(), client(1, "y"), 2, 2),
        Err(CreateRoomError::PasswordAlreadyUsed)
    );
    assert_eq!(create_room(&mut rooms, "b".into(), client(1, "y"), 2, 2), Ok(()));
    assert_eq!(
        create_room(&mut rooms, "a".into(), client(1, "z"), 2, 2),
        Err(CreateRoomError::RoomLimitReached)
    );
    assert_eq!(
        create_room(&mut rooms, "c".into(), client(1, "z"), 2, 2),
        Err(CreateRoomError::RoomLimitReached)
    );
    assert_eq!(rooms.len(), 2);
    assert!(rooms.contains(&"a".to_string()));
    assert!(rooms.contains(&"b".to_string()));
}

#[test]
fn host_gets_peer_id_one() {
    let mut rooms = new_rooms();
    let (tx, _rx) = channel();
    let (joined, out) = handle_host(&mut rooms, &tx, "test".into(), "alice".into(), 2, DEFAULT_MAX_ROOMS);
    assert_eq!(joined, Some(("test".to_string(), HOST_PEER_ID)));
    assert_eq!(summary(&out), vec![(None, Some(SignalMessage::Id { id: 1 }))]);
    assert_eq!(room_stats(&rooms), Some(Stats { room_count: 1, peer_count: 1 }));
}

#[test]
fn host_with_taken_password_is_refused() {
    let mut rooms = new_rooms();
    let (tx, _rx) = channel();
    handle_host(&mut rooms, &tx, "test".into(), "alice".into(), 4, DEFAULT_MAX_ROOMS);
    let (joined, out) = handle_host(&mut rooms, &tx, "test".into(), "dave".into(), 4, DEFAULT_MAX_ROOMS);
    assert_eq!(joined, None);
    assert_eq!(summary(&out), vec![(None, Some(error("password already in use")))]);
    assert_eq!(rooms.len(), 1);
}

#[test]
fn host_beyond_room_limit_is_refused() {
    let mut rooms = new_rooms();
    let (tx, _rx) = channel();
    for i in 0..10 {
        let (joined, _) = handle_host(&mut rooms, &tx, format!("room-{i}"), "alice".into(), 2, DEFAULT_MAX_ROOMS);
        assert_eq!(joined, Some((format!("room-{i}"), 1)));
    }
    let (joined, out) = handle_host(&mut rooms, &tx, "one-too-many".into(), "bob".into(), 2, DEFAULT_MAX_ROOMS);
    assert_eq!(joined, None);
    assert_eq!(summary(&out), vec![(None, Some(error("room limit reached")))]);
    assert_eq!(rooms.len(), 10);
}

#[test]
fn host_with_long_credentials_is_refused() {
    let mut rooms = new_rooms();
    let (tx, _rx) = channel();
    let (joined, out) = handle_host(&mut rooms, &tx, "p".repeat(65), "alice".into(), 2, DEFAULT_MAX_ROOMS);
    assert_eq!(joined, None);
    assert_eq!(summary(&out), vec![(None, Some(error("password too long")))]);
    let (joined, out) = handle_host(&mut rooms, &tx, "test".into(), "a".repeat(33), 2, DEFAULT_MAX_ROOMS);
    assert_eq!(joined, None);
    assert_eq!(summary(&out), vec![(None, Some(error("username too long")))]);
    assert_eq!(rooms.len(), 0);
}

#[test]
fn join_announces_and_introduces() {
    let mut rooms = new_rooms();
    let (tx, _rx) = channel();
    handle_host(&mut rooms, &tx, "test".into(), "alice".into(), 4, DEFAULT_MAX_ROOMS);
    let (joined, out) = handle_join(&mut rooms, &tx, "test".into(), "bob".into());
    assert_eq!(joined, Some(("test".to_string(), 2)));
    assert_eq!(
        summary(&out),
        vec![
            (Some(1), Some(SignalMessage::PeerConnect { id: 2, username: "bob".into() })),
            (None, Some(SignalMessage::Id { id: 2 })),
            (None, Some(SignalMessage::HostInfo { username: "alice".into() })),
        ]
    );
    let (joined, out) = handle_join(&mut rooms, &tx, "test".into(), "carol".into());
    assert_eq!(joined, Some(("test".to_string(), 3)));
    assert_eq!(
        summary(&out),
        vec![
            (Some(1), Some(SignalMessage::PeerConnect { id: 3, username: "carol".into() })),
            (Some(2), Some(SignalMessage::PeerConnect { id: 3, username: "carol".into() })),
            (None, Some(SignalMessage::Id { id: 3 })),
            (None, Some(SignalMessage::HostInfo { username: "alice".into() })),
            (None, Some(SignalMessage::PeerConnect { id: 2, username: "bob".into() })),
        ]
    );
}

#[test]
fn join_unknown_room_is_refused() {
    let mut rooms = new_rooms();
    let (tx, _rx) = channel();
    let (joined, out) = handle_join(&mut rooms, &tx, "no-such-room".into(), "bob".into());
    assert_eq!(joined, None);
    assert_eq!(summary(&out), vec![(None, Some(error("room not found")))]);
}

#[test]
fn join_full_room_is_refused() {
    let mut rooms = new_rooms();
    let (tx, _rx) = channel();
    handle_host(&mut rooms, &tx, "test".into(), "alice".into(), 1, DEFAULT_MAX_ROOMS);
    let (joined, out) = handle_join(&mut rooms, &tx, "test".into(), "bob".into());
    assert_eq!(joined, None);
    assert_eq!(summary(&out), vec![(None, Some(error("room is full")))]);
    assert_eq!(room_stats(&rooms), Some(Stats { room_count: 1, peer_count: 1 }));
}

#[test]
fn join_with_long_name_is_refused() {
    let (mut rooms, _, _) = host_and_guest(4);
    let (tx, _rx) = channel();
    let (joined, out) = handle_join(&mut rooms, &tx, "test".into(), "n".repeat(33));
    assert_eq!(joined, None);
    assert_eq!(summary(&out), vec![(None, Some(error("username too long")))]);
}

#[test]
fn only_the_host_seals() {
    let (mut rooms, host, guest) = host_and_guest(4);
    let out = handle_seal(&mut rooms, &guest);
    assert_eq!(summary(&out), vec![(None, Some(error("only host can seal the room")))]);
    let (tx, _rx) = channel();
    let (joined, _) = handle_join(&mut rooms, &tx, "test".into(), "carol".into());
    assert_eq!(joined, Some(("test".to_string(), 3)));

    let out = handle_seal(&mut rooms, &host);
    assert!(out.is_empty());
    let (joined, out) = handle_join(&mut rooms, &tx, "test".into(), "dave".into());
    assert_eq!(joined, None);
    assert_eq!(summary(&out), vec![(None, Some(error("room is sealed")))]);
    assert_eq!(room_stats(&rooms), Some(Stats { room_count: 1, peer_count: 3 }));
}

#[test]
fn seal_without_room_does_nothing() {
    let (mut rooms, _, _) = host_and_guest(4);
    assert!(handle_seal(&mut rooms, &None).is_empty());
    assert!(handle_seal(&mut rooms, &Some(("gone".to_string(), 1))).is_empty());
}

#[test]
fn relay_rewrites_target_to_sender() {
    let (mut rooms, host, guest) = host_and_guest(2);
    let offer = SignalMessage::Offer { target_id: 2, sdp: "offer-sdp".into() };
    let out = relay_to(&mut rooms, &host, 2, offer);
    assert_eq!(
        summary(&out),
        vec![(Some(2), Some(SignalMessage::Offer { target_id: 1, sdp: "offer-sdp".into() }))]
    );
    let answer = SignalMessage::Answer { target_id: 1, sdp: "answer-sdp".into() };
    let out = relay_to(&mut rooms, &guest, 1, answer);
    assert_eq!(
        summary(&out),
        vec![(Some(1), Some(SignalMessage::Answer { target_id: 2, sdp: "answer-sdp".into() }))]
    );
    let ice = SignalMessage::IceCandidate {
        target_id: 2,
        media: "audio".into(),
        index: 0,
        name: "candidate".into(),
    };
    let out = relay_to(&mut rooms, &host, 2, ice);
    assert_eq!(
        summary(&out),
        vec![(
            Some(2),
            Some(SignalMessage::IceCandidate {
                target_id: 1,
                media: "audio".into(),
                index: 0,
                name: "candidate".into(),
            })
        )]
    );
    assert_eq!(rooms.len(), 1);
}

#[test]
fn relay_without_target_sends_nothing() {
    let (mut rooms, host, _) = host_and_guest(2);
    let offer = SignalMessage::Offer { target_id: 7, sdp: "x".into() };
    assert!(relay_to(&mut rooms, &host, 7, offer.clone()).is_empty());
    assert!(relay_to(&mut rooms, &None, 2, offer).is_empty());
}

#[test]
fn guest_leaving_tells_the_others() {
    let (mut rooms, _, mut guest) = host_and_guest(2);
    let out = handle_leave(&mut rooms, &mut guest);
    assert_eq!(guest, None);
    assert_eq!(
        summary(&out),
        vec![(Some(1), Some(SignalMessage::PeerDisconnect { id: 2, username: "bob".into() }))]
    );
    assert_eq!(room_stats(&rooms), Some(Stats { room_count: 1, peer_count: 1 }));
    // leaving again does nothing
    assert!(handle_leave(&mut rooms, &mut guest).is_empty());
}

#[test]
fn host_leaving_closes_the_room() {
    let (mut rooms, mut host, _) = host_and_guest(2);
    let out = handle_leave(&mut rooms, &mut host);
    assert_eq!(host, None);
    assert_eq!(
        summary(&out),
        vec![
            (Some(2), Some(SignalMessage::PeerDisconnect { id: 1, username: "alice".into() })),
            (Some(2), None),
        ]
    );
    assert_eq!(rooms.len(), 0);
    assert!(!rooms.contains(&"test".to_string()));
}

#[test]
fn last_peer_leaving_removes_the_room() {
    let mut rooms = new_rooms();
    let (tx, _rx) = channel();
    let (mut host, _) = handle_host(&mut rooms, &tx, "solo".into(), "alice".into(), 2, DEFAULT_MAX_ROOMS);
    let out = handle_leave(&mut rooms, &mut host);
    assert!(out.is_empty());
    assert_eq!(room_stats(&rooms), Some(Stats { room_count: 0, peer_count: 0 }));
}

#[test]
fn join_then_leave_restores_the_room() {
    let (mut rooms, _, _) = host_and_guest(4);
    let before = room_stats(&rooms);
    let (tx, _rx) = channel();
    let (mut carol, _) = handle_join(&mut rooms, &tx, "test".into(), "carol".into());
    assert_eq!(room_stats(&rooms), Some(Stats { room_count: 1, peer_count: 3 }));
    let out = handle_leave(&mut rooms, &mut carol);
    assert_eq!(
        summary(&out),
        vec![
            (Some(1), Some(SignalMessage::PeerDisconnect { id: 3, username: "carol".into() })),
            (Some(2), Some(SignalMessage::PeerDisconnect { id: 3, username: "carol".into() })),
        ]
    );
    assert_eq!(room_stats(&rooms), before);
    // the freed id is handed out again
    let (joined, _) = handle_join(&mut rooms, &tx, "test".into(), "dave".into());
    assert_eq!(joined, Some(("test".to_string(), 3)));
}

#[test]
fn stats_count_rooms_and_peers() {
    let mut rooms = new_rooms();
    assert_eq!(room_stats(&rooms), Some(Stats { room_count: 0, peer_count: 0 }));
    let (tx, _rx) = channel();
    handle_host(&mut rooms, &tx, "a".into(), "alice".into(), 4, DEFAULT_MAX_ROOMS);
    handle_host(&mut rooms, &tx, "b".into(), "bea".into(), 4, DEFAULT_MAX_ROOMS);
    handle_join(&mut rooms, &tx, "a".into(), "bob".into());
    handle_join(&mut rooms, &tx, "a".into(), "bill".into());
    handle_join(&mut rooms, &tx, "b".into(), "carl".into());
    assert_eq!(room_stats(&rooms), Some(Stats { room_count: 2, peer_count: 5 }));
}

#[test]
fn message_dispatch() {
    let mut rooms = new_rooms();
    let (tx, _rx) = channel();
    let mut joined = None;
    let host = SignalMessage::Host { password: "test".into(), username: "alice".into(), max_player: 2 };
    let out = handle_message(&mut rooms, &tx, &mut joined, host, DEFAULT_MAX_ROOMS);
    assert_eq!(summary(&out), vec![(None, Some(SignalMessage::Id { id: 1 }))]);
    assert_eq!(joined, Some(("test".to_string(), 1)));

    // a refused request keeps the room the client is in
    let again = SignalMessage::Host { password: "test".into(), username: "alice".into(), max_player: 2 };
    let out = handle_message(&mut rooms, &tx, &mut joined, again, DEFAULT_MAX_ROOMS);
    assert_eq!(summary(&out), vec![(None, Some(error("password already in use")))]);
    assert_eq!(joined, Some(("test".to_string(), 1)));

    // commands that only the server sends are ignored
    for m in [
        SignalMessage::Id { id: 9 },
        SignalMessage::HostInfo { username: "x".into() },
        SignalMessage::PeerConnect { id: 9, username: "x".into() },
        SignalMessage::PeerDisconnect { id: 9, username: "x".into() },
        SignalMessage::Error { message: "x".into() },
    ] {
        assert!(handle_message(&mut rooms, &tx, &mut joined, m, DEFAULT_MAX_ROOMS).is_empty());
    }
    assert_eq!(joined, Some(("test".to_string(), 1)));

    let out = handle_message(&mut rooms, &tx, &mut joined, SignalMessage::Seal {}, DEFAULT_MAX_ROOMS);
    assert!(out.is_empty());
    let out = handle_message(&mut rooms, &tx, &mut joined, SignalMessage::Leave {}, DEFAULT_MAX_ROOMS);
    assert!(out.is_empty());
    assert_eq!(joined, None);
    assert_eq!(rooms.len(), 0);
}

#[test]
fn readdress_only_touches_relayed_messages() {
    assert_eq!(
        readdress(SignalMessage::Answer { target_id: 5, sdp: "s".into() }, 2),
        SignalMessage::Answer { target_id: 2, sdp: "s".into() }
    );
    assert_eq!(readdress(SignalMessage::Id { id: 5 }, 2), SignalMessage::Id { id: 5 });
}

#[test]
fn ping_tick_disconnects_after_timeout() {
    assert_eq!(on_ping_tick(0), TickAction::SendPing);
    assert_eq!(on_ping_tick(45_000_000_000), TickAction::SendPing);
    assert_eq!(on_ping_tick(45_000_000_001), TickAction::Disconnect);
}

#[test]
fn deliveries_to_peers_reach_their_channels() {
    let mut rooms = new_rooms();
    let (host_tx, mut host_rx) = channel();
    let (guest_tx, _guest_rx) = channel();
    handle_host(&mut rooms, &host_tx, "test".into(), "alice".into(), 2, DEFAULT_MAX_ROOMS);
    let (_, out) = handle_join(&mut rooms, &guest_tx, "test".into(), "bob".into());
    match &out[0].to {
        Recipient::Peer { id, tx } => {
            assert_eq!(*id, 1);
            tx.send(Message::Text("hello".into())).unwrap();
        }
        Recipient::Requester => panic!("expected a peer"),
    }
    assert!(matches!(host_rx.try_recv(), Ok(Message::Text(t)) if t.as_str() == "hello"));
}

/// Sends each delivery as the server does, with the message's debug form as its text.
fn deliver(own_tx: &UnboundedSender<Message>, out: Vec<Delivery>) {
    for d in out {
        let tx = match &d.to {
            Recipient::Requester => own_tx,
            Recipient::Peer { tx, .. } => tx,
        };
        let msg = match d.what {
            Outbound::Signal(m) => Message::Text(format!("{m:?}").into()),
            Outbound::Close => Message::Close(None),
        };
        tx.send(msg).unwrap();
    }
}

fn received(rx: &mut UnboundedReceiver<Message>) -> Vec<String> {
    let mut got = Vec::new();
    while let Ok(m) = rx.try_recv() {
        got.push(match m {
            Message::Text(t) => t.as_str().to_string(),
            Message::Close(_) => "close".to_string(),
            other => format!("{other:?}"),
        });
    }
    got
}

/// Host alice and guest bob in room "test", each with the receiving end of its channel,
/// with every delivery so far already sent.
fn connected_pair() -> (
    Rooms,
    (UnboundedSender<Message>, UnboundedReceiver<Message>, Option<(String, u32)>),
    (UnboundedSender<Message>, UnboundedReceiver<Message>, Option<(String, u32)>),
) {
    let mut rooms = new_rooms();
    let (htx, mut hrx) = channel();
    let (gtx, mut grx) = channel();
    let (host, out) = handle_host(&mut rooms, &htx, "test".into(), "alice".into(), 4, DEFAULT_MAX_ROOMS);
    deliver(&htx, out);
    let (guest, out) = handle_join(&mut rooms, &gtx, "test".into(), "bob".into());
    deliver(&gtx, out);
    assert_eq!(
        received(&mut hrx),
        vec![
            format!("{:?}", SignalMessage::Id { id: 1 }),
            format!("{:?}", SignalMessage::PeerConnect { id: 2, username: "bob".into() }),
        ]
    );
    assert_eq!(
        received(&mut grx),
        vec![
            format!("{:?}", SignalMessage::Id { id: 2 }),
            format!("{:?}", SignalMessage::HostInfo { username: "alice".into() }),
        ]
    );
    (rooms, (htx, hrx, host), (gtx, grx, guest))
}

#[test]
fn relayed_messages_arrive_on_the_targets_channel() {
    let (mut rooms, (htx, mut hrx, host), (gtx, mut grx, guest)) = connected_pair();
    let out = relay_to(&mut rooms, &host, 2, SignalMessage::Offer { target_id: 2, sdp: "offer-sdp".into() });
    deliver(&htx, out);
    assert_eq!(
        received(&mut grx),
        vec![format!("{:?}", SignalMessage::Offer { target_id: 1, sdp: "offer-sdp".into() })]
    );
    assert!(received(&mut hrx).is_empty());

    let out = relay_to(&mut rooms, &guest, 1, SignalMessage::Answer { target_id: 1, sdp: "answer-sdp".into() });
    deliver(&gtx, out);
    assert_eq!(
        received(&mut hrx),
        vec![format!("{:?}", SignalMessage::Answer { target_id: 2, sdp: "answer-sdp".into() })]
    );
    assert!(received(&mut grx).is_empty());
}

#[test]
fn leave_notices_arrive_on_the_remaining_channels() {
    let (mut rooms, (_htx, mut hrx, _host), (gtx, mut grx, mut guest)) = connected_pair();
    let out = handle_leave(&mut rooms, &mut guest);
    deliver(&gtx, out);
    assert_eq!(
        received(&mut hrx),
        vec![format!("{:?}", SignalMessage::PeerDisconnect { id: 2, username: "bob".into() })]
    );
    assert!(received(&mut grx).is_empty());
}

#[test]
fn host_leaving_closes_the_guests_channel() {
    let (mut rooms, (htx, mut hrx, mut host), (_gtx, mut grx, _guest)) = connected_pair();
    let out = handle_leave(&mut rooms, &mut host);
    deliver(&htx, out);
    assert_eq!(
        received(&mut grx),
        vec![
            format!("{:?}", SignalMessage::PeerDisconnect { id: 1, username: "alice".into() }),
            "close".to_string(),
        ]
    );
    assert!(received(&mut hrx).is_empty());
}
