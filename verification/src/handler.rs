//! What the server does with each request: the change to the rooms, and the messages
//! that go out, each to the requester or to a peer of a room.
use vstd::prelude::*;

use axum::extract::ws::Message;
use tokio::sync::mpsc::UnboundedSender;

use crate::protocol::{readdress, readdressed, SignalMessage, SignalView};
use crate::room::{
    create_room, drop_id, first_with_id, fresh_room, has_id, lemma_drop_id, lemma_free_id_within,
    lemma_without_id_view, next_free_id, position_of, Client, ClientView, CreateRoomError,
    JoinError, RoomView, Rooms, HOST_PEER_ID, MAX_PASSWORD_LEN, MAX_USERNAME_LEN,
};
use crate::table::clone_sender;

verus! {

/// Where a message goes: back to the client whose request is handled, or to a peer of
/// a room over that peer's channel.
pub enum Recipient {
    Requester,
    Peer { id: u32, tx: UnboundedSender<Message> },
}

/// What goes out: a signaling message, or the closing of the connection.
#[derive(Debug, PartialEq, Eq)]
pub enum Outbound {
    Signal(SignalMessage),
    Close,
}

/// One message to send.
pub struct Delivery {
    pub to: Recipient,
    pub what: Outbound,
}

/// What the contracts see of an outgoing message.
pub enum OutboundView {
    Signal(SignalView),
    Close,
}

/// What the contracts see of a delivery: `to` is `None` for the requester, and the
/// peer's id and the channel it goes out on otherwise.
pub struct DeliveryView {
    pub to: Option<(u32, UnboundedSender<Message>)>,
    pub what: OutboundView,
}

impl View for Delivery {
    type V = DeliveryView;

    open spec fn view(&self) -> DeliveryView {
        DeliveryView {
            to: match self.to {
                Recipient::Requester => None,
                Recipient::Peer { id, tx } => Some((id, tx)),
            },
            what: match self.what {
                Outbound::Signal(m) => OutboundView::Signal(m@),
                Outbound::Close => OutboundView::Close,
            },
        }
    }
}

pub open spec fn deliveries(ds: Seq<Delivery>) -> Seq<DeliveryView> {
    ds.map_values(|d: Delivery| d@)
}

/// A message to the requester.
pub open spec fn to_requester(m: SignalView) -> DeliveryView {
    DeliveryView { to: None, what: OutboundView::Signal(m) }
}

/// A message to a client of a room, on that client's channel.
pub open spec fn to_peer(c: ClientView, m: SignalView) -> DeliveryView {
    DeliveryView { to: Some((c.id, c.tx)), what: OutboundView::Signal(m) }
}

/// An error message to the requester.
pub open spec fn error_reply(message: Seq<char>) -> DeliveryView {
    to_requester(SignalView::Error { message })
}

/// The reason credentials are refused: the password is checked first, then the name,
/// each by its number of characters.
pub open spec fn credential_error(password: Seq<char>, username: Seq<char>) -> Option<Seq<char>> {
    if password.len() > MAX_PASSWORD_LEN {
        Some("password too long"@)
    } else if username.len() > MAX_USERNAME_LEN {
        Some("username too long"@)
    } else {
        None
    }
}

/// Checks that the password and the user name are within their length limits.
pub fn validate_credentials(password: &str, username: &str) -> (res: Result<(), &'static str>)
    ensures
        res is Ok <==> credential_error(password@, username@) is None,
        res matches Err(m) ==> credential_error(password@, username@) == Some(m@),
{
    if password.unicode_len() > MAX_PASSWORD_LEN {
        return Err("password too long");
    }
    if username.unicode_len() > MAX_USERNAME_LEN {
        return Err("username too long");
    }
    Ok(())
}

/// The result of handling a request: the rooms afterwards, the room and peer id that the
/// requester now holds (when the request gave it one), and what goes out.
pub struct Outcome {
    pub table: Map<Seq<char>, RoomView>,
    pub joined: Option<(Seq<char>, u32)>,
    pub out: Seq<DeliveryView>,
}

pub open spec fn joined_view(j: Option<(String, u32)>) -> Option<(Seq<char>, u32)> {
    match j {
        Some((password, id)) => Some((password@, id)),
        None => None,
    }
}

/// The text of the error that a refused host request is answered with.
pub open spec fn host_error_text(e: CreateRoomError) -> Seq<char> {
    match e {
        CreateRoomError::PasswordAlreadyUsed => "password already in use"@,
        CreateRoomError::RoomLimitReached => "room limit reached"@,
    }
}

/// The text of the error that a refused join request is answered with.
pub open spec fn join_error_text(e: JoinError) -> Seq<char> {
    match e {
        JoinError::RoomNotFound => "room not found"@,
        JoinError::RoomFull => "room is full"@,
        JoinError::RoomSealed => "room is sealed"@,
    }
}

/// A host request: credentials are checked, then the limit on rooms, then whether the
/// password is free. On success the room holds the host alone, under peer id 1, and the
/// host is told its id.
pub open spec fn host_outcome(
    t: Map<Seq<char>, RoomView>,
    password: Seq<char>,
    username: Seq<char>,
    max_player: u8,
    max_rooms: usize,
    tx: UnboundedSender<Message>,
) -> Outcome {
    match credential_error(password, username) {
        Some(m) => Outcome { table: t, joined: None, out: seq![error_reply(m)] },
        None => if t.len() >= max_rooms {
            Outcome {
                table: t,
                joined: None,
                out: seq![error_reply(host_error_text(CreateRoomError::RoomLimitReached))],
            }
        } else if t.dom().contains(password) {
            Outcome {
                table: t,
                joined: None,
                out: seq![error_reply(host_error_text(CreateRoomError::PasswordAlreadyUsed))],
            }
        } else {
            Outcome {
                table: t.insert(
                    password,
                    fresh_room(ClientView { id: HOST_PEER_ID, username, tx }, max_player),
                ),
                joined: Some((password, HOST_PEER_ID)),
                out: seq![to_requester(SignalView::Id { id: HOST_PEER_ID })],
            }
        },
    }
}

/// An error message to the requester.
fn error_to_requester(message: &str) -> (d: Delivery)
    ensures
        d@ == error_reply(message@),
{
    Delivery {
        to: Recipient::Requester,
        what: Outbound::Signal(SignalMessage::Error { message: message.to_owned() }),
    }
}

/// The error that tells the requester why its room was not created.
fn send_host_error(e: CreateRoomError) -> (d: Delivery)
    ensures
        d@ == error_reply(host_error_text(e)),
{
    let message = match e {
        CreateRoomError::PasswordAlreadyUsed => "password already in use",
        CreateRoomError::RoomLimitReached => "room limit reached",
    };
    error_to_requester(message)
}

/// Handles a host request. On success returns the password and the host's peer id.
pub fn handle_host(
    rooms: &mut Rooms,
    tx: &UnboundedSender<Message>,
    password: String,
    username: String,
    max_player: u8,
    max_rooms: usize,
) -> (res: (Option<(String, u32)>, Vec<Delivery>))
    requires
        old(rooms).wf(),
    ensures
        final(rooms).wf(),
        final(rooms)@ == host_outcome(old(rooms)@, password@, username@, max_player, max_rooms, *tx).table,
        joined_view(res.0) == host_outcome(
            old(rooms)@,
            password@,
            username@,
            max_player,
            max_rooms,
            *tx,
        ).joined,
        deliveries(res.1@) == host_outcome(
            old(rooms)@,
            password@,
            username@,
            max_player,
            max_rooms,
            *tx,
        ).out,
{
    let mut out: Vec<Delivery> = Vec::new();
    if let Err(message) = validate_credentials(password.as_str(), username.as_str()) {
        out.push(error_to_requester(message));
        assert(deliveries(out@) =~= seq![error_reply(message@)]);
        return (None, out);
    }
    let client = Client { id: HOST_PEER_ID, username, tx: clone_sender(tx) };
    match create_room(rooms, password.clone(), client, max_player, max_rooms) {
        Ok(()) => {
            out.push(
                Delivery {
                    to: Recipient::Requester,
                    what: Outbound::Signal(SignalMessage::Id { id: HOST_PEER_ID }),
                },
            );
            assert(deliveries(out@) =~= seq![to_requester(SignalView::Id { id: HOST_PEER_ID })]);
            (Some((password, HOST_PEER_ID)), out)
        },
        Err(e) => {
            out.push(send_host_error(e));
            assert(deliveries(out@) =~= seq![error_reply(host_error_text(e))]);
            (None, out)
        },
    }
}

proof fn lemma_deliveries_push(s: Seq<Delivery>, d: Delivery)
    ensures
        deliveries(s.push(d)) == deliveries(s).push(d@),
{
    assert(deliveries(s.push(d)) =~= deliveries(s).push(d@));
}

/// The new peer announced to every other client of the room, in their order.
pub open spec fn announce(cs: Seq<ClientView>, id: u32, username: Seq<char>) -> Seq<DeliveryView>
    decreases cs.len(),
{
    if cs.len() == 0 {
        seq![]
    } else {
        let rest = announce(cs.drop_last(), id, username);
        if cs.last().id != id {
            rest.push(to_peer(cs.last(), SignalView::PeerConnect { id, username }))
        } else {
            rest
        }
    }
}

/// Every client other than the new peer and the host, introduced to the new peer, in
/// their order.
pub open spec fn introduce(cs: Seq<ClientView>, id: u32, host_id: u32) -> Seq<DeliveryView>
    decreases cs.len(),
{
    if cs.len() == 0 {
        seq![]
    } else {
        let rest = introduce(cs.drop_last(), id, host_id);
        let c = cs.last();
        if c.id != id && c.id != host_id {
            rest.push(to_requester(SignalView::PeerConnect { id: c.id, username: c.username }))
        } else {
            rest
        }
    }
}

/// The host's name, told to the requester, when some client holds the host's id.
pub open spec fn host_info(cs: Seq<ClientView>, host_id: u32) -> Seq<DeliveryView> {
    if has_id(cs, host_id) {
        let i = choose|i: int| first_with_id(cs, host_id, i);
        seq![to_requester(SignalView::HostInfo { username: cs[i].username })]
    } else {
        seq![]
    }
}

/// The room with a new client at the end.
pub open spec fn with_client(r: RoomView, c: ClientView) -> RoomView {
    RoomView {
        max_player: r.max_player,
        host_id: r.host_id,
        clients: r.clients.push(c),
        is_sealed: r.is_sealed,
    }
}

/// A join request: credentials are checked, then that the room exists, then that it is
/// not sealed, then that it is not full. On success the peer gets the smallest free id
/// from 2 up and joins at the end; the others are told of it, and it is told its id, the
/// host's name and the other guests.
pub open spec fn join_outcome(
    t: Map<Seq<char>, RoomView>,
    password: Seq<char>,
    username: Seq<char>,
    tx: UnboundedSender<Message>,
) -> Outcome {
    match credential_error(password, username) {
        Some(m) => Outcome { table: t, joined: None, out: seq![error_reply(m)] },
        None => if !t.dom().contains(password) {
            Outcome {
                table: t,
                joined: None,
                out: seq![error_reply(join_error_text(JoinError::RoomNotFound))],
            }
        } else {
            let r = t[password];
            let id = next_free_id(r.clients);
            if r.is_sealed {
                Outcome {
                    table: t,
                    joined: None,
                    out: seq![error_reply(join_error_text(JoinError::RoomSealed))],
                }
            } else if r.clients.len() >= r.max_player {
                Outcome {
                    table: t,
                    joined: None,
                    out: seq![error_reply(join_error_text(JoinError::RoomFull))],
                }
            } else {
                let nr = with_client(r, ClientView { id, username, tx });
                Outcome {
                    table: t.insert(password, nr),
                    joined: Some((password, id)),
                    out: announce(nr.clients, id, username) + seq![
                        to_requester(SignalView::Id { id }),
                    ] + host_info(nr.clients, nr.host_id) + introduce(nr.clients, id, nr.host_id),
                }
            }
        },
    }
}

/// The error that tells the requester why it could not join.
fn send_join_error(e: JoinError) -> (d: Delivery)
    ensures
        d@ == error_reply(join_error_text(e)),
{
    let message = match e {
        JoinError::RoomNotFound => "room not found",
        JoinError::RoomFull => "room is full",
        JoinError::RoomSealed => "room is sealed",
    };
    error_to_requester(message)
}

/// Handles a join request. On success returns the password and the new peer's id.
pub fn handle_join(
    rooms: &mut Rooms,
    tx: &UnboundedSender<Message>,
    password: String,
    username: String,
) -> (res: (Option<(String, u32)>, Vec<Delivery>))
    requires
        old(rooms).wf(),
    ensures
        final(rooms).wf(),
        final(rooms)@ == join_outcome(old(rooms)@, password@, username@, *tx).table,
        joined_view(res.0) == join_outcome(old(rooms)@, password@, username@, *tx).joined,
        deliveries(res.1@) == join_outcome(old(rooms)@, password@, username@, *tx).out,
{
    let ghost t = rooms@;
    let mut out: Vec<Delivery> = Vec::new();
    if let Err(message) = validate_credentials(password.as_str(), username.as_str()) {
        out.push(error_to_requester(message));
        assert(deliveries(out@) =~= seq![error_reply(message@)]);
        return (None, out);
    }
    let mut room = match rooms.take(&password) {
        Some(r) => r,
        None => {
            out.push(send_join_error(JoinError::RoomNotFound));
            assert(deliveries(out@) =~= seq![error_reply(join_error_text(JoinError::RoomNotFound))]);
            return (None, out);
        },
    };
    let ghost r = room@;
    assert(r.well_formed());
    proof {
        lemma_free_id_within(r.clients);
    }
    let new_id = room.next_peer_id();
    assert(new_id == next_free_id(r.clients));
    let client = Client { id: new_id, username: username.clone(), tx: clone_sender(tx) };
    let ghost cv = client@;
    if let Err(e) = room.add_client(client) {
        assert(room@ == r);
        rooms.put(password.clone(), room);
        assert(rooms@ =~= t);
        out.push(send_join_error(e));
        assert(deliveries(out@) =~= seq![error_reply(join_error_text(e))]);
        return (None, out);
    }
    let ghost nr = room@;
    assert(nr.clients =~= r.clients.push(cv));
    // every other client hears of the new peer
    let mut i: usize = 0;
    while i < room.clients.len()
        invariant
            0 <= i <= room.clients.len(),
            room@ == nr,
            deliveries(out@) == announce(nr.clients.take(i as int), new_id, username@),
        decreases room.clients.len() - i,
    {
        assert(nr.clients.take(i + 1).drop_last() =~= nr.clients.take(i as int));
        assert(nr.clients[i as int] == room.clients@[i as int]@);
        if room.clients[i].id != new_id {
            let d = Delivery {
                to: Recipient::Peer { id: room.clients[i].id, tx: clone_sender(&room.clients[i].tx) },
                what: Outbound::Signal(
                    SignalMessage::PeerConnect { id: new_id, username: username.clone() },
                ),
            };
            proof {
                lemma_deliveries_push(out@, d);
            }
            out.push(d);
        }
        i += 1;
    }
    assert(nr.clients.take(nr.clients.len() as int) =~= nr.clients);
    let ghost announced = deliveries(out@);
    // the new peer learns its id
    let d = Delivery { to: Recipient::Requester, what: Outbound::Signal(SignalMessage::Id { id: new_id }) };
    proof {
        lemma_deliveries_push(out@, d);
    }
    out.push(d);
    // and the host's name
    if let Some(name) = room.host_username() {
        let d = Delivery {
            to: Recipient::Requester,
            what: Outbound::Signal(SignalMessage::HostInfo { username: name.to_owned() }),
        };
        proof {
            lemma_deliveries_push(out@, d);
            let i = choose|i: int| first_with_id(nr.clients, nr.host_id, i) && name@ == nr.clients[i].username;
            let k = choose|k: int| first_with_id(nr.clients, nr.host_id, k);
            if i < k {
                assert(nr.clients[i].id == nr.host_id);
            } else if k < i {
                assert(nr.clients[k].id == nr.host_id);
            }
        }
        out.push(d);
    }
    let ghost before_intro = deliveries(out@);
    assert(before_intro == announced + seq![to_requester(SignalView::Id { id: new_id })] + host_info(
        nr.clients,
        nr.host_id,
    ));
    // and every other guest
    let mut i: usize = 0;
    while i < room.clients.len()
        invariant
            0 <= i <= room.clients.len(),
            room@ == nr,
            deliveries(out@) == before_intro + introduce(nr.clients.take(i as int), new_id, nr.host_id),
        decreases room.clients.len() - i,
    {
        assert(nr.clients.take(i + 1).drop_last() =~= nr.clients.take(i as int));
        assert(nr.clients[i as int] == room.clients@[i as int]@);
        if room.clients[i].id != new_id && room.clients[i].id != room.host_id {
            let d = Delivery {
                to: Recipient::Requester,
                what: Outbound::Signal(
                    SignalMessage::PeerConnect {
                        id: room.clients[i].id,
                        username: room.clients[i].username.clone(),
                    },
                ),
            };
            proof {
                lemma_deliveries_push(out@, d);
            }
            out.push(d);
        }
        i += 1;
    }
    assert(nr.clients.take(nr.clients.len() as int) =~= nr.clients);
    rooms.put(password.clone(), room);
    proof {
        assert(nr.well_formed()) by {
            assert forall|a: int, b: int| 0 <= a < b < nr.clients.len() implies #[trigger] nr.clients[a].id
                != #[trigger] nr.clients[b].id by {
                if b == nr.clients.len() - 1 {
                    assert(r.clients[a].id != new_id);
                }
            }
        }
        assert forall|key: Seq<char>| rooms@.dom().contains(key) implies #[trigger] rooms@[key].well_formed() by {
            if key != password@ {
                assert(t.dom().contains(key));
            }
        }
    }
    (Some((password, new_id)), out)
}

/// The room, sealed.
pub open spec fn sealed(r: RoomView) -> RoomView {
    RoomView { max_player: r.max_player, host_id: r.host_id, clients: r.clients, is_sealed: true }
}

/// A seal request: only the host of an existing room may seal it; anyone else is told so.
/// A requester in no room, or whose room is gone, is ignored.
pub open spec fn seal_outcome(t: Map<Seq<char>, RoomView>, joined: Option<(Seq<char>, u32)>) -> Outcome {
    match joined {
        None => Outcome { table: t, joined, out: seq![] },
        Some((password, my_id)) => if !t.dom().contains(password) {
            Outcome { table: t, joined, out: seq![] }
        } else if t[password].host_id != my_id {
            Outcome { table: t, joined, out: seq![error_reply("only host can seal the room"@)] }
        } else {
            Outcome { table: t.insert(password, sealed(t[password])), joined, out: seq![] }
        },
    }
}

/// Handles a seal request from the requester that holds `joined`.
pub fn handle_seal(rooms: &mut Rooms, joined: &Option<(String, u32)>) -> (out: Vec<Delivery>)
    requires
        old(rooms).wf(),
    ensures
        final(rooms).wf(),
        final(rooms)@ == seal_outcome(old(rooms)@, joined_view(*joined)).table,
        deliveries(out@) == seal_outcome(old(rooms)@, joined_view(*joined)).out,
{
    let ghost t = rooms@;
    let mut out: Vec<Delivery> = Vec::new();
    let (password, my_id) = match joined {
        Some((password, my_id)) => (password, *my_id),
        None => {
            assert(deliveries(out@) =~= seq![]);
            return out;
        },
    };
    let mut room = match rooms.take(password) {
        Some(r) => r,
        None => {
            assert(deliveries(out@) =~= seq![]);
            return out;
        },
    };
    if !room.is_host(my_id) {
        rooms.put(password.clone(), room);
        assert(rooms@ =~= t);
        out.push(error_to_requester("only host can seal the room"));
        assert(deliveries(out@) =~= seq![error_reply("only host can seal the room"@)]);
        return out;
    }
    room.is_sealed = true;
    rooms.put(password.clone(), room);
    assert(deliveries(out@) =~= seq![]);
    proof {
        assert forall|key: Seq<char>| rooms@.dom().contains(key) implies #[trigger] rooms@[key].well_formed() by {
            if key != password@ {
                assert(t.dom().contains(key));
            } else {
                assert(t[key].well_formed());
            }
        }
    }
    out
}

/// The name of the first client with the id, or the empty name when there is none.
pub open spec fn name_of(cs: Seq<ClientView>, id: u32) -> Seq<char> {
    if has_id(cs, id) {
        cs[choose|i: int| first_with_id(cs, id, i)].username
    } else {
        seq![]
    }
}

/// The leaving peer's goodbye to each remaining client, in their order; when the host
/// leaves, each connection is closed right after.
pub open spec fn farewell(cs: Seq<ClientView>, id: u32, username: Seq<char>, close: bool) -> Seq<
    DeliveryView,
>
    decreases cs.len(),
{
    if cs.len() == 0 {
        seq![]
    } else {
        let c = cs.last();
        let rest = farewell(cs.drop_last(), id, username, close);
        let bye = rest.push(to_peer(c, SignalView::PeerDisconnect { id, username }));
        if close {
            bye.push(DeliveryView { to: Some((c.id, c.tx)), what: OutboundView::Close })
        } else {
            bye
        }
    }
}

/// The room with other clients.
pub open spec fn with_clients(r: RoomView, cs: Seq<ClientView>) -> RoomView {
    RoomView { max_player: r.max_player, host_id: r.host_id, clients: cs, is_sealed: r.is_sealed }
}

/// Leaving: the peer is removed from its room and the others are told; when it was the
/// host, their connections are closed too. The room goes when its host leaves or when
/// no one is left. Afterwards the requester is in no room.
pub open spec fn leave_outcome(t: Map<Seq<char>, RoomView>, joined: Option<(Seq<char>, u32)>) -> Outcome {
    match joined {
        None => Outcome { table: t, joined: None, out: seq![] },
        Some((password, my_id)) => if !t.dom().contains(password) {
            Outcome { table: t, joined: None, out: seq![] }
        } else {
            let r = t[password];
            let rest = drop_id(r.clients, my_id);
            let was_host = r.host_id == my_id;
            Outcome {
                table: if was_host || rest.len() == 0 {
                    t.remove(password)
                } else {
                    t.insert(password, with_clients(r, rest))
                },
                joined: None,
                out: farewell(rest, my_id, name_of(r.clients, my_id), was_host),
            }
        },
    }
}

/// Handles leaving, for a requester that holds `joined`; afterwards it holds nothing.
pub fn handle_leave(rooms: &mut Rooms, joined: &mut Option<(String, u32)>) -> (out: Vec<Delivery>)
    requires
        old(rooms).wf(),
    ensures
        final(rooms).wf(),
        *final(joined) is None,
        final(rooms)@ == leave_outcome(old(rooms)@, joined_view(*old(joined))).table,
        deliveries(out@) == leave_outcome(old(rooms)@, joined_view(*old(joined))).out,
{
    let ghost t = rooms@;
    let mut out: Vec<Delivery> = Vec::new();
    let (password, my_id) = match joined.take() {
        Some(j) => j,
        None => {
            assert(deliveries(out@) =~= seq![]);
            return out;
        },
    };
    let mut room = match rooms.take(&password) {
        Some(r) => r,
        None => {
            assert(deliveries(out@) =~= seq![]);
            return out;
        },
    };
    let ghost r = room@;
    assert(r.well_formed());
    let username = match position_of(&room.clients, my_id) {
        Some(i) => room.clients[i].username.clone(),
        None => String::new(),
    };
    proof {
        if has_id(r.clients, my_id) {
            let i = choose|i: int| first_with_id(r.clients, my_id, i) && username@ == r.clients[i].username;
            let k = choose|k: int| first_with_id(r.clients, my_id, k);
            if i < k {
                assert(r.clients[i].id == my_id);
            } else if k < i {
                assert(r.clients[k].id == my_id);
            }
        }
    }
    assert(username@ == name_of(r.clients, my_id));
    let ghost before = room.clients@;
    let was_host = room.remove_client(my_id);
    proof {
        lemma_without_id_view(before, my_id);
        lemma_drop_id(r.clients, my_id);
    }
    let ghost rest = drop_id(r.clients, my_id);
    assert(room@.clients == rest);
    let mut i: usize = 0;
    while i < room.clients.len()
        invariant
            0 <= i <= room.clients.len(),
            room@.clients == rest,
            deliveries(out@) == farewell(rest.take(i as int), my_id, username@, was_host),
        decreases room.clients.len() - i,
    {
        assert(rest.take(i + 1).drop_last() =~= rest.take(i as int));
        assert(rest[i as int] == room.clients@[i as int]@);
        let d = Delivery {
            to: Recipient::Peer { id: room.clients[i].id, tx: clone_sender(&room.clients[i].tx) },
            what: Outbound::Signal(
                SignalMessage::PeerDisconnect { id: my_id, username: username.clone() },
            ),
        };
        proof {
            lemma_deliveries_push(out@, d);
        }
        out.push(d);
        if was_host {
            let d = Delivery {
                to: Recipient::Peer { id: room.clients[i].id, tx: clone_sender(&room.clients[i].tx) },
                what: Outbound::Close,
            };
            proof {
                lemma_deliveries_push(out@, d);
            }
            out.push(d);
        }
        i += 1;
    }
    assert(rest.take(rest.len() as int) =~= rest);
    if !was_host && room.clients.len() > 0 {
        rooms.put(password, room);
        proof {
            let nr = with_clients(r, rest);
            assert(nr.well_formed()) by {
                assert(r.clients[0].id == r.host_id);
            }
            assert forall|key: Seq<char>| rooms@.dom().contains(key) implies #[trigger] rooms@[key].well_formed() by {
                if key != password@ {
                    assert(t.dom().contains(key));
                }
            }
        }
    } else {
        proof {
            assert forall|key: Seq<char>| rooms@.dom().contains(key) implies #[trigger] rooms@[key].well_formed() by {
                assert(t.dom().contains(key));
            }
        }
    }
    out
}

/// Relaying: the message goes, with the sender's id in it, to the first client of the
/// sender's room that has the target id. Nothing goes when the sender is in no room,
/// its room is gone, or no client has that id.
pub open spec fn relay_outcome(
    t: Map<Seq<char>, RoomView>,
    joined: Option<(Seq<char>, u32)>,
    target_id: u32,
    m: SignalView,
) -> Seq<DeliveryView> {
    match joined {
        None => seq![],
        Some((password, my_id)) => if t.dom().contains(password) && has_id(
            t[password].clients,
            target_id,
        ) {
            let cs = t[password].clients;
            seq![to_peer(cs[choose|i: int| first_with_id(cs, target_id, i)], readdressed(m, my_id))]
        } else {
            seq![]
        },
    }
}

/// Relays an offer, an answer or an ICE candidate to the target in the sender's room.
pub fn relay_to(
    rooms: &mut Rooms,
    joined: &Option<(String, u32)>,
    target_id: u32,
    msg: SignalMessage,
) -> (out: Vec<Delivery>)
    requires
        old(rooms).wf(),
    ensures
        final(rooms).wf(),
        final(rooms)@ == old(rooms)@,
        deliveries(out@) == relay_outcome(old(rooms)@, joined_view(*joined), target_id, msg@),
{
    let ghost t = rooms@;
    let mut out: Vec<Delivery> = Vec::new();
    let (password, my_id) = match joined {
        Some((password, my_id)) => (password, *my_id),
        None => {
            assert(deliveries(out@) =~= seq![]);
            return out;
        },
    };
    let room = match rooms.take(password) {
        Some(r) => r,
        None => {
            assert(deliveries(out@) =~= seq![]);
            return out;
        },
    };
    if let Some(i) = position_of(&room.clients, target_id) {
        let d = Delivery {
            to: Recipient::Peer { id: target_id, tx: clone_sender(&room.clients[i].tx) },
            what: Outbound::Signal(readdress(msg, my_id)),
        };
        out.push(d);
        assert(deliveries(out@) =~= seq![d@]);
    } else {
        assert(deliveries(out@) =~= seq![]);
    }
    rooms.put(password.clone(), room);
    assert(rooms@ =~= t);
    out
}

} // verus!
