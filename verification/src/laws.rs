//! Properties of the server that span requests.
use vstd::prelude::*;

use crate::handler::{
    announce, credential_error, error_reply, farewell, host_outcome, introduce, join_error_text,
    join_outcome, leave_outcome, name_of, relay_outcome, seal_outcome, with_client,
    DeliveryView, Outcome, OutboundView,
};
use crate::session::message_outcome;
use crate::protocol::SignalView;
use crate::room::{
    capacity, drop_id, first_with_id, has_id, ids_distinct, lemma_drop_id, lemma_free_id_within,
    next_free_id, ClientView, table_wf, JoinError, RoomView, HOST_PEER_ID,
};
use crate::stats::{lemma_total_peers_remove, total_peers};

use axum::extract::ws::Message;
use tokio::sync::mpsc::UnboundedSender;

verus! {

/// A host request that succeeds makes the requester the only client of a new, unsealed
/// room, under peer id 1, which is also the room's host id.
pub proof fn law_host_is_peer_one(
    t: Map<Seq<char>, RoomView>,
    password: Seq<char>,
    username: Seq<char>,
    max_player: u8,
    max_rooms: usize,
    tx: UnboundedSender<Message>,
)
    ensures
        ({
            let o = host_outcome(t, password, username, max_player, max_rooms, tx);
            o.joined is Some ==> {
                &&& o.joined == Some((password, HOST_PEER_ID))
                &&& o.table[password].host_id == HOST_PEER_ID
                &&& o.table[password].clients == seq![ClientView { id: HOST_PEER_ID, username, tx }]
                &&& !o.table[password].is_sealed
                &&& o.table[password].max_player == max_player
            }
        }),
{
}

/// A host request succeeds exactly when the password and the name are within their
/// limits, fewer than `max_rooms` rooms exist and the password is free. It then adds one
/// room, holding the requested capacity and the host alone as peer 1 on the requester's
/// channel, leaves every other room as it was, and sends the host its id and nothing
/// else. A refused request changes no room and sends the requester one error.
pub proof fn law_host_result(
    t: Map<Seq<char>, RoomView>,
    password: Seq<char>,
    username: Seq<char>,
    max_player: u8,
    max_rooms: usize,
    tx: UnboundedSender<Message>,
)
    ensures
        ({
            let o = host_outcome(t, password, username, max_player, max_rooms, tx);
            &&& o.joined is Some <==> (password.len() <= 64 && username.len() <= 32 && t.len()
                < max_rooms && !t.dom().contains(password))
            &&& o.joined is Some ==> {
                &&& o.table == t.insert(
                    password,
                    RoomView {
                        max_player,
                        host_id: 1,
                        clients: seq![ClientView { id: 1, username, tx }],
                        is_sealed: false,
                    },
                )
                &&& o.out == seq![
                    DeliveryView { to: None, what: OutboundView::Signal(SignalView::Id { id: 1 }) },
                ]
            }
            &&& o.joined is None ==> {
                &&& o.table == t
                &&& o.out.len() == 1
                &&& o.out[0].to is None
                &&& o.out[0].what matches OutboundView::Signal(SignalView::Error { .. })
            }
        }),
{
}

/// Only the host seals its room: sealing keeps the room's clients, capacity and host and
/// sends nothing; anyone else changes nothing and is sent one error.
pub proof fn law_seal_result(t: Map<Seq<char>, RoomView>, password: Seq<char>, my_id: u32)
    requires
        t.dom().contains(password),
    ensures
        ({
            let r = t[password];
            let o = seal_outcome(t, Some((password, my_id)));
            &&& my_id == r.host_id ==> o.table == t.insert(
                password,
                RoomView {
                    max_player: r.max_player,
                    host_id: r.host_id,
                    clients: r.clients,
                    is_sealed: true,
                },
            ) && o.out.len() == 0
            &&& my_id != r.host_id ==> o.table == t && o.out.len() == 1 && o.out[0].to is None
                && o.out[0].what matches OutboundView::Signal(SignalView::Error { .. })
        }),
{
}

/// Host requests never take the number of rooms past the limit.
pub proof fn law_room_limit(
    t: Map<Seq<char>, RoomView>,
    password: Seq<char>,
    username: Seq<char>,
    max_player: u8,
    max_rooms: usize,
    tx: UnboundedSender<Message>,
)
    requires
        t.dom().finite(),
        t.len() <= max_rooms,
    ensures
        host_outcome(t, password, username, max_player, max_rooms, tx).table.len() <= max_rooms,
{
}

/// A peer that joins a room and then leaves it leaves the room as it found it, and its
/// goodbye goes to exactly the clients that were there before it came.
pub proof fn law_join_then_leave(
    t: Map<Seq<char>, RoomView>,
    password: Seq<char>,
    username: Seq<char>,
    tx: UnboundedSender<Message>,
)
    requires
        table_wf(t),
        join_outcome(t, password, username, tx).joined is Some,
    ensures
        ({
            let o = join_outcome(t, password, username, tx);
            let l = leave_outcome(o.table, o.joined);
            &&& l.table == t
            &&& l.out == farewell(t[password].clients, next_free_id(t[password].clients), username, false)
        }),
{
    let r = t[password];
    assert(r.well_formed());
    lemma_free_id_within(r.clients);
    let id = next_free_id(r.clients);
    let c = ClientView { id, username, tx };
    let nr = with_client(r, c);
    assert(nr.clients.drop_last() =~= r.clients);
    lemma_drop_id(r.clients, id);
    assert(drop_id(nr.clients, id) == r.clients);
    assert(r.clients[0].id != id) by {
        assert(has_id(r.clients, r.clients[0].id));
    }
    assert(nr.clients[nr.clients.len() - 1].id == id);
    assert(has_id(nr.clients, id));
    assert(name_of(nr.clients, id) == username) by {
        let last = nr.clients.len() - 1;
        assert forall|j: int| 0 <= j < last implies #[trigger] nr.clients[j].id != id by {
            assert(nr.clients[j] == r.clients[j]);
            if r.clients[j].id == id {
                assert(has_id(r.clients, id));
            }
        }
        assert(crate::room::first_with_id(nr.clients, id, last));
        let i = choose|i: int| crate::room::first_with_id(nr.clients, id, i);
        if i < last {
            assert(nr.clients[i] == r.clients[i]);
            assert(r.clients[i].id == id);
            assert(has_id(r.clients, id));
        }
    }
    let o = join_outcome(t, password, username, tx);
    assert(leave_outcome(o.table, o.joined).table =~= t.insert(password, r));
    assert(t.insert(password, r) =~= t);
}

/// Once its host has sealed a room, join requests are refused with "room is sealed" and
/// change nothing, while the clients already in the room stay.
pub proof fn law_sealed_room_refuses_joins(
    t: Map<Seq<char>, RoomView>,
    password: Seq<char>,
    host_id: u32,
    username: Seq<char>,
    tx: UnboundedSender<Message>,
)
    requires
        t.dom().contains(password),
        t[password].host_id == host_id,
        credential_error(password, username) is None,
    ensures
        ({
            let s = seal_outcome(t, Some((password, host_id))).table;
            let o = join_outcome(s, password, username, tx);
            &&& s[password].clients == t[password].clients
            &&& o.table == s
            &&& o.joined is None
            &&& o.out == seq![error_reply(join_error_text(JoinError::RoomSealed))]
        }),
{
}

/// When the host leaves, its room is gone and every other client is told and then
/// disconnected.
pub proof fn law_host_leaving_closes_room(t: Map<Seq<char>, RoomView>, password: Seq<char>)
    requires
        t.dom().contains(password),
    ensures
        ({
            let r = t[password];
            let l = leave_outcome(t, Some((password, r.host_id)));
            &&& l.table == t.remove(password)
            &&& l.out == farewell(
                drop_id(r.clients, r.host_id),
                r.host_id,
                name_of(r.clients, r.host_id),
                true,
            )
        }),
{
}

/// Leaving is done once: a client in no room that leaves changes nothing and sends nothing.
pub proof fn law_leave_without_room(t: Map<Seq<char>, RoomView>)
    ensures
        leave_outcome(t, None) == (Outcome { table: t, joined: None, out: seq![] }),
{
}

/// A join that succeeds adds exactly one peer to the count of connected peers, and keeps
/// the room within its capacity.
pub proof fn law_join_adds_one_peer(
    t: Map<Seq<char>, RoomView>,
    password: Seq<char>,
    username: Seq<char>,
    tx: UnboundedSender<Message>,
)
    requires
        table_wf(t),
        join_outcome(t, password, username, tx).joined is Some,
    ensures
        total_peers(join_outcome(t, password, username, tx).table) == total_peers(t) + 1,
        join_outcome(t, password, username, tx).table[password].clients.len() <= capacity(
            t[password].max_player,
        ),
{
    let o = join_outcome(t, password, username, tx);
    lemma_total_peers_remove(t, password);
    lemma_total_peers_remove(o.table, password);
    assert(o.table.remove(password) =~= t.remove(password));
}

/// Some client holds the id exactly when there is a first one that does.
proof fn lemma_first_exists(cs: Seq<ClientView>, id: u32)
    requires
        has_id(cs, id),
    ensures
        exists|i: int| first_with_id(cs, id, i),
    decreases cs.len(),
{
    let pre = cs.drop_last();
    if has_id(pre, id) {
        lemma_first_exists(pre, id);
        let i = choose|i: int| first_with_id(pre, id, i);
        assert forall|j: int| 0 <= j < i implies #[trigger] cs[j].id != id by {
            assert(cs[j] == pre[j]);
        }
        assert(first_with_id(cs, id, i));
    } else {
        let w = choose|w: int| 0 <= w < cs.len() && #[trigger] cs[w].id == id;
        assert forall|j: int| 0 <= j < cs.len() - 1 implies #[trigger] cs[j].id != id by {
            assert(cs[j] == pre[j]);
            if cs[j].id == id {
                assert(pre[j].id == id);
            }
        }
        assert(w == cs.len() - 1);
        assert(first_with_id(cs, id, cs.len() - 1));
    }
}

/// A client of `cs`, other than the last, is a client of `cs.drop_last()`.
proof fn lemma_in_prefix(cs: Seq<ClientView>, c: ClientView)
    requires
        cs.contains(c),
        c != cs.last(),
    ensures
        cs.drop_last().contains(c),
{
    let j = choose|j: int| 0 <= j < cs.len() && cs[j] == c;
    assert(cs.drop_last()[j] == c);
}

/// The announcement reaches every client without the new id, on its channel.
proof fn lemma_announce_reaches(cs: Seq<ClientView>, id: u32, username: Seq<char>, c: ClientView)
    requires
        cs.contains(c),
        c.id != id,
    ensures
        announce(cs, id, username).contains(
            DeliveryView {
                to: Some((c.id, c.tx)),
                what: OutboundView::Signal(SignalView::PeerConnect { id, username }),
            },
        ),
    decreases cs.len(),
{
    let d = DeliveryView {
        to: Some((c.id, c.tx)),
        what: OutboundView::Signal(SignalView::PeerConnect { id, username }),
    };
    let rest = announce(cs.drop_last(), id, username);
    if c == cs.last() {
        assert(announce(cs, id, username) == rest.push(d));
        assert(rest.push(d)[rest.len() as int] == d);
    } else {
        lemma_in_prefix(cs, c);
        lemma_announce_reaches(cs.drop_last(), id, username, c);
        let k = choose|k: int| 0 <= k < rest.len() && rest[k] == d;
        if cs.last().id != id {
            let p = cs.last();
            assert(rest.push(
                DeliveryView {
                    to: Some((p.id, p.tx)),
                    what: OutboundView::Signal(SignalView::PeerConnect { id, username }),
                },
            )[k] == d);
        }
    }
}

/// With no client holding the id, everyone is announced to once.
proof fn lemma_announce_len(cs: Seq<ClientView>, id: u32, username: Seq<char>)
    requires
        !has_id(cs, id),
    ensures
        announce(cs, id, username).len() == cs.len(),
    decreases cs.len(),
{
    if cs.len() > 0 {
        assert(!has_id(cs.drop_last(), id)) by {
            if has_id(cs.drop_last(), id) {
                let j = choose|j: int| 0 <= j < cs.drop_last().len() && #[trigger] cs.drop_last()[j].id == id;
                assert(cs[j].id == id);
            }
        }
        assert(cs[cs.len() - 1].id != id);
        lemma_announce_len(cs.drop_last(), id, username);
    }
}

/// The introduction names every client that is neither the new peer nor the host.
proof fn lemma_introduce_names(cs: Seq<ClientView>, id: u32, host_id: u32, c: ClientView)
    requires
        cs.contains(c),
        c.id != id,
        c.id != host_id,
    ensures
        introduce(cs, id, host_id).contains(
            DeliveryView {
                to: None,
                what: OutboundView::Signal(SignalView::PeerConnect { id: c.id, username: c.username }),
            },
        ),
    decreases cs.len(),
{
    let d = DeliveryView {
        to: None,
        what: OutboundView::Signal(SignalView::PeerConnect { id: c.id, username: c.username }),
    };
    let rest = introduce(cs.drop_last(), id, host_id);
    if c == cs.last() {
        assert(introduce(cs, id, host_id) == rest.push(d));
        assert(rest.push(d)[rest.len() as int] == d);
    } else {
        lemma_in_prefix(cs, c);
        lemma_introduce_names(cs.drop_last(), id, host_id, c);
        let k = choose|k: int| 0 <= k < rest.len() && rest[k] == d;
        let p = cs.last();
        if p.id != id && p.id != host_id {
            assert(rest.push(
                DeliveryView {
                    to: None,
                    what: OutboundView::Signal(SignalView::PeerConnect { id: p.id, username: p.username }),
                },
            )[k] == d);
        }
    }
}

/// With distinct ids, the host first and no client holding the new id, every client but
/// the host is introduced once.
proof fn lemma_introduce_len(cs: Seq<ClientView>, id: u32, host_id: u32)
    requires
        cs.len() >= 1,
        cs[0].id == host_id,
        ids_distinct(cs),
        !has_id(cs, id),
    ensures
        introduce(cs, id, host_id).len() == cs.len() - 1,
    decreases cs.len(),
{
    let pre = cs.drop_last();
    if cs.len() > 1 {
        assert(pre[0] == cs[0]);
        assert(ids_distinct(pre)) by {
            assert forall|a: int, b: int| 0 <= a < b < pre.len() implies #[trigger] pre[a].id
                != #[trigger] pre[b].id by {
                assert(cs[a] == pre[a] && cs[b] == pre[b]);
            }
        }
        assert(!has_id(pre, id)) by {
            if has_id(pre, id) {
                let j = choose|j: int| 0 <= j < pre.len() && #[trigger] pre[j].id == id;
                assert(cs[j].id == id);
            }
        }
        assert(cs[cs.len() - 1].id != id);
        assert(cs[cs.len() - 1].id != cs[0].id);
        lemma_introduce_len(pre, id, host_id);
    } else {
        assert(pre.len() == 0);
        assert(cs.last().id == host_id);
        assert(introduce(pre, id, host_id).len() == 0);
    }
}

/// With distinct ids, dropping an id removes one client when some client has it and none
/// otherwise.
proof fn lemma_drop_id_len(cs: Seq<ClientView>, id: u32)
    requires
        ids_distinct(cs),
    ensures
        drop_id(cs, id).len() == if has_id(cs, id) { cs.len() - 1 } else { cs.len() as int },
    decreases cs.len(),
{
    if cs.len() > 0 {
        let pre = cs.drop_last();
        assert(ids_distinct(pre)) by {
            assert forall|a: int, b: int| 0 <= a < b < pre.len() implies #[trigger] pre[a].id
                != #[trigger] pre[b].id by {
                assert(cs[a] == pre[a] && cs[b] == pre[b]);
            }
        }
        lemma_drop_id_len(pre, id);
        if cs.last().id == id {
            assert(has_id(cs, id)) by {
                assert(cs[cs.len() - 1].id == id);
            }
            assert(!has_id(pre, id)) by {
                if has_id(pre, id) {
                    let j = choose|j: int| 0 <= j < pre.len() && #[trigger] pre[j].id == id;
                    assert(cs[j].id == cs[cs.len() - 1].id);
                }
            }
        } else {
            assert(has_id(cs, id) == has_id(pre, id)) by {
                if has_id(cs, id) {
                    let j = choose|j: int| 0 <= j < cs.len() && #[trigger] cs[j].id == id;
                    assert(j < cs.len() - 1);
                    assert(pre[j].id == id);
                }
                if has_id(pre, id) {
                    let j = choose|j: int| 0 <= j < pre.len() && #[trigger] pre[j].id == id;
                    assert(cs[j].id == id);
                }
            }
        }
    }
}

/// A client without the id stays when clients with the id are dropped.
proof fn lemma_drop_id_keeps(cs: Seq<ClientView>, id: u32, c: ClientView)
    requires
        cs.contains(c),
        c.id != id,
    ensures
        drop_id(cs, id).contains(c),
    decreases cs.len(),
{
    let rest = drop_id(cs.drop_last(), id);
    if c == cs.last() {
        assert(rest.push(c)[rest.len() as int] == c);
    } else {
        lemma_in_prefix(cs, c);
        lemma_drop_id_keeps(cs.drop_last(), id, c);
        let k = choose|k: int| 0 <= k < rest.len() && rest[k] == c;
        if cs.last().id != id {
            assert(rest.push(cs.last())[k] == c);
        }
    }
}

/// The goodbye reaches every client of `cs` on its channel, and closes it when asked to.
proof fn lemma_farewell_reaches(
    cs: Seq<ClientView>,
    id: u32,
    username: Seq<char>,
    close: bool,
    c: ClientView,
)
    requires
        cs.contains(c),
    ensures
        farewell(cs, id, username, close).contains(
            DeliveryView {
                to: Some((c.id, c.tx)),
                what: OutboundView::Signal(SignalView::PeerDisconnect { id, username }),
            },
        ),
        close ==> farewell(cs, id, username, close).contains(
            DeliveryView { to: Some((c.id, c.tx)), what: OutboundView::Close },
        ),
    decreases cs.len(),
{
    let bye = DeliveryView {
        to: Some((c.id, c.tx)),
        what: OutboundView::Signal(SignalView::PeerDisconnect { id, username }),
    };
    let shut = DeliveryView { to: Some((c.id, c.tx)), what: OutboundView::Close };
    let rest = farewell(cs.drop_last(), id, username, close);
    let f = farewell(cs, id, username, close);
    if c == cs.last() {
        assert(f[rest.len() as int] == bye);
        if close {
            assert(f[rest.len() as int + 1] == shut);
        }
    } else {
        lemma_in_prefix(cs, c);
        lemma_farewell_reaches(cs.drop_last(), id, username, close, c);
        let k = choose|k: int| 0 <= k < rest.len() && rest[k] == bye;
        assert(f[k] == bye);
        if close {
            let k2 = choose|k: int| 0 <= k < rest.len() && rest[k] == shut;
            assert(f[k2] == shut);
        }
    }
}

/// Every goodbye goes to a client of `cs`, on its channel; none closes a connection
/// unless asked to; there is one per client, or two when closing.
proof fn lemma_farewell_shape(cs: Seq<ClientView>, id: u32, username: Seq<char>, close: bool)
    ensures
        farewell(cs, id, username, close).len() == if close { 2 * cs.len() } else { cs.len() },
        forall|k: int|
            #![trigger farewell(cs, id, username, close)[k]]
            0 <= k < farewell(cs, id, username, close).len() ==> exists|j: int|
                0 <= j < cs.len() && farewell(cs, id, username, close)[k].to == Some(
                    (cs[j].id, cs[j].tx),
                ),
        !close ==> forall|k: int|
            0 <= k < farewell(cs, id, username, close).len() ==> !(#[trigger] farewell(
                cs,
                id,
                username,
                close,
            )[k].what is Close),
    decreases cs.len(),
{
    if cs.len() > 0 {
        let pre = cs.drop_last();
        lemma_farewell_shape(pre, id, username, close);
        let rest = farewell(pre, id, username, close);
        let f = farewell(cs, id, username, close);
        assert forall|k: int| #![trigger f[k]] 0 <= k < f.len() implies exists|j: int|
            0 <= j < cs.len() && f[k].to == Some((cs[j].id, cs[j].tx)) by {
            if k < rest.len() {
                assert(f[k] == rest[k]);
                let j = choose|j: int| 0 <= j < pre.len() && rest[k].to == Some((pre[j].id, pre[j].tx));
                assert(cs[j] == pre[j]);
            } else {
                assert(f[k].to == Some((cs[cs.len() - 1].id, cs[cs.len() - 1].tx)));
            }
        }
        if !close {
            assert forall|k: int| 0 <= k < f.len() implies !(#[trigger] f[k].what is Close) by {
                if k < rest.len() {
                    assert(f[k] == rest[k]);
                }
            }
        }
    }
}

/// A join request succeeds exactly when the password and the name are within their
/// limits, a room exists under the password, and it is neither sealed nor holding as many
/// clients as its capacity; a refused one changes nothing and sends the requester one
/// error.
pub proof fn law_join_accepts_until_full(
    t: Map<Seq<char>, RoomView>,
    password: Seq<char>,
    username: Seq<char>,
    tx: UnboundedSender<Message>,
)
    requires
        table_wf(t),
    ensures
        ({
            let o = join_outcome(t, password, username, tx);
            &&& o.joined is Some <==> {
                &&& password.len() <= 64
                &&& username.len() <= 32
                &&& t.dom().contains(password)
                &&& !t[password].is_sealed
                &&& t[password].clients.len() < t[password].max_player
            }
            &&& o.joined is None ==> o.table == t && o.out.len() == 1 && o.out[0].to is None
                && o.out[0].what matches OutboundView::Signal(SignalView::Error { .. })
        }),
{
}

/// Credentials are refused exactly when the password is longer than 64 characters or the
/// name longer than 32.
pub proof fn law_credentials(password: Seq<char>, username: Seq<char>)
    ensures
        credential_error(password, username) is None <==> password.len() <= 64 && username.len()
            <= 32,
{
}

/// Handing a message to the dispatcher does what the matching request does: a host or
/// join request changes the rooms and sends exactly what that request does, and gives
/// the client the new room only when it succeeds; leaving and sealing are those requests;
/// commands that only the server sends change nothing and send nothing.
pub proof fn law_dispatch_requests(
    t: Map<Seq<char>, RoomView>,
    joined: Option<(Seq<char>, u32)>,
    m: SignalView,
    max_rooms: usize,
    tx: UnboundedSender<Message>,
)
    ensures
        ({
            let o = message_outcome(t, joined, m, max_rooms, tx);
            &&& m matches SignalView::Host { password, username, max_player } ==> {
                let h = host_outcome(t, password, username, max_player, max_rooms, tx);
                &&& o.table == h.table
                &&& o.out == h.out
                &&& o.joined == if h.joined is Some { h.joined } else { joined }
            }
            &&& m matches SignalView::Join { password, username } ==> {
                let j = join_outcome(t, password, username, tx);
                &&& o.table == j.table
                &&& o.out == j.out
                &&& o.joined == if j.joined is Some { j.joined } else { joined }
            }
            &&& m is Leave ==> o == leave_outcome(t, joined)
            &&& m is Seal ==> o == seal_outcome(t, joined)
            &&& (m is Id || m is HostInfo || m is PeerConnect || m is PeerDisconnect || m is Error)
                ==> o.table == t && o.joined == joined && o.out.len() == 0
        }),
{
}

/// A join that succeeds gives the new peer the smallest id from 2 up that no client of
/// the room holds, adds it at the end of the room on the requester's channel, and leaves
/// everything else as it was. Every client already there is sent, on its own channel, a
/// `PeerConnect` for the new peer; the new peer is sent its id, the host's name and a
/// `PeerConnect` for every client other than the host; nothing else is sent.
pub proof fn law_join_result(
    t: Map<Seq<char>, RoomView>,
    password: Seq<char>,
    username: Seq<char>,
    tx: UnboundedSender<Message>,
)
    requires
        table_wf(t),
        join_outcome(t, password, username, tx).joined is Some,
    ensures
        ({
            let r = t[password];
            let o = join_outcome(t, password, username, tx);
            match o.joined {
                Some((q, id)) => {
                    &&& q == password
                    &&& id >= 2
                    &&& !has_id(r.clients, id)
                    &&& forall|j: u32| 2 <= j < id ==> has_id(r.clients, j)
                    &&& o.table == t.insert(
                        password,
                        RoomView {
                            max_player: r.max_player,
                            host_id: r.host_id,
                            clients: r.clients.push(ClientView { id, username, tx }),
                            is_sealed: r.is_sealed,
                        },
                    )
                    &&& o.out.len() == 2 * r.clients.len() + 1
                    &&& forall|c: ClientView| #[trigger] r.clients.contains(c) ==> o.out.contains(
                        DeliveryView {
                            to: Some((c.id, c.tx)),
                            what: OutboundView::Signal(SignalView::PeerConnect { id, username }),
                        },
                    )
                    &&& o.out.contains(
                        DeliveryView { to: None, what: OutboundView::Signal(SignalView::Id { id }) },
                    )
                    &&& o.out.contains(
                        DeliveryView {
                            to: None,
                            what: OutboundView::Signal(
                                SignalView::HostInfo { username: r.clients[0].username },
                            ),
                        },
                    )
                    &&& forall|c: ClientView| #[trigger] r.clients.contains(c) && c.id != r.host_id
                        ==> o.out.contains(
                        DeliveryView {
                            to: None,
                            what: OutboundView::Signal(
                                SignalView::PeerConnect { id: c.id, username: c.username },
                            ),
                        },
                    )
                },
                None => false,
            }
        }),
{
    let r = t[password];
    assert(r.well_formed());
    lemma_free_id_within(r.clients);
    let id = next_free_id(r.clients);
    let nc = ClientView { id, username, tx };
    let nr = with_client(r, nc);
    let host = r.host_id;
    assert(nr.clients.drop_last() =~= r.clients);
    assert(nr.clients.last() == nc);
    let a = announce(r.clients, id, username);
    let i = introduce(r.clients, id, host);
    assert(announce(nr.clients, id, username) == a);
    assert(introduce(nr.clients, id, host) == i);
    lemma_announce_len(r.clients, id, username);
    lemma_introduce_len(r.clients, id, host);
    let hi = DeliveryView {
        to: None,
        what: OutboundView::Signal(SignalView::HostInfo { username: r.clients[0].username }),
    };
    assert(has_id(nr.clients, host)) by {
        assert(nr.clients[0].id == host);
    }
    assert(first_with_id(nr.clients, host, 0));
    let k0 = choose|k: int| first_with_id(nr.clients, host, k);
    if k0 > 0 {
        assert(nr.clients[0].id == host);
    }
    assert(k0 == 0);
    let idm = DeliveryView { to: None, what: OutboundView::Signal(SignalView::Id { id }) };
    let o = join_outcome(t, password, username, tx);
    assert(o.out == a + seq![idm] + seq![hi] + i);
    assert(o.out[a.len() as int] == idm);
    assert(o.out[a.len() as int + 1] == hi);
    assert forall|c: ClientView| #[trigger] r.clients.contains(c) implies o.out.contains(
        DeliveryView {
            to: Some((c.id, c.tx)),
            what: OutboundView::Signal(SignalView::PeerConnect { id, username }),
        },
    ) by {
        let j = choose|j: int| 0 <= j < r.clients.len() && r.clients[j] == c;
        assert(has_id(r.clients, c.id));
        lemma_announce_reaches(r.clients, id, username, c);
        let d = DeliveryView {
            to: Some((c.id, c.tx)),
            what: OutboundView::Signal(SignalView::PeerConnect { id, username }),
        };
        let k = choose|k: int| 0 <= k < a.len() && a[k] == d;
        assert(o.out[k] == d);
    }
    assert forall|c: ClientView| #[trigger] r.clients.contains(c) && c.id != r.host_id implies o.out.contains(
        DeliveryView {
            to: None,
            what: OutboundView::Signal(SignalView::PeerConnect { id: c.id, username: c.username }),
        },
    ) by {
        let j = choose|j: int| 0 <= j < r.clients.len() && r.clients[j] == c;
        assert(has_id(r.clients, c.id));
        lemma_introduce_names(r.clients, id, host, c);
        let d = DeliveryView {
            to: None,
            what: OutboundView::Signal(SignalView::PeerConnect { id: c.id, username: c.username }),
        };
        let k = choose|k: int| 0 <= k < i.len() && i[k] == d;
        assert(o.out[a.len() as int + 2 + k] == d);
    }
}

/// Leaving: the requester is in no room afterwards. Every other client of the room is
/// sent, on its own channel, a `PeerDisconnect` with the leaver's id and name (the empty
/// name when no client has that id), and nothing goes anywhere else. When the host
/// leaves, the room is gone and every other client's connection is also closed. When a
/// guest leaves, no connection is closed and the room stays with exactly its other
/// clients, the same host, capacity and seal; the other rooms are untouched.
pub proof fn law_leave_result(t: Map<Seq<char>, RoomView>, password: Seq<char>, my_id: u32)
    requires
        table_wf(t),
        t.dom().contains(password),
    ensures
        ({
            let r = t[password];
            let o = leave_outcome(t, Some((password, my_id)));
            &&& o.joined is None
            &&& forall|k: int| 0 <= k < r.clients.len() && r.clients[k].id == my_id ==> forall|c: ClientView|
                #[trigger] r.clients.contains(c) && c.id != my_id ==> o.out.contains(
                    DeliveryView {
                        to: Some((c.id, c.tx)),
                        what: OutboundView::Signal(
                            SignalView::PeerDisconnect { id: my_id, username: r.clients[k].username },
                        ),
                    },
                )
            &&& !has_id(r.clients, my_id) ==> forall|c: ClientView| #[trigger] r.clients.contains(c)
                ==> o.out.contains(
                DeliveryView {
                    to: Some((c.id, c.tx)),
                    what: OutboundView::Signal(
                        SignalView::PeerDisconnect { id: my_id, username: Seq::<char>::empty() },
                    ),
                },
            )
            &&& forall|k: int| 0 <= k < o.out.len() ==> exists|j: int|
                0 <= j < r.clients.len() && r.clients[j].id != my_id && #[trigger] o.out[k].to
                    == Some((r.clients[j].id, r.clients[j].tx))
            &&& o.out.len() == (if my_id == r.host_id { 2int } else { 1int }) * (r.clients.len() - (
                if has_id(r.clients, my_id) { 1int } else { 0int }))
            &&& my_id == r.host_id ==> {
                &&& o.table == t.remove(password)
                &&& forall|c: ClientView| #[trigger] r.clients.contains(c) && c.id != my_id
                    ==> o.out.contains(
                    DeliveryView { to: Some((c.id, c.tx)), what: OutboundView::Close },
                )
            }
            &&& my_id != r.host_id ==> {
                &&& forall|k: int| 0 <= k < o.out.len() ==> !(#[trigger] o.out[k].what is Close)
                &&& o.table.dom().contains(password)
                &&& o.table.remove(password) == t.remove(password)
                &&& o.table[password].host_id == r.host_id
                &&& o.table[password].max_player == r.max_player
                &&& o.table[password].is_sealed == r.is_sealed
                &&& forall|c: ClientView| #[trigger] o.table[password].clients.contains(c) <==> (
                    r.clients.contains(c) && c.id != my_id)
            }
        }),
{
    let r = t[password];
    assert(r.well_formed());
    let rest = drop_id(r.clients, my_id);
    let name = name_of(r.clients, my_id);
    let close = r.host_id == my_id;
    let o = leave_outcome(t, Some((password, my_id)));
    lemma_drop_id(r.clients, my_id);
    lemma_drop_id_len(r.clients, my_id);
    lemma_farewell_shape(rest, my_id, name, close);
    assert(o.out == farewell(rest, my_id, name, close));
    assert forall|k: int| 0 <= k < r.clients.len() && r.clients[k].id == my_id implies name
        == r.clients[k].username by {
        assert(has_id(r.clients, my_id));
        let f = choose|i: int| first_with_id(r.clients, my_id, i);
        lemma_first_exists(r.clients, my_id);
        if f != k {
            assert(r.clients[f].id == r.clients[k].id);
        }
    }
    assert forall|c: ClientView| #[trigger] r.clients.contains(c) && c.id != my_id implies {
        &&& o.out.contains(
            DeliveryView {
                to: Some((c.id, c.tx)),
                what: OutboundView::Signal(SignalView::PeerDisconnect { id: my_id, username: name }),
            },
        )
        &&& close ==> o.out.contains(DeliveryView { to: Some((c.id, c.tx)), what: OutboundView::Close })
    } by {
        lemma_drop_id_keeps(r.clients, my_id, c);
        lemma_farewell_reaches(rest, my_id, name, close, c);
    }
    assert(!has_id(r.clients, my_id) ==> name == Seq::<char>::empty());
    assert forall|c: ClientView| #[trigger] r.clients.contains(c) && !has_id(r.clients, my_id)
        implies c.id != my_id by {
        let j = choose|j: int| 0 <= j < r.clients.len() && r.clients[j] == c;
        if c.id == my_id {
            assert(r.clients[j].id == my_id);
        }
    }
    assert forall|k: int| 0 <= k < o.out.len() implies exists|j: int|
        0 <= j < r.clients.len() && r.clients[j].id != my_id && #[trigger] o.out[k].to == Some(
            (r.clients[j].id, r.clients[j].tx),
        ) by {
        let j = choose|j: int| 0 <= j < rest.len() && o.out[k].to == Some((rest[j].id, rest[j].tx));
        assert(rest[j].id != my_id && r.clients.contains(rest[j]));
        let j2 = choose|j2: int| 0 <= j2 < r.clients.len() && r.clients[j2] == rest[j];
        assert(r.clients[j2].id != my_id);
    }
    if !close {
        assert(rest.len() >= 1);
        assert(o.table.remove(password) =~= t.remove(password));
        assert forall|c: ClientView| #[trigger] o.table[password].clients.contains(c) <==> (
            r.clients.contains(c) && c.id != my_id) by {
            if r.clients.contains(c) && c.id != my_id {
                lemma_drop_id_keeps(r.clients, my_id, c);
            }
            if rest.contains(c) {
                let j = choose|j: int| 0 <= j < rest.len() && rest[j] == c;
                assert(rest[j].id != my_id && r.clients.contains(rest[j]));
            }
        }
    }
}

/// The message a relay hands on, once: when the sender's room exists and some client
/// in it has the target id, exactly `what`, on the channel of the first such client;
/// otherwise nothing.
pub open spec fn relayed_once(
    out: Seq<DeliveryView>,
    t: Map<Seq<char>, RoomView>,
    password: Seq<char>,
    target_id: u32,
    what: SignalView,
) -> bool {
    if t.dom().contains(password) && has_id(t[password].clients, target_id) {
        let cs = t[password].clients;
        &&& out.len() == 1
        &&& out[0].what == OutboundView::Signal(what)
        &&& exists|i: int| first_with_id(cs, target_id, i) && out[0].to == Some((cs[i].id, cs[i].tx))
    } else {
        out.len() == 0
    }
}

/// An offer, an answer or an ICE candidate from a client in a room goes, unchanged but
/// for `target_id`, which now names the sender, and with the same command, to the first
/// client of that room with the target id, whoever the sender and the target are; it
/// changes no room and no client's room.
pub proof fn law_relay_dispatch(
    t: Map<Seq<char>, RoomView>,
    password: Seq<char>,
    my_id: u32,
    m: SignalView,
    max_rooms: usize,
    tx: UnboundedSender<Message>,
)
    ensures
        ({
            let o = message_outcome(t, Some((password, my_id)), m, max_rooms, tx);
            &&& m matches SignalView::Offer { target_id, sdp } ==> {
                &&& o.table == t
                &&& o.joined == Some((password, my_id))
                &&& relayed_once(o.out, t, password, target_id, SignalView::Offer { target_id: my_id, sdp })
            }
            &&& m matches SignalView::Answer { target_id, sdp } ==> {
                &&& o.table == t
                &&& o.joined == Some((password, my_id))
                &&& relayed_once(o.out, t, password, target_id, SignalView::Answer { target_id: my_id, sdp })
            }
            &&& m matches SignalView::IceCandidate { target_id, media, index, name } ==> {
                &&& o.table == t
                &&& o.joined == Some((password, my_id))
                &&& relayed_once(
                    o.out,
                    t,
                    password,
                    target_id,
                    SignalView::IceCandidate { target_id: my_id, media, index, name },
                )
            }
        }),
{
    match m {
        SignalView::Offer { target_id, .. } | SignalView::Answer { target_id, .. }
        | SignalView::IceCandidate { target_id, .. } => {
            if t.dom().contains(password) && has_id(t[password].clients, target_id) {
                lemma_first_exists(t[password].clients, target_id);
            }
        },
        _ => {},
    }
}

/// A client in no room relays nothing.
pub proof fn law_relay_needs_room(t: Map<Seq<char>, RoomView>, target_id: u32, m: SignalView)
    ensures
        relay_outcome(t, None, target_id, m).len() == 0,
{
}

} // verus!
