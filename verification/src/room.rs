//! Rooms, their clients, and the table of rooms keyed by password.
use vstd::prelude::*;

use axum::extract::ws::Message;
use dashmap::DashMap;
use tokio::sync::mpsc::UnboundedSender;

use crate::table::{room_table, table_contains, table_insert, table_len, table_new};
use vstd::set_lib::{lemma_int_range, lemma_len_subset, set_int_range};

verus! {

/// Why a peer could not join a room.
#[derive(Debug, PartialEq, Eq, Structural)]
pub enum JoinError {
    RoomNotFound,
    RoomFull,
    RoomSealed,
}

/// Why a room could not be created.
#[derive(Debug, PartialEq, Eq, Structural)]
pub enum CreateRoomError {
    PasswordAlreadyUsed,
    RoomLimitReached,
}

/// By the rules of `WebRTCMultiplayerPeer`, the host's peer id is always 1.
pub const HOST_PEER_ID: u32 = 1;

/// Default bound on the number of rooms that may exist at once.
pub const DEFAULT_MAX_ROOMS: usize = 10;

/// Longest accepted user name, in characters.
pub const MAX_USERNAME_LEN: usize = 32;

/// Longest accepted password, in characters.
pub const MAX_PASSWORD_LEN: usize = 64;

/// A peer in a room: its id, its name and the channel its messages go out on.
pub struct Client {
    pub id: u32,
    pub username: String,
    pub tx: UnboundedSender<Message>,
}

/// What the library's contracts see of a client: its id, its name and its channel.
pub struct ClientView {
    pub id: u32,
    pub username: Seq<char>,
    pub tx: UnboundedSender<Message>,
}

impl View for Client {
    type V = ClientView;

    open spec fn view(&self) -> ClientView {
        ClientView { id: self.id, username: self.username@, tx: self.tx }
    }
}

/// A room: its capacity, its host, its clients in the order they came, and whether it
/// still takes new peers.
pub struct Room {
    pub max_player: u8,
    pub host_id: u32,
    pub clients: Vec<Client>,
    pub is_sealed: bool,
}

/// What the library's contracts see of a room.
pub struct RoomView {
    pub max_player: u8,
    pub host_id: u32,
    pub clients: Seq<ClientView>,
    pub is_sealed: bool,
}

pub open spec fn client_views(cs: Seq<Client>) -> Seq<ClientView> {
    cs.map_values(|c: Client| c@)
}

impl View for Room {
    type V = RoomView;

    open spec fn view(&self) -> RoomView {
        RoomView {
            max_player: self.max_player,
            host_id: self.host_id,
            clients: client_views(self.clients@),
            is_sealed: self.is_sealed,
        }
    }
}

/// Some client in `cs` has the id.
pub open spec fn has_id(cs: Seq<ClientView>, id: u32) -> bool {
    exists|i: int| 0 <= i < cs.len() && #[trigger] cs[i].id == id
}

/// `i` is the first position in `cs` of a client with the id.
pub open spec fn first_with_id(cs: Seq<ClientView>, id: u32, i: int) -> bool {
    &&& 0 <= i < cs.len()
    &&& cs[i].id == id
    &&& forall|j: int| 0 <= j < i ==> #[trigger] cs[j].id != id
}

/// No two clients of `cs` share an id.
pub open spec fn ids_distinct(cs: Seq<ClientView>) -> bool {
    forall|i: int, j: int| 0 <= i < j < cs.len() ==> #[trigger] cs[i].id != #[trigger] cs[j].id
}

/// `id` is the smallest peer id above the host's that no client of `cs` holds.
pub open spec fn is_next_free_id(cs: Seq<ClientView>, id: u32) -> bool {
    &&& id >= 2
    &&& !has_id(cs, id)
    &&& forall|j: u32| 2 <= j < id ==> has_id(cs, j)
}

/// The smallest peer id above the host's that no client of `cs` holds.
pub open spec fn next_free_id(cs: Seq<ClientView>) -> u32 {
    choose|id: u32| is_next_free_id(cs, id)
}

/// How many clients a room may hold: `max_player`, but never fewer than its host.
pub open spec fn capacity(max_player: u8) -> nat {
    if max_player == 0 {
        1
    } else {
        max_player as nat
    }
}

/// The clients of `cs` other than those with the id, in their order.
pub open spec fn without_id(cs: Seq<Client>, id: u32) -> Seq<Client> {
    cs.filter(|c: Client| c.id != id)
}

/// The clients of `cs` other than those with the id, in their order.
pub open spec fn drop_id(cs: Seq<ClientView>, id: u32) -> Seq<ClientView>
    decreases cs.len(),
{
    if cs.len() == 0 {
        cs
    } else {
        let rest = drop_id(cs.drop_last(), id);
        if cs.last().id != id {
            rest.push(cs.last())
        } else {
            rest
        }
    }
}

/// Removing clients by id, seen through the views.
pub proof fn lemma_without_id_view(cs: Seq<Client>, id: u32)
    ensures
        client_views(without_id(cs, id)) == drop_id(client_views(cs), id),
    decreases cs.len(),
{
    reveal_with_fuel(Seq::<_>::filter, 1);
    if cs.len() > 0 {
        lemma_without_id_view(cs.drop_last(), id);
        assert(client_views(cs).drop_last() =~= client_views(cs.drop_last()));
        let sub = without_id(cs.drop_last(), id);
        assert(cs.drop_last().filter(|c: Client| c.id != id) == sub);
        if cs.last().id != id {
            assert(client_views(sub.push(cs.last())) =~= client_views(sub).push(cs.last()@));
        }
    } else {
        assert(client_views(without_id(cs, id)) =~= drop_id(client_views(cs), id));
    }
}

/// What removing clients by id keeps: every kept client was there before, none has the
/// id, distinct ids stay distinct, and a first client without the id stays first.
pub proof fn lemma_drop_id(cs: Seq<ClientView>, id: u32)
    ensures
        drop_id(cs, id).len() <= cs.len(),
        forall|i: int|
            #![trigger drop_id(cs, id)[i]]
            0 <= i < drop_id(cs, id).len() ==> drop_id(cs, id)[i].id != id && cs.contains(
                drop_id(cs, id)[i],
            ),
        ids_distinct(cs) ==> ids_distinct(drop_id(cs, id)),
        cs.len() >= 1 && cs[0].id != id ==> drop_id(cs, id).len() >= 1 && drop_id(cs, id)[0]
            == cs[0],
        !has_id(cs, id) ==> drop_id(cs, id) == cs,
    decreases cs.len(),
{
    if cs.len() > 0 {
        let pre = cs.drop_last();
        lemma_drop_id(pre, id);
        let rest = drop_id(pre, id);
        assert forall|i: int| 0 <= i < rest.len() implies cs.contains(#[trigger] rest[i]) by {
            assert(pre.contains(rest[i]));
            let j = choose|j: int| 0 <= j < pre.len() && pre[j] == rest[i];
            assert(cs[j] == rest[i]);
        }
        if ids_distinct(cs) {
            assert(ids_distinct(pre)) by {
                assert forall|a: int, b: int| 0 <= a < b < pre.len() implies #[trigger] pre[a].id
                    != #[trigger] pre[b].id by {
                    assert(cs[a] == pre[a] && cs[b] == pre[b]);
                }
            }
            if cs.last().id != id {
                let out = rest.push(cs.last());
                assert forall|a: int, b: int| 0 <= a < b < out.len() implies #[trigger] out[a].id
                    != #[trigger] out[b].id by {
                    if b == out.len() - 1 {
                        assert(pre.contains(rest[a]));
                        let j = choose|j: int| 0 <= j < pre.len() && pre[j] == rest[a];
                        assert(cs[j] == rest[a]);
                    }
                }
            }
        }
        if cs.len() >= 1 && cs[0].id != id && cs.len() > 1 {
            assert(pre[0] == cs[0]);
        }
        if !has_id(cs, id) {
            assert(!has_id(pre, id)) by {
                if has_id(pre, id) {
                    let j = choose|j: int| 0 <= j < pre.len() && #[trigger] pre[j].id == id;
                    assert(cs[j].id == id);
                }
            }
            assert(cs.last().id != id) by {
                assert(cs[cs.len() - 1].id != id);
            }
            assert(pre.push(cs.last()) =~= cs);
        }
    }
}

impl RoomView {
    /// The invariant of every room in the table: its host comes first, no two clients
    /// share an id, and it holds no more clients than its capacity.
    pub open spec fn well_formed(self) -> bool {
        &&& self.clients.len() >= 1
        &&& self.clients[0].id == self.host_id
        &&& ids_distinct(self.clients)
        &&& self.clients.len() <= capacity(self.max_player)
    }
}

/// Whether some client of `clients` has the id.
fn contains_id(clients: &Vec<Client>, id: u32) -> (b: bool)
    ensures
        b == has_id(client_views(clients@), id),
{
    let mut i: usize = 0;
    while i < clients.len()
        invariant
            0 <= i <= clients.len(),
            forall|j: int| 0 <= j < i ==> #[trigger] clients@[j].id != id,
        decreases clients.len() - i,
    {
        if clients[i].id == id {
            assert(client_views(clients@)[i as int].id == id);
            return true;
        }
        i += 1;
    }
    assert forall|j: int| 0 <= j < clients@.len() implies #[trigger] client_views(clients@)[j].id != id by {
        assert(clients@[j].id != id);
    }
    false
}

/// The position of the first client of `clients` with the id.
pub(crate) fn position_of(clients: &Vec<Client>, id: u32) -> (res: Option<usize>)
    ensures
        res is None <==> !has_id(client_views(clients@), id),
        res matches Some(i) ==> first_with_id(client_views(clients@), id, i as int),
{
    let mut i: usize = 0;
    while i < clients.len()
        invariant
            0 <= i <= clients.len(),
            forall|j: int| 0 <= j < i ==> #[trigger] clients@[j].id != id,
        decreases clients.len() - i,
    {
        if clients[i].id == id {
            assert forall|j: int| 0 <= j < i implies #[trigger] client_views(clients@)[j].id != id by {
                assert(clients@[j].id != id);
            }
            assert(client_views(clients@)[i as int].id == id);
            return Some(i);
        }
        i += 1;
    }
    assert forall|j: int| 0 <= j < clients@.len() implies #[trigger] client_views(clients@)[j].id != id by {
        assert(clients@[j].id != id);
    }
    None
}

impl Room {
    /// Whether the id is the host's.
    pub fn is_host(&self, client_id: u32) -> (b: bool)
        ensures
            b == (self.host_id == client_id),
    {
        self.host_id == client_id
    }

    /// The name of the host: that of the first client with the host's id, if there is one.
    pub fn host_username(&self) -> (res: Option<&str>)
        ensures
            res is None <==> !has_id(self@.clients, self.host_id),
            res matches Some(name) ==> exists|i: int|
                first_with_id(self@.clients, self.host_id, i) && name@ == self@.clients[i].username,
    {
        match position_of(&self.clients, self.host_id) {
            Some(i) => {
                assert(first_with_id(self@.clients, self.host_id, i as int));
                assert(self@.clients[i as int].username == self.clients@[i as int].username@);
                Some(self.clients[i].username.as_str())
            },
            None => None,
        }
    }

    /// Adds a client at the end. A sealed room refuses it first, then a full one.
    pub fn add_client(&mut self, client: Client) -> (res: Result<(), JoinError>)
        ensures
            old(self).is_sealed ==> res == Err::<(), JoinError>(JoinError::RoomSealed),
            !old(self).is_sealed && old(self).clients.len() >= old(self).max_player
                ==> res == Err::<(), JoinError>(JoinError::RoomFull),
            res is Ok <==> !old(self).is_sealed && old(self).clients.len() < old(self).max_player,
            res is Ok ==> final(self).clients@ == old(self).clients@.push(client),
            res is Err ==> final(self).clients@ == old(self).clients@,
            final(self).max_player == old(self).max_player,
            final(self).host_id == old(self).host_id,
            final(self).is_sealed == old(self).is_sealed,
    {
        if self.is_sealed {
            return Err(JoinError::RoomSealed);
        }
        if self.clients.len() >= self.max_player as usize {
            return Err(JoinError::RoomFull);
        }
        self.clients.push(client);
        Ok(())
    }

    /// Removes every client with the id, keeping the others in order. Returns whether
    /// the id was the host's.
    pub fn remove_client(&mut self, client_id: u32) -> (was_host: bool)
        ensures
            was_host == (old(self).host_id == client_id),
            final(self).clients@ == without_id(old(self).clients@, client_id),
            final(self).max_player == old(self).max_player,
            final(self).host_id == old(self).host_id,
            final(self).is_sealed == old(self).is_sealed,
    {
        let was_host = self.is_host(client_id);
        let ghost before = self.clients@;
        let ghost old_max = self.max_player;
        let ghost old_host = self.host_id;
        let ghost old_sealed = self.is_sealed;
        let ghost pred = |c: Client| c.id != client_id;
        let mut i: usize = 0;
        let ghost mut j: int = 0;
        assert(before.take(0) =~= Seq::<Client>::empty());
        proof {
            reveal_with_fuel(Seq::<_>::filter, 1);
        }
        assert(before.skip(0) =~= before);
        while i < self.clients.len()
            invariant
                0 <= i <= self.clients.len(),
                0 <= j <= before.len(),
                self.clients@.take(i as int) == before.take(j).filter(pred),
                self.clients@.skip(i as int) == before.skip(j),
                pred == (|c: Client| c.id != client_id),
                self.clients@.len() - i == before.len() - j,
                self.max_player == old_max,
                self.host_id == old_host,
                self.is_sealed == old_sealed,
            decreases self.clients.len() - i,
        {
            let ghost cur = self.clients@;
            assert(before.skip(j)[0] == cur.skip(i as int)[0]);
            assert forall|k: int| 0 <= k < cur.len() - i - 1 implies #[trigger] cur.skip(i + 1)[k]
                == before.skip(j + 1)[k] by {
                assert(cur.skip(i as int)[k + 1] == before.skip(j)[k + 1]);
            }
            assert(cur.skip(i + 1) =~= before.skip(j + 1));
            assert(before[j] == cur[i as int]);
            assert(before.take(j + 1).drop_last() =~= before.take(j));
            assert(before.take(j + 1).last() == before[j]);
            proof {
                reveal_with_fuel(Seq::<_>::filter, 1);
            }
            if self.clients[i].id == client_id {
                self.clients.remove(i);
                assert(self.clients@.take(i as int) =~= cur.take(i as int));
                assert(self.clients@.skip(i as int) =~= before.skip(j + 1));
            } else {
                i += 1;
                assert(self.clients@.take(i as int) =~= cur.take(i - 1).push(cur[i - 1]));
                assert(self.clients@.skip(i as int) =~= before.skip(j + 1));
            }
            proof {
                j = j + 1;
            }
        }
        assert(self.clients@.take(i as int) =~= self.clients@);
        assert(before.skip(j).len() == 0);
        assert(before.take(j) =~= before);
        was_host
    }

    /// The smallest peer id above the host's that no client holds. The search counts up
    /// from 2, so some id that fits in `u32` must be free.
    pub fn next_peer_id(&self) -> (id: u32)
        requires
            exists|w: u32| w >= 2 && !has_id(self@.clients, w),
        ensures
            is_next_free_id(self@.clients, id),
    {
        let ghost w = choose|w: u32| w >= 2 && !has_id(self@.clients, w);
        let mut id = HOST_PEER_ID + 1;
        while contains_id(&self.clients, id)
            invariant
                2 <= id <= w,
                w >= 2,
                !has_id(self@.clients, w),
                forall|j: u32| 2 <= j < id ==> has_id(self@.clients, j),
            decreases w - id,
        {
            id += 1;
        }
        id
    }
}

/// Below `w`, counting up from `lo`, there is a smallest id that no client holds.
proof fn lemma_smallest_free_id(cs: Seq<ClientView>, lo: u32, w: u32)
    requires
        2 <= lo <= w,
        !has_id(cs, w),
        forall|j: u32| 2 <= j < lo ==> has_id(cs, j),
    ensures
        is_next_free_id(cs, next_free_id(cs)),
        next_free_id(cs) <= w,
    decreases w - lo,
{
    if !has_id(cs, lo) {
        assert(is_next_free_id(cs, lo));
        assert forall|a: u32, b: u32| is_next_free_id(cs, a) && is_next_free_id(cs, b) implies a == b by {
            if a < b {
                assert(has_id(cs, a));
            } else if b < a {
                assert(has_id(cs, b));
            }
        }
    } else {
        assert forall|j: u32| 2 <= j < lo + 1 implies has_id(cs, j) by {
            if j < lo {
            }
        }
        lemma_smallest_free_id(cs, (lo + 1) as u32, w);
    }
}

/// A room with `n` clients leaves one of the ids `2 ..= n + 2` free, and the smallest
/// free id is the one a joining peer gets.
pub proof fn lemma_free_id_within(cs: Seq<ClientView>)
    requires
        cs.len() + 2 <= u32::MAX,
    ensures
        is_next_free_id(cs, next_free_id(cs)),
        next_free_id(cs) <= cs.len() + 2,
        forall|a: u32| #[trigger] is_next_free_id(cs, a) ==> a == next_free_id(cs),
{
    let n = cs.len();
    let ids = cs.map_values(|c: ClientView| c.id as int);
    if forall|w: u32| 2 <= w <= n + 2 ==> has_id(cs, w) {
        let range = set_int_range(2, n as int + 3);
        lemma_int_range(2, n as int + 3);
        ids.lemma_cardinality_of_set();
        assert forall|x: int| range.contains(x) implies ids.to_set().contains(x) by {
            assert(has_id(cs, x as u32));
            let i = choose|i: int| 0 <= i < cs.len() && #[trigger] cs[i].id == x as u32;
            assert(ids[i] == x);
        }
        vstd::seq_lib::seq_to_set_is_finite(ids);
        lemma_len_subset(range, ids.to_set());
        assert(false);
    }
    let w = choose|w: u32| 2 <= w <= n + 2 && !has_id(cs, w);
    lemma_smallest_free_id(cs, 2, w);
    let f = next_free_id(cs);
    assert forall|a: u32| #[trigger] is_next_free_id(cs, a) implies a == f by {
        if a < f {
            assert(has_id(cs, a));
        } else if f < a {
            assert(has_id(cs, f));
        }
    }
}

/// The invariant of the table of rooms: it is finite and every room in it is well formed.
pub open spec fn table_wf(t: Map<Seq<char>, RoomView>) -> bool {
    &&& t.dom().finite()
    &&& forall|k: Seq<char>| t.dom().contains(k) ==> #[trigger] t[k].well_formed()
}

/// The rooms that exist, each under its password.
pub struct Rooms {
    table: DashMap<String, Room>,
}

impl View for Rooms {
    type V = Map<Seq<char>, RoomView>;

    closed spec fn view(&self) -> Map<Seq<char>, RoomView> {
        room_table(self.table)
    }
}

impl Rooms {
    /// The table is finite and every room in it is well formed.
    pub open spec fn wf(&self) -> bool {
        table_wf(self@)
    }

    /// An empty table.
    pub(crate) fn new() -> (rooms: Self)
        ensures
            rooms@ == Map::<Seq<char>, RoomView>::empty(),
            rooms.wf(),
    {
        Rooms { table: table_new() }
    }

    /// The number of rooms.
    pub fn len(&self) -> (n: usize)
        ensures
            n == self@.len(),
    {
        table_len(&self.table)
    }

    /// Whether a room exists under the password.
    pub fn contains(&self, password: &String) -> (b: bool)
        ensures
            b == self@.dom().contains(password@),
    {
        table_contains(&self.table, password)
    }

    /// Takes the room out of the table.
    pub(crate) fn take(&mut self, password: &String) -> (res: Option<Room>)
        ensures
            final(self)@ == old(self)@.remove(password@),
            res is Some <==> old(self)@.dom().contains(password@),
            res matches Some(r) ==> r@ == old(self)@[password@],
    {
        crate::table::table_remove(&mut self.table, password)
    }

    /// Puts a room into the table under the password.
    pub(crate) fn put(&mut self, password: String, room: Room)
        ensures
            final(self)@ == old(self)@.insert(password@, room@),
    {
        table_insert(&mut self.table, password, room)
    }

    /// Each room's password and number of clients, in no stated order.
    pub(crate) fn sizes(&self) -> (res: Vec<(String, usize)>)
        ensures
            res@.len() == self@.len(),
            forall|i: int|
                0 <= i < res@.len() ==> self@.dom().contains(#[trigger] res@[i].0@)
                    && res@[i].1 == self@[res@[i].0@].clients.len(),
            forall|i: int, j: int|
                0 <= i < j < res@.len() ==> #[trigger] res@[i].0@ != #[trigger] res@[j].0@,
    {
        crate::table::table_sizes(&self.table)
    }
}

/// The room that `create_room` makes for a host.
pub open spec fn fresh_room(host: ClientView, max_player: u8) -> RoomView {
    RoomView { max_player, host_id: host.id, clients: seq![host], is_sealed: false }
}

/// Creates a room under the password with the host as its only client. Fails when
/// `max_rooms` rooms already exist, then when the password is taken.
pub fn create_room(
    rooms: &mut Rooms,
    password: String,
    host: Client,
    max_player: u8,
    max_rooms: usize,
) -> (res: Result<(), CreateRoomError>)
    requires
        old(rooms).wf(),
    ensures
        final(rooms).wf(),
        old(rooms)@.len() >= max_rooms ==> res == Err::<(), CreateRoomError>(
            CreateRoomError::RoomLimitReached,
        ),
        old(rooms)@.len() < max_rooms && old(rooms)@.dom().contains(password@) ==> res == Err::<
            (),
            CreateRoomError,
        >(CreateRoomError::PasswordAlreadyUsed),
        res is Ok <==> old(rooms)@.len() < max_rooms && !old(rooms)@.dom().contains(password@),
        res is Ok ==> final(rooms)@ == old(rooms)@.insert(password@, fresh_room(host@, max_player)),
        res is Err ==> final(rooms)@ == old(rooms)@,
{
    if rooms.len() >= max_rooms {
        return Err(CreateRoomError::RoomLimitReached);
    }
    if rooms.contains(&password) {
        return Err(CreateRoomError::PasswordAlreadyUsed);
    }
    let host_id = host.id;
    let mut clients = Vec::new();
    clients.push(host);
    let room = Room { max_player, host_id, clients, is_sealed: false };
    assert(room@.clients =~= seq![host@]);
    rooms.put(password, room);
    proof {
        let k = password@;
        assert forall|key: Seq<char>| rooms@.dom().contains(key) implies #[trigger] rooms@[key].well_formed() by {
            if key != k {
                assert(old(rooms)@.dom().contains(key));
            }
        }
    }
    Ok(())
}

} // verus!
