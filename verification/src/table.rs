//! Outside types that the library carries, and the map that holds the rooms.
use vstd::prelude::*;

use axum::extract::ws::Message;
use dashmap::DashMap;
use std::collections::hash_map::RandomState;
use tokio::sync::mpsc::UnboundedSender;

use crate::room::{Room, RoomView};

verus! {

/// axum's WebSocket `Message`, carried as the item type of a client's channel.
#[verifier::external_type_specification]
#[verifier::external_body]
pub struct ExWsMessage(Message);

/// tokio's `UnboundedSender`, the sending end of a client's channel.
#[verifier::external_type_specification]
#[verifier::external_body]
#[verifier::reject_recursive_types(T)]
pub struct ExUnboundedSender<T>(UnboundedSender<T>);

/// dashmap's `DashMap`, the map that holds the rooms.
#[verifier::external_type_specification]
#[verifier::external_body]
#[verifier::reject_recursive_types(K)]
#[verifier::reject_recursive_types(V)]
#[verifier::reject_recursive_types(S)]
pub struct ExDashMap<K, V, S = RandomState>(DashMap<K, V, S>);

/// What a `DashMap` of rooms holds: each password (as characters) mapped to the view
/// of the room stored under it.
pub uninterp spec fn room_table(m: DashMap<String, Room>) -> Map<Seq<char>, RoomView>;

/// `DashMap::new`: the map it returns holds no entry.
#[verifier::external_body]
pub(crate) fn table_new() -> (m: DashMap<String, Room>)
    ensures
        room_table(m) =~= Map::empty(),
{
    DashMap::new()
}

/// `DashMap::len`: the number of entries in the map.
#[verifier::external_body]
pub(crate) fn table_len(m: &DashMap<String, Room>) -> (n: usize)
    ensures
        n == room_table(*m).len(),
{
    m.len()
}

/// `DashMap::contains_key`: whether an entry is stored under the key.
#[verifier::external_body]
pub(crate) fn table_contains(m: &DashMap<String, Room>, key: &String) -> (b: bool)
    ensures
        b == room_table(*m).dom().contains(key@),
{
    m.contains_key(key)
}

/// `DashMap::insert`: afterwards the key maps to the new room and every other entry is
/// unchanged; the room it replaces, if any, is dropped.
#[verifier::external_body]
pub(crate) fn table_insert(m: &mut DashMap<String, Room>, key: String, room: Room)
    ensures
        room_table(*final(m)) == room_table(*old(m)).insert(key@, room@),
{
    m.insert(key, room);
}

/// `DashMap::remove`: takes the entry stored under the key out of the map and hands back
/// its room, or `None` when there is no such entry (then the map is unchanged).
#[verifier::external_body]
pub(crate) fn table_remove(m: &mut DashMap<String, Room>, key: &String) -> (res: Option<Room>)
    ensures
        room_table(*final(m)) == room_table(*old(m)).remove(key@),
        res is Some <==> room_table(*old(m)).dom().contains(key@),
        res matches Some(r) ==> r@ == room_table(*old(m))[key@],
{
    m.remove(key).map(|(_, room)| room)
}

/// `DashMap::iter`, each entry handed out as its key and the number of clients of its
/// room: every entry once. The order of the pairs is not stated: it depends on how the
/// map is walked. The map is a private field of `Rooms`, changed only through `&mut`,
/// so nothing changes it while it is walked.
#[verifier::external_body]
pub(crate) fn table_sizes(m: &DashMap<String, Room>) -> (res: Vec<(String, usize)>)
    ensures
        res@.len() == room_table(*m).len(),
        forall|i: int|
            0 <= i < res@.len() ==> room_table(*m).dom().contains(#[trigger] res@[i].0@)
                && res@[i].1 == room_table(*m)[res@[i].0@].clients.len(),
        forall|i: int, j: int|
            0 <= i < j < res@.len() ==> #[trigger] res@[i].0@ != #[trigger] res@[j].0@,
{
    m.iter().map(|entry| (entry.key().clone(), entry.value().clients.len())).collect()
}

/// `UnboundedSender::clone`: another handle on the same channel. The clone shares the
/// sender's reference to the channel, so the contracts take it as the same value.
#[verifier::external_body]
pub(crate) fn clone_sender(tx: &UnboundedSender<Message>) -> (res: UnboundedSender<Message>)
    ensures
        res == *tx,
{
    tx.clone()
}

} // verus!
