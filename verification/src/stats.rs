//! The numbers of rooms and of connected peers.
use vstd::prelude::*;

use crate::room::{RoomView, Rooms};

verus! {

/// How many rooms exist and how many peers are in them.
#[derive(Debug, PartialEq, Eq, Structural)]
pub struct Stats {
    pub room_count: usize,
    pub peer_count: usize,
}

/// The number of clients over all rooms of a finite table.
pub open spec fn total_peers(t: Map<Seq<char>, RoomView>) -> nat
    decreases t.dom().len(),
    when t.dom().finite()
{
    if t.dom().len() == 0 {
        0
    } else {
        let k = t.dom().choose();
        t[k].clients.len() + total_peers(t.remove(k))
    }
}

/// The total does not depend on which room is counted first.
pub proof fn lemma_total_peers_remove(t: Map<Seq<char>, RoomView>, k: Seq<char>)
    requires
        t.dom().finite(),
        t.dom().contains(k),
    ensures
        total_peers(t) == t[k].clients.len() + total_peers(t.remove(k)),
    decreases t.dom().len(),
{
    let c = t.dom().choose();
    assert(t.dom().len() != 0);
    if c != k {
        lemma_total_peers_remove(t.remove(c), k);
        lemma_total_peers_remove(t.remove(k), c);
        assert(t.remove(c).remove(k) =~= t.remove(k).remove(c));
    }
}

/// The sum of the counts of a list of rooms.
pub open spec fn sum_sizes(s: Seq<(String, usize)>) -> nat
    decreases s.len(),
{
    if s.len() == 0 {
        0
    } else {
        sum_sizes(s.drop_last()) + s.last().1 as nat
    }
}

proof fn lemma_sum_prefix(s: Seq<(String, usize)>, i: int)
    requires
        0 <= i <= s.len(),
    ensures
        sum_sizes(s.take(i)) <= sum_sizes(s),
    decreases s.len(),
{
    if i < s.len() {
        assert(s.take(i) =~= s.drop_last().take(i));
        lemma_sum_prefix(s.drop_last(), i);
    } else {
        assert(s.take(i) =~= s);
    }
}

/// A list that names every room of the table once, with its count, sums to the total.
proof fn lemma_sum_is_total(s: Seq<(String, usize)>, t: Map<Seq<char>, RoomView>)
    requires
        t.dom().finite(),
        s.len() == t.len(),
        forall|i: int| 0 <= i < s.len() ==> t.dom().contains(#[trigger] s[i].0@)
            && s[i].1 == t[s[i].0@].clients.len(),
        forall|i: int, j: int| 0 <= i < j < s.len() ==> #[trigger] s[i].0@ != #[trigger] s[j].0@,
    ensures
        sum_sizes(s) == total_peers(t),
    decreases s.len(),
{
    if s.len() == 0 {
        assert(t.dom() =~= Set::empty()) by {
            if exists|k: Seq<char>| t.dom().contains(k) {
                let k = choose|k: Seq<char>| t.dom().contains(k);
                assert(t.dom().remove(k).len() < t.dom().len());
            }
        }
    } else {
        let k = s.last().0@;
        let pre = s.drop_last();
        let u = t.remove(k);
        assert forall|i: int| 0 <= i < pre.len() implies u.dom().contains(#[trigger] pre[i].0@)
            && pre[i].1 == u[pre[i].0@].clients.len() by {
            assert(s[i] == pre[i]);
            assert(s[i].0@ != s[s.len() - 1].0@);
        }
        assert forall|i: int, j: int| 0 <= i < j < pre.len() implies #[trigger] pre[i].0@
            != #[trigger] pre[j].0@ by {
            assert(s[i] == pre[i] && s[j] == pre[j]);
        }
        assert(t.dom().contains(s[s.len() - 1].0@));
        lemma_sum_is_total(pre, u);
        lemma_total_peers_remove(t, k);
    }
}

/// The number of rooms and of peers in them; `None` when the number of peers does not
/// fit in `usize`.
pub fn room_stats(rooms: &Rooms) -> (res: Option<Stats>)
    requires
        rooms.wf(),
    ensures
        res is None <==> total_peers(rooms@) > usize::MAX,
        res matches Some(s) ==> s.room_count == rooms@.len() && s.peer_count == total_peers(rooms@),
{
    let room_count = rooms.len();
    let sizes = rooms.sizes();
    proof {
        lemma_sum_is_total(sizes@, rooms@);
    }
    let mut peer_count: usize = 0;
    let mut i: usize = 0;
    while i < sizes.len()
        invariant
            0 <= i <= sizes.len(),
            peer_count == sum_sizes(sizes@.take(i as int)),
            sum_sizes(sizes@) == total_peers(rooms@),
        decreases sizes.len() - i,
    {
        assert(sizes@.take(i + 1).drop_last() =~= sizes@.take(i as int));
        match peer_count.checked_add(sizes[i].1) {
            Some(n) => peer_count = n,
            None => {
                proof {
                    lemma_sum_prefix(sizes@, i + 1);
                }
                return None;
            },
        }
        i += 1;
    }
    assert(sizes@.take(sizes@.len() as int) =~= sizes@);
    Some(Stats { room_count, peer_count })
}

} // verus!
