//! Properties of sequences of registry operations.
use vstd::prelude::*;

use crate::registry::{created, joined, Rooms};
use crate::room::{empty_room, Outbound};

verus! {

/// The registry after empty rooms are registered under `ids`, in order.
pub open spec fn created_all(m: Rooms, ids: Seq<Seq<char>>) -> Rooms
    decreases ids.len(),
{
    if ids.len() == 0 {
        m
    } else {
        created(created_all(m, ids.drop_last()), ids.last())
    }
}

/// Each identifier in `ids` was free when its room was registered: what a
/// run of successful room creations guarantees call by call.
pub open spec fn each_fresh(m: Rooms, ids: Seq<Seq<char>>) -> bool {
    forall|i: int|
        0 <= i < ids.len() ==> !(#[trigger] created_all(m, ids.take(i))).contains_key(ids[i])
}

/// The registry after the joins `js`, applied in order: each names a room
/// and the joining client's channel.
pub open spec fn joined_all(m: Rooms, js: Seq<(Seq<char>, Outbound)>) -> Rooms
    decreases js.len(),
{
    if js.len() == 0 {
        m
    } else {
        joined(joined_all(m, js.drop_last()), js.last().0, js.last().1)
    }
}

/// The channels of the joins in `js` aimed at room `id`, in order.
pub open spec fn aimed_at(js: Seq<(Seq<char>, Outbound)>, id: Seq<char>) -> Seq<Outbound>
    decreases js.len(),
{
    if js.len() == 0 {
        Seq::empty()
    } else if js.last().0 == id {
        aimed_at(js.drop_last(), id).push(js.last().1)
    } else {
        aimed_at(js.drop_last(), id)
    }
}

/// The channels `ss` numbered with consecutive positions from `start`.
pub open spec fn numbered(start: nat, ss: Seq<Outbound>) -> Seq<(nat, Outbound)> {
    Seq::new(ss.len(), |i: int| ((start + i) as nat, ss[i]))
}

/// Creating rooms never removes one, and the identifiers handed out by a
/// run of successful creations are pairwise distinct, each naming a room
/// afterwards.
pub proof fn lemma_created_ids_distinct(m: Rooms, ids: Seq<Seq<char>>)
    requires
        each_fresh(m, ids),
    ensures
        ids.no_duplicates(),
        forall|i: int| 0 <= i < ids.len() ==> created_all(m, ids).contains_key(#[trigger] ids[i]),
        forall|k: Seq<char>| m.contains_key(k) ==> #[trigger] created_all(m, ids).contains_key(k),
    decreases ids.len(),
{
    if ids.len() > 0 {
        let prefix = ids.drop_last();
        assert forall|i: int| 0 <= i < prefix.len() implies !(#[trigger] created_all(
            m,
            prefix.take(i),
        )).contains_key(prefix[i]) by {
            assert(prefix.take(i) =~= ids.take(i));
            assert(!created_all(m, ids.take(i)).contains_key(ids[i]));
        }
        lemma_created_ids_distinct(m, prefix);
        let last = ids.len() - 1;
        assert(ids.take(last) =~= prefix);
        assert(!created_all(m, ids.take(last)).contains_key(ids[last]));
        assert forall|i: int, j: int|
            0 <= i < ids.len() && 0 <= j < ids.len() && i != j implies ids[i] != ids[j] by {
            if i < last && j < last {
                assert(prefix[i] == ids[i] && prefix[j] == ids[j]);
            } else if i == last {
                assert(created_all(m, prefix).contains_key(prefix[j]));
            } else {
                assert(created_all(m, prefix).contains_key(prefix[i]));
            }
        }
        assert forall|i: int| 0 <= i < ids.len() implies created_all(m, ids).contains_key(
            #[trigger] ids[i],
        ) by {
            if i < last {
                assert(created_all(m, prefix).contains_key(prefix[i]));
            }
        }
    }
}

/// Right after a room is created under `id`, a room exists under `id`, and
/// it has no members.
pub proof fn lemma_exists_after_create(m: Rooms, id: Seq<char>)
    ensures
        created(m, id).contains_key(id),
        created(m, id)[id] == empty_room(),
{
}

/// A join on an unknown room changes nothing.
pub proof fn lemma_unknown_join_unchanged(m: Rooms, id: Seq<char>, s: Outbound)
    requires
        !m.contains_key(id),
    ensures
        joined(m, id, s) == m,
{
}

/// Joins are applied in order and none is lost: after any sequence of
/// joins, aimed at a room or at others in any interleaving, the room holds
/// its earlier members followed by exactly the joining clients aimed at it,
/// in the order they joined, with consecutive positions starting at the
/// room's next position. Each joiner was handed the position stored with
/// it, so successive joiners get strictly increasing positions with no gap
/// or repeat; a fresh room hands out `0, 1, 2, ...`. Joins add or remove no
/// room. Holds while the room's positions fit in a `usize`.
pub proof fn lemma_joins_in_order(m: Rooms, js: Seq<(Seq<char>, Outbound)>, id: Seq<char>)
    requires
        m.contains_key(id),
        m[id].next + aimed_at(js, id).len() <= usize::MAX,
    ensures
        joined_all(m, js).dom() == m.dom(),
        joined_all(m, js)[id].members == m[id].members + numbered(m[id].next, aimed_at(js, id)),
        joined_all(m, js)[id].next == m[id].next + aimed_at(js, id).len(),
    decreases js.len(),
{
    if js.len() > 0 {
        let prefix = js.drop_last();
        lemma_joins_in_order(m, prefix, id);
        let prev = joined_all(m, prefix);
        let (k, s) = js.last();
        assert(joined(prev, k, s).dom() =~= prev.dom());
        if k == id {
            let start = m[id].next;
            let before = aimed_at(prefix, id);
            assert(numbered(start, before).push(((start + before.len()) as nat, s)) =~= numbered(
                start,
                before.push(s),
            ));
            assert(m[id].members + numbered(start, before.push(s)) =~= (m[id].members + numbered(
                start,
                before,
            )).push(((start + before.len()) as nat, s)));
        }
    }
}

/// No join is lost: after any sequence of joins, a room has gained exactly
/// one member per join aimed at it, while its positions fit in a `usize`.
pub proof fn lemma_no_lost_joins(m: Rooms, js: Seq<(Seq<char>, Outbound)>, id: Seq<char>)
    requires
        m.contains_key(id),
        m[id].next + aimed_at(js, id).len() <= usize::MAX,
    ensures
        joined_all(m, js)[id].members.len() == m[id].members.len() + aimed_at(js, id).len(),
{
    lemma_joins_in_order(m, js, id);
}

} // verus!
