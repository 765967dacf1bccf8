//! The room registry: every room of the process, keyed by identifier.
use vstd::prelude::*;
use vstd::seq_lib::seq_to_set_is_finite;

use crate::ids::{generate_room_id, is_room_id};
use crate::room::{empty_room, room_view_wf, Client, Outbound, Room, RoomView};

verus! {

/// Abstract registry state: each room identifier mapped to its room.
pub type Rooms = Map<Seq<char>, RoomView>;

/// The registry after an empty room is registered under `id`.
pub open spec fn created(m: Rooms, id: Seq<char>) -> Rooms {
    m.insert(id, empty_room())
}

/// The registry after the client with channel `s` joins room `id`: it is
/// appended with the room's next position, which then advances. An unknown
/// room, or one whose positions are used up, is left as it is.
pub open spec fn joined(m: Rooms, id: Seq<char>, s: Outbound) -> Rooms {
    if m.contains_key(id) && m[id].next < usize::MAX {
        m.insert(id, RoomView { members: m[id].members.push((m[id].next, s)), next: m[id].next + 1 })
    } else {
        m
    }
}

/// Why a registry operation was refused.
#[derive(Clone, Copy, Debug, PartialEq, Eq, Structural)]
pub enum RoomError {
    /// No room is registered under the requested identifier.
    RoomNotFound,
    /// Every freshly drawn identifier was already taken.
    IdentityCollision,
    /// The room has handed out every position a `usize` can hold.
    PositionsExhausted,
    /// No member of the room holds the given position.
    NotAMember,
}

/// Number of identifiers drawn before room creation gives up.
pub const ID_ATTEMPTS: usize = 2;

/// The process-wide registry of rooms.
///
/// Entries are kept in creation order; identifiers are unique.
pub struct GameData {
    rooms: Vec<(String, Room)>,
    model: Ghost<Rooms>,
}

impl View for GameData {
    type V = Rooms;

    closed spec fn view(&self) -> Rooms {
        self.model@
    }
}

impl GameData {
    /// Identifiers are unique, and the entries hold exactly the rooms of the
    /// model, each in join order.
    pub closed spec fn wf(&self) -> bool {
        &&& forall|i: int, j: int|
            0 <= i < j < self.rooms@.len() ==> #[trigger] self.rooms@[i].0@
                != #[trigger] self.rooms@[j].0@
        &&& forall|i: int|
            0 <= i < self.rooms@.len() ==> {
                let e = #[trigger] self.rooms@[i];
                &&& self.model@.contains_key(e.0@)
                &&& self.model@[e.0@] == e.1@
                &&& e.1.wf()
            }
        &&& forall|k: Seq<char>| #[trigger]
            self.model@.contains_key(k) ==> exists|i: int|
                0 <= i < self.rooms@.len() && #[trigger] self.rooms@[i].0@ == k
    }

    /// An empty registry.
    pub fn new() -> (r: GameData)
        ensures
            r.wf(),
            r@ == Rooms::empty(),
    {
        GameData { rooms: Vec::new(), model: Ghost(Map::empty()) }
    }

    /// What a well-formed registry guarantees its callers: finitely many
    /// rooms, each with strictly increasing positions below its next one.
    pub proof fn lemma_wf_facts(&self)
        requires
            self.wf(),
        ensures
            self@.dom().finite(),
            forall|k: Seq<char>| #[trigger] self@.contains_key(k) ==> room_view_wf(self@[k]),
            self@.dom() == self.keys().to_set(),
            self.keys().no_duplicates(),
    {
        assert(self@.dom() =~= self.keys().to_set()) by {
            assert forall|k: Seq<char>| self@.dom().contains(k) implies self.keys().to_set().contains(k) by {
                let i = choose|i: int| 0 <= i < self.rooms@.len() && #[trigger] self.rooms@[i].0@ == k;
                assert(self.keys()[i] == k);
            }
            assert forall|k: Seq<char>| self.keys().to_set().contains(k) implies self@.dom().contains(k) by {
                let i = choose|i: int| 0 <= i < self.keys().len() && self.keys()[i] == k;
                assert(self.rooms@[i].0@ == k);
            }
        }
        seq_to_set_is_finite(self.keys());
        assert forall|k: Seq<char>| #[trigger] self@.contains_key(k) implies room_view_wf(self@[k]) by {
            let i = choose|i: int| 0 <= i < self.rooms@.len() && #[trigger] self.rooms@[i].0@ == k;
            assert(self.rooms@[i].1.wf());
        }
    }

    /// The identifiers of the entries, in creation order.
    pub closed spec fn keys(&self) -> Seq<Seq<char>> {
        self.rooms@.map_values(|e: (String, Room)| e.0@)
    }

    /// Number of rooms.
    pub fn room_count(&self) -> (r: usize)
        requires
            self.wf(),
        ensures
            r == self@.dom().len(),
    {
        proof {
            self.lemma_wf_facts();
            self.keys().unique_seq_to_set();
        }
        self.rooms.len()
    }

    /// Index of the entry registered under `id`, if any.
    fn find(&self, id: &String) -> (r: Option<usize>)
        requires
            self.wf(),
        ensures
            match r {
                Some(i) => i < self.rooms@.len() && self.rooms@[i as int].0@ == id@,
                None => !self@.contains_key(id@),
            },
    {
        let mut i: usize = 0;
        while i < self.rooms.len()
            invariant
                i <= self.rooms@.len(),
                forall|j: int| 0 <= j < i ==> #[trigger] self.rooms@[j].0@ != id@,
            decreases self.rooms@.len() - i,
        {
            if self.rooms[i].0 == *id {
                return Some(i);
            }
            i += 1;
        }
        None
    }

    /// Whether a room is registered under `id`.
    pub fn room_exists(&self, id: &String) -> (r: bool)
        requires
            self.wf(),
        ensures
            r == self@.contains_key(id@),
    {
        match self.find(id) {
            Some(_) => true,
            None => false,
        }
    }

    /// Number of members of room `id`, or `None` for an unknown room.
    pub fn member_count(&self, id: &String) -> (r: Option<usize>)
        requires
            self.wf(),
        ensures
            match r {
                Some(n) => self@.contains_key(id@) && n == self@[id@].members.len(),
                None => !self@.contains_key(id@),
            },
    {
        match self.find(id) {
            Some(i) => Some(self.rooms[i].1.member_count()),
            None => None,
        }
    }

    /// Registers an empty room under `id`. An identifier that is already
    /// taken is refused with `IdentityCollision` and the registry is left as
    /// it was: an existing room is never overwritten.
    pub fn insert_room(&mut self, id: String) -> (r: Result<(), RoomError>)
        requires
            old(self).wf(),
        ensures
            final(self).wf(),
            old(self)@.contains_key(id@) ==> r == Err::<(), RoomError>(RoomError::IdentityCollision)
                && final(self)@ == old(self)@,
            !old(self)@.contains_key(id@) ==> r == Ok::<(), RoomError>(()) && final(self)@
                == created(old(self)@, id@),
    {
        match self.find(&id) {
            Some(_) => Err(RoomError::IdentityCollision),
            None => {
                let ghost key = id@;
                let ghost before = self.rooms@;
                self.rooms.push((id, Room::new()));
                self.model = Ghost(self.model@.insert(key, empty_room()));
                assert forall|k: Seq<char>| #[trigger]
                    self.model@.contains_key(k) implies exists|i: int|
                        0 <= i < self.rooms@.len() && #[trigger] self.rooms@[i].0@ == k by {
                    if k == key {
                        assert(self.rooms@[before.len() as int].0@ == k);
                    } else {
                        let i = choose|i: int| 0 <= i < before.len() && #[trigger] before[i].0@ == k;
                        assert(self.rooms@[i].0@ == k);
                    }
                }
                Ok(())
            },
        }
    }
    /// Draws a fresh identifier and registers an empty room under it.
    ///
    /// A drawn identifier that is already taken is discarded and another is
    /// drawn, up to `ID_ATTEMPTS` draws in all; when every draw collides the
    /// call fails with `IdentityCollision` and the registry is unchanged.
    /// Which identifiers are drawn is up to the system's randomness.
    pub fn create_room(&mut self) -> (r: Result<String, RoomError>)
        requires
            old(self).wf(),
        ensures
            final(self).wf(),
            (forall|k: Seq<char>| #[trigger] old(self)@.contains_key(k) ==> !is_room_id(k))
                ==> r is Ok,
            match r {
                Ok(id) => {
                    &&& is_room_id(id@)
                    &&& !old(self)@.contains_key(id@)
                    &&& final(self)@ == created(old(self)@, id@)
                    &&& final(self)@.dom().len() == old(self)@.dom().len() + 1
                },
                Err(e) => e == RoomError::IdentityCollision && final(self)@ == old(self)@,
            },
    {
        proof {
            self.lemma_wf_facts();
        }
        let mut attempt: usize = 0;
        while attempt < ID_ATTEMPTS
            invariant
                self.wf(),
                self@ == old(self)@,
                attempt <= ID_ATTEMPTS,
                self@.dom().finite(),
                (forall|k: Seq<char>| #[trigger] old(self)@.contains_key(k) ==> !is_room_id(k))
                    ==> attempt == 0,
            decreases ID_ATTEMPTS - attempt,
        {
            let id = generate_room_id();
            let key = id.clone();
            if let Ok(()) = self.insert_room(id) {
                return Ok(key);
            }
            attempt += 1;
        }
        Err(RoomError::IdentityCollision)
    }

    /// The admission decision for a join request: `Ok` exactly when room
    /// `id` exists, else `RoomNotFound`. Nothing is changed either way.
    pub fn check_join(&self, id: &String) -> (r: Result<(), RoomError>)
        requires
            self.wf(),
        ensures
            self@.contains_key(id@) ==> r == Ok::<(), RoomError>(()),
            !self@.contains_key(id@) ==> r == Err::<(), RoomError>(RoomError::RoomNotFound),
    {
        if self.room_exists(id) {
            Ok(())
        } else {
            Err(RoomError::RoomNotFound)
        }
    }

    /// Registers `client` as the newest member of room `id`, with the
    /// room's next position, and returns that position.
    ///
    /// The existence check and the append happen in this one call, so a
    /// caller holding the registry exclusively performs both in one critical
    /// section. An unknown room is refused with `RoomNotFound`, a room whose
    /// positions are used up with `PositionsExhausted`; either way the
    /// registry is unchanged.
    pub fn join_room(&mut self, id: &String, client: Client) -> (r: Result<usize, RoomError>)
        requires
            old(self).wf(),
        ensures
            final(self).wf(),
            final(self)@ == joined(old(self)@, id@, client@.1),
            old(self)@.contains_key(id@) && old(self)@[id@].next < usize::MAX ==> r == Ok::<
                usize,
                RoomError,
            >(old(self)@[id@].next as usize),
            !old(self)@.contains_key(id@) ==> r == Err::<usize, RoomError>(
                RoomError::RoomNotFound,
            ) && final(self)@ == old(self)@,
            old(self)@.contains_key(id@) && old(self)@[id@].next >= usize::MAX ==> r == Err::<
                usize,
                RoomError,
            >(RoomError::PositionsExhausted) && final(self)@ == old(self)@,
    {
        match self.find(id) {
            None => Err(RoomError::RoomNotFound),
            Some(i) => {
                if self.rooms[i].1.next_position() == usize::MAX {
                    return Err(RoomError::PositionsExhausted);
                }
                let ghost before = self.rooms@;
                let pos = self.rooms[i].1.add_client(client);
                let ghost room = self.rooms@[i as int].1@;
                self.model = Ghost(self.model@.insert(id@, room));
                proof { self.lemma_update_entry(before, i as int); }
                Ok(pos)
            },
        }
    }

    /// Removes the member holding position `pos` from room `id` and hands it
    /// back, dropping it from the room; the position is not handed out
    /// again. An unknown room is refused with `RoomNotFound`, a position no
    /// member holds with `NotAMember`; either way the registry is unchanged.
    pub fn leave_room(&mut self, id: &String, pos: usize) -> (r: Result<Client, RoomError>)
        requires
            old(self).wf(),
        ensures
            final(self).wf(),
            !old(self)@.contains_key(id@) ==> r == Err::<Client, RoomError>(
                RoomError::RoomNotFound,
            ) && final(self)@ == old(self)@,
            old(self)@.contains_key(id@) && (forall|i: int|
                0 <= i < old(self)@[id@].members.len() ==> #[trigger] old(self)@[id@].members[i].0
                    != pos) ==> r == Err::<Client, RoomError>(RoomError::NotAMember)
                && final(self)@ == old(self)@,
            match r {
                Ok(c) => exists|i: int|
                    0 <= i < old(self)@[id@].members.len() && old(self)@[id@].members[i].0 == pos
                        && c@ == old(self)@[id@].members[i] && final(self)@ == old(self)@.insert(
                        id@,
                        RoomView {
                            members: old(self)@[id@].members.remove(i),
                            next: old(self)@[id@].next,
                        },
                    ),
                Err(_) => final(self)@ == old(self)@,
            },
    {
        match self.find(id) {
            None => Err(RoomError::RoomNotFound),
            Some(i) => {
                let ghost before = self.rooms@;
                match self.rooms[i].1.remove_member(pos) {
                    None => {
                        proof { self.lemma_update_entry(before, i as int); }
                        Err(RoomError::NotAMember)
                    },
                    Some(c) => {
                        let ghost room = self.rooms@[i as int].1@;
                        self.model = Ghost(self.model@.insert(id@, room));
                        proof { self.lemma_update_entry(before, i as int); }
                        Ok(c)
                    },
                }
            },
        }
    }

    /// After the room of entry `i` alone changed (key kept, model updated
    /// to its new state), the registry is well formed again.
    proof fn lemma_update_entry(&self, before: Seq<(String, Room)>, i: int)
        requires
            0 <= i < before.len(),
            self.rooms@.len() == before.len(),
            forall|j: int| 0 <= j < before.len() && j != i ==> self.rooms@[j] == before[j],
            self.rooms@[i].0 == before[i].0,
            self.rooms@[i].1.wf(),
            forall|i: int, j: int|
                0 <= i < j < before.len() ==> #[trigger] before[i].0@ != #[trigger] before[j].0@,
            self.model@.contains_key(before[i].0@),
            self.model@[before[i].0@] == self.rooms@[i].1@,
            forall|j: int| 0 <= j < before.len() && j != i ==> {
                &&& self.model@.contains_key(#[trigger] before[j].0@)
                &&& self.model@[before[j].0@] == before[j].1@
                &&& before[j].1.wf()
            },
            forall|k: Seq<char>| #[trigger]
                self.model@.contains_key(k) ==> exists|j: int|
                    0 <= j < before.len() && #[trigger] before[j].0@ == k,
        ensures
            self.wf(),
    {
        assert forall|j: int| 0 <= j < before.len() implies #[trigger] self.rooms@[j].0@
            == before[j].0@ by {
            if j != i {
                assert(self.rooms@[j] == before[j]);
            }
        }
        assert forall|a: int, b: int|
            0 <= a < b < self.rooms@.len() implies #[trigger] self.rooms@[a].0@
                != #[trigger] self.rooms@[b].0@ by {
            assert(self.rooms@[a].0@ == before[a].0@);
            assert(self.rooms@[b].0@ == before[b].0@);
        }
        assert forall|j: int| 0 <= j < self.rooms@.len() implies {
            let e = #[trigger] self.rooms@[j];
            &&& self.model@.contains_key(e.0@)
            &&& self.model@[e.0@] == e.1@
            &&& e.1.wf()
        } by {
            if j != i {
                assert(self.rooms@[j] == before[j]);
            }
        }
        assert forall|k: Seq<char>| #[trigger]
            self.model@.contains_key(k) implies exists|j: int|
                0 <= j < self.rooms@.len() && #[trigger] self.rooms@[j].0@ == k by {
            let j = choose|j: int| 0 <= j < before.len() && #[trigger] before[j].0@ == k;
            assert(self.rooms@[j].0@ == k);
        }
    }
}

} // verus!
