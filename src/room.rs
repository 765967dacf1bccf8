//! A room: the members of one session, kept in join order.
use vstd::prelude::*;

verus! {

/// Declares tokio's unbounded sender: a session's outbound message channel.
/// The library only carries it; it never sends through it.
#[verifier::external_type_specification]
#[verifier::external_body]
#[verifier::reject_recursive_types(T)]
pub struct ExUnboundedSender<T>(tokio::sync::mpsc::UnboundedSender<T>);

/// Declares warp's websocket message, the item type of an outbound channel.
#[verifier::external_type_specification]
#[verifier::external_body]
pub struct ExWsMessage(warp::ws::Message);

/// Declares warp's error type, the failure half of an outbound item.
#[verifier::external_type_specification]
#[verifier::external_body]
pub struct ExWarpError(warp::Error);

/// The channel through which messages are pushed to one client's connection.
pub type Outbound = tokio::sync::mpsc::UnboundedSender<Result<warp::ws::Message, warp::Error>>;

/// One connected participant: its position in the room's join order and its
/// outbound channel.
pub struct Client {
    pos: usize,
    sender: Outbound,
}

impl View for Client {
    /// The client's position and its outbound channel.
    type V = (nat, Outbound);

    closed spec fn view(&self) -> (nat, Outbound) {
        (self.pos as nat, self.sender)
    }
}

impl Client {
    /// A session that has not joined a room yet: its position is assigned
    /// when it is registered.
    pub fn new(sender: Outbound) -> (r: Client)
        ensures
            r@ == (0nat, sender),
    {
        Client { pos: 0, sender }
    }

    /// The client's position in its room's join order.
    pub fn position(&self) -> (r: usize)
        ensures
            r == self@.0,
    {
        self.pos
    }

    /// The client's outbound channel.
    pub fn sender(&self) -> (r: &Outbound)
        ensures
            *r == self@.1,
    {
        &self.sender
    }
}

/// Abstract state of a room: its members as (position, channel) in join
/// order, and the position the next joiner will receive.
pub struct RoomView {
    pub members: Seq<(nat, Outbound)>,
    pub next: nat,
}

/// A room that has never been joined.
pub open spec fn empty_room() -> RoomView {
    RoomView { members: Seq::empty(), next: 0 }
}

/// Positions strictly increase along the join order and all lie below the
/// next position to hand out, which fits in a `usize`. Positions are thus
/// never repeated, even after members leave.
pub open spec fn room_view_wf(v: RoomView) -> bool {
    &&& v.next <= usize::MAX
    &&& forall|i: int, j: int|
        0 <= i < j < v.members.len() ==> #[trigger] v.members[i].0 < #[trigger] v.members[j].0
    &&& forall|i: int| 0 <= i < v.members.len() ==> #[trigger] v.members[i].0 < v.next
}

/// The members of one session, in join order.
pub struct Room {
    clients: Vec<Client>,
    next: usize,
}

impl View for Room {
    type V = RoomView;

    closed spec fn view(&self) -> RoomView {
        RoomView { members: self.clients@.map_values(|c: Client| c@), next: self.next as nat }
    }
}

impl Room {
    pub open spec fn wf(&self) -> bool {
        room_view_wf(self@)
    }

    /// An empty room.
    pub fn new() -> (r: Room)
        ensures
            r@ == empty_room(),
            r.wf(),
    {
        let r = Room { clients: Vec::new(), next: 0 };
        assert(r@.members =~= Seq::<(nat, Outbound)>::empty());
        r
    }

    /// Number of members.
    pub fn member_count(&self) -> (r: usize)
        ensures
            r == self@.members.len(),
    {
        self.clients.len()
    }

    /// The position the next joiner will receive.
    pub fn next_position(&self) -> (r: usize)
        ensures
            r == self@.next,
    {
        self.next
    }

    /// Appends `client` as the newest member and returns the position it was
    /// given: the room's next position, which then advances by one.
    pub fn add_client(&mut self, client: Client) -> (r: usize)
        requires
            old(self).wf(),
            old(self)@.next < usize::MAX,
        ensures
            r == old(self)@.next,
            final(self)@ == (RoomView {
                members: old(self)@.members.push((r as nat, client@.1)),
                next: old(self)@.next + 1,
            }),
            final(self).wf(),
    {
        let mut client = client;
        let pos = self.next;
        client.pos = pos;
        self.clients.push(client);
        self.next = pos + 1;
        assert(self@.members =~= old(self)@.members.push((pos as nat, client@.1)));
        pos
    }

    /// Removes the member holding position `pos` and hands it back; `None`
    /// when no member holds it. The next position is kept, so a position is
    /// never handed out twice.
    pub fn remove_member(&mut self, pos: usize) -> (r: Option<Client>)
        requires
            old(self).wf(),
        ensures
            final(self).wf(),
            match r {
                Some(c) => exists|i: int|
                    0 <= i < old(self)@.members.len() && old(self)@.members[i].0 == pos && c@
                        == old(self)@.members[i] && final(self)@ == (RoomView {
                        members: old(self)@.members.remove(i),
                        next: old(self)@.next,
                    }),
                None => (forall|i: int|
                    0 <= i < old(self)@.members.len() ==> #[trigger] old(self)@.members[i].0
                        != pos) && final(self)@ == old(self)@,
            },
    {
        let mut i: usize = 0;
        while i < self.clients.len()
            invariant
                i <= self.clients@.len(),
                self@ == old(self)@,
                self.wf(),
                forall|j: int| 0 <= j < i ==> #[trigger] self@.members[j].0 != pos,
            decreases self.clients@.len() - i,
        {
            if self.clients[i].pos == pos {
                let ghost members = self@.members;
                let c = self.clients.remove(i);
                assert(self@.members =~= members.remove(i as int));
                assert(c@ == members[i as int]);
                assert forall|a: int, b: int|
                    0 <= a < b < self@.members.len() implies #[trigger] self@.members[a].0
                        < #[trigger] self@.members[b].0 by {
                    let a0 = if a < i { a } else { a + 1 };
                    let b0 = if b < i { b } else { b + 1 };
                    assert(self@.members[a] == members[a0]);
                    assert(self@.members[b] == members[b0]);
                    assert(members[a0].0 < members[b0].0);
                }
                assert forall|a: int| 0 <= a < self@.members.len() implies #[trigger] self@.members[a].0
                    < self@.next by {
                    let a0 = if a < i { a } else { a + 1 };
                    assert(self@.members[a] == members[a0]);
                    assert(members[a0].0 < old(self)@.next);
                }
                return Some(c);
            }
            i += 1;
        }
        None
    }
}

} // verus!
