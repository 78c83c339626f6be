//! The session registry: every connected session with its outbound address, and
//! every room by name.
use vstd::prelude::*;
use crate::room::{ChatRoom, ChatRoomError, recipients, lemma_broadcast_reaches_others};
use crate::table::{
    value_of, TableView, find_key, has_key, key_index, keys_distinct, table_view, lemma_key_index_unique,
};

verus! {

/// The registry could not register a session.
#[derive(Debug, PartialEq, Eq, Structural)]
pub enum ChatServerError {
    /// No fresh session id is left.
    RegistrationFailed,
}

/// A room operation on behalf of a registered session.
#[derive(Debug, PartialEq, Eq)]
pub enum ChatRoomCommand {
    /// Session `user_id` joins `room_name` as `username`.
    Join { user_id: String, room_name: String, username: String },
    /// Session `user_id` sends `content` to its rooms.
    BroadcastMessage { user_id: String, content: String },
}

/// The mathematical value of a room operation.
pub enum ChatRoomCommandView {
    Join(Seq<char>, Seq<char>, Seq<char>),
    Broadcast(Seq<char>, Seq<char>),
}

impl View for ChatRoomCommand {
    type V = ChatRoomCommandView;

    open spec fn view(&self) -> ChatRoomCommandView {
        match self {
            ChatRoomCommand::Join { user_id, room_name, username } => ChatRoomCommandView::Join(
                user_id@,
                room_name@,
                username@,
            ),
            ChatRoomCommand::BroadcastMessage { user_id, content } => ChatRoomCommandView::Broadcast(
                user_id@,
                content@,
            ),
        }
    }
}

/// What the registry hands back for a room operation.
#[derive(Debug, PartialEq, Eq)]
pub enum Dispatch {
    /// The session is now a member of the room.
    Joined,
    /// The operation was refused; the error goes to the originating session only.
    Rejected(ChatRoomError),
    /// `text` is to be sent to each of `recipients` (session id and address).
    Deliver { recipients: Vec<(String, u64)>, text: String },
}

/// A request to register a connection, carrying its outbound address.
#[derive(Debug, PartialEq, Eq, Structural)]
pub struct Connect {
    pub addr: u64,
}

/// The decimal digits of `n`, as `u64`'s `to_string` writes them.
pub uninterp spec fn decimal_of(n: u64) -> Seq<char>;

/// Relies on `ToString` for `u64` (through `Display`): the decimal digits of `n`,
/// which depend on `n` alone.
#[verifier::external_body]
fn decimal_text(n: u64) -> (r: String)
    ensures
        r@ == decimal_of(n),
{
    n.to_string()
}

/// The rooms by name, each with its members.
pub type RoomsView = Seq<(Seq<char>, TableView<Seq<char>>)>;

/// A room's members once `id` has left.
pub open spec fn without(m: TableView<Seq<char>>, id: Seq<char>) -> TableView<Seq<char>> {
    if has_key(m, id) {
        m.remove(key_index(m, id))
    } else {
        m
    }
}

/// The rooms once `id` has left them all; rooms left empty are gone.
pub open spec fn leave_all(rooms: RoomsView, id: Seq<char>) -> RoomsView
    decreases rooms.len(),
{
    if rooms.len() == 0 {
        rooms
    } else {
        let rest = leave_all(rooms.drop_last(), id);
        let m = without(rooms.last().1, id);
        if m.len() == 0 {
            rest
        } else {
            rest.push((rooms.last().0, m))
        }
    }
}

/// The rooms once `id` has joined `room` as `name`; `None` where it is a member already.
pub open spec fn join_rooms(
    rooms: RoomsView,
    id: Seq<char>,
    room: Seq<char>,
    name: Seq<char>,
) -> Option<RoomsView> {
    if has_key(rooms, room) {
        let k = key_index(rooms, room);
        if has_key(rooms[k].1, id) {
            None
        } else {
            Some(rooms.update(k, (room, rooms[k].1.push((id, name)))))
        }
    } else {
        Some(rooms.push((room, seq![(id, name)])))
    }
}

/// Who a broadcast by `id` reaches: in each room it is a member of, every other member
/// that the registry knows, room after room.
pub open spec fn broadcast_targets(rooms: RoomsView, id: Seq<char>, sessions: TableView<u64>) -> Seq<
    (Seq<char>, u64),
>
    decreases rooms.len(),
{
    if rooms.len() == 0 {
        Seq::empty()
    } else {
        let rest = broadcast_targets(rooms.drop_last(), id, sessions);
        let m = rooms.last().1;
        if has_key(m, id) {
            rest + recipients(m, seq![id], sessions)
        } else {
            rest
        }
    }
}

proof fn lemma_leave_all_len(rooms: RoomsView, id: Seq<char>)
    ensures
        leave_all(rooms, id).len() <= rooms.len(),
    decreases rooms.len(),
{
    if rooms.len() > 0 {
        lemma_leave_all_len(rooms.drop_last(), id);
    }
}

/// Leaving every room keeps the rooms well formed.
pub proof fn lemma_leave_all_well_formed(rooms: RoomsView, id: Seq<char>)
    requires
        rooms_well_formed(rooms),
    ensures
        rooms_well_formed(leave_all(rooms, id)),
        forall|i: int|
            0 <= i < leave_all(rooms, id).len() ==> !has_key(#[trigger] leave_all(rooms, id)[i].1, id),
        forall|i: int|
            0 <= i < leave_all(rooms, id).len() ==> has_key(rooms, #[trigger] leave_all(rooms, id)[i].0),
    decreases rooms.len(),
{
    if rooms.len() > 0 {
        let pre = rooms.drop_last();
        assert(rooms_well_formed(pre)) by {
            assert forall|i: int| 0 <= i < pre.len() implies keys_distinct(#[trigger] pre[i].1)
                && pre[i].1.len() > 0 by {
                assert(pre[i] == rooms[i]);
            }
        }
        lemma_leave_all_well_formed(pre, id);
        let rest = leave_all(pre, id);
        let last = rooms.last();
        let m = without(last.1, id);
        assert(keys_distinct(last.1));
        if has_key(last.1, id) {
            let x = key_index(last.1, id);
            assert forall|a: int, b: int| 0 <= a < m.len() && 0 <= b < m.len() && a != b implies m[a].0
                != m[b].0 by {
                let a2 = if a < x { a } else { a + 1 };
                let b2 = if b < x { b } else { b + 1 };
                assert(m[a] == last.1[a2]);
                assert(m[b] == last.1[b2]);
            }
            assert forall|a: int| 0 <= a < m.len() implies m[a].0 != id by {
                let a2 = if a < x { a } else { a + 1 };
                assert(m[a] == last.1[a2]);
            }
        }
        if m.len() > 0 {
            let r = rest.push((last.0, m));
            assert forall|i: int| 0 <= i < rest.len() implies rest[i].0 != last.0 by {
                let j = choose|j: int| 0 <= j < pre.len() && pre[j].0 == rest[i].0;
                assert(pre[j] == rooms[j]);
            }
            assert forall|i: int| 0 <= i < r.len() implies has_key(rooms, #[trigger] r[i].0) by {
                if i < rest.len() {
                    let j = choose|j: int| 0 <= j < pre.len() && pre[j].0 == rest[i].0;
                    assert(pre[j] == rooms[j]);
                } else {
                    assert(rooms[rooms.len() - 1].0 == r[i].0);
                }
            }
            assert forall|i: int| 0 <= i < r.len() implies !has_key(#[trigger] r[i].1, id) by {
                if i < rest.len() {
                    assert(r[i] == rest[i]);
                }
            }
        } else {
            assert forall|i: int| 0 <= i < rest.len() implies has_key(rooms, #[trigger] rest[i].0) by {
                let j = choose|j: int| 0 <= j < pre.len() && pre[j].0 == rest[i].0;
                assert(pre[j] == rooms[j]);
            }
        }
    }
}

/// Joining never puts a session into a room twice: the rooms stay well formed, and
/// a second join of the same session to the same room is refused.
pub proof fn lemma_join_keeps_members_distinct(
    rooms: RoomsView,
    id: Seq<char>,
    room: Seq<char>,
    name: Seq<char>,
    second_name: Seq<char>,
)
    requires
        rooms_well_formed(rooms),
    ensures
        join_rooms(rooms, id, room, name) matches Some(r1) ==> rooms_well_formed(r1) && join_rooms(
            r1,
            id,
            room,
            second_name,
        ) is None,
{
    if let Some(r1) = join_rooms(rooms, id, room, name) {
        if has_key(rooms, room) {
            let k = key_index(rooms, room);
            let m = rooms[k].1;
            let m1 = m.push((id, name));
            assert(r1 == rooms.update(k, (room, m1)));
            assert forall|i: int, j: int| 0 <= i < r1.len() && 0 <= j < r1.len() && i != j implies r1[i].0
                != r1[j].0 by {
                assert(rooms[i].0 != rooms[j].0);
            }
            assert(keys_distinct(m1)) by {
                assert forall|a: int, b: int| 0 <= a < m1.len() && 0 <= b < m1.len() && a != b implies m1[a].0
                    != m1[b].0 by {
                    if a < m.len() && b < m.len() {
                        assert(keys_distinct(rooms[k].1));
                    } else if a < m.len() {
                        assert(m[a].0 != id);
                    } else {
                        assert(m[b].0 != id);
                    }
                }
            }
            assert forall|i: int| 0 <= i < r1.len() implies keys_distinct(#[trigger] r1[i].1)
                && r1[i].1.len() > 0 by {
                if i != k {
                    assert(r1[i] == rooms[i]);
                }
            }
            lemma_key_index_unique(r1, room, k);
            assert(m1[m.len() as int].0 == id);
        } else {
            let m1 = seq![(id, name)];
            assert(r1 == rooms.push((room, m1)));
            assert forall|i: int, j: int| 0 <= i < r1.len() && 0 <= j < r1.len() && i != j implies r1[i].0
                != r1[j].0 by {
                if i < rooms.len() && j < rooms.len() {
                    assert(rooms[i].0 != rooms[j].0);
                } else if i < rooms.len() {
                    assert(rooms[i].0 != room);
                } else {
                    assert(rooms[j].0 != room);
                }
            }
            assert forall|i: int| 0 <= i < r1.len() implies keys_distinct(#[trigger] r1[i].1)
                && r1[i].1.len() > 0 by {
                if i < rooms.len() {
                    assert(r1[i] == rooms[i]);
                }
            }
            lemma_key_index_unique(r1, room, rooms.len() as int);
            assert(m1[0].0 == id);
        }
    }
}

/// A broadcast through the registry never comes back to its sender.
pub proof fn lemma_broadcast_skips_sender(rooms: RoomsView, id: Seq<char>, sessions: TableView<u64>)
    ensures
        forall|i: int|
            0 <= i < broadcast_targets(rooms, id, sessions).len() ==> (#[trigger] broadcast_targets(
                rooms,
                id,
                sessions,
            )[i]).0 != id,
    decreases rooms.len(),
{
    if rooms.len() > 0 {
        let rest = broadcast_targets(rooms.drop_last(), id, sessions);
        lemma_broadcast_skips_sender(rooms.drop_last(), id, sessions);
        let m = rooms.last().1;
        if has_key(m, id) {
            let part = recipients(m, seq![id], sessions);
            lemma_broadcast_reaches_others(m, id, sessions);
            let all = broadcast_targets(rooms, id, sessions);
            assert forall|i: int| 0 <= i < all.len() implies (#[trigger] all[i]).0 != id by {
                if i < rest.len() {
                    assert(all[i] == rest[i]);
                } else {
                    assert(all[i] == part[i - rest.len()]);
                }
            }
        }
    }
}

/// Rooms are distinct by name, none is empty, and no member stands twice in one.
pub open spec fn rooms_well_formed(rooms: RoomsView) -> bool {
    &&& keys_distinct(rooms)
    &&& forall|i: int| 0 <= i < rooms.len() ==> keys_distinct(#[trigger] rooms[i].1)
    &&& forall|i: int| 0 <= i < rooms.len() ==> #[trigger] rooms[i].1.len() > 0
}

/// The registry of sessions and rooms.
pub struct ChatServer {
    sessions: Vec<(String, u64)>,
    rooms: Vec<(String, ChatRoom)>,
    next_id: u64,
}

impl ChatServer {
    /// The connected sessions, each with its outbound address.
    pub closed spec fn sessions_view(&self) -> TableView<u64> {
        table_view(self.sessions@)
    }

    /// The rooms, in order of creation.
    pub closed spec fn rooms_view(&self) -> RoomsView {
        self.rooms@.map_values(|e: (String, ChatRoom)| (e.0@, e.1.view()))
    }

    /// The counter from which the next session id is made.
    pub closed spec fn counter(&self) -> nat {
        self.next_id as nat
    }

    closed spec fn rooms_inner_well_formed(&self) -> bool {
        forall|i: int| 0 <= i < self.rooms@.len() ==> (#[trigger] self.rooms@[i]).1.well_formed()
    }

    /// The registry's invariant.
    pub closed spec fn well_formed(&self) -> bool {
        &&& keys_distinct(self.sessions_view())
        &&& rooms_well_formed(self.rooms_view())
        &&& self.rooms_inner_well_formed()
    }

    /// An empty registry.
    pub fn new() -> (r: Self)
        ensures
            r.well_formed(),
            r.sessions_view() == Seq::<(Seq<char>, u64)>::empty(),
            r.rooms_view() == RoomsView::empty(),
    {
        let r = ChatServer { sessions: Vec::new(), rooms: Vec::new(), next_id: 0 };
        assert(r.sessions_view() =~= Seq::<(Seq<char>, u64)>::empty());
        assert(r.rooms_view() =~= RoomsView::empty());
        r
    }

    /// Registers a new session under `id` with its outbound address; an id in use is refused.
    pub fn register(&mut self, id: String, address: u64) -> (r: Result<String, ChatServerError>)
        requires
            old(self).well_formed(),
        ensures
            final(self).well_formed(),
            final(self).rooms_view() == old(self).rooms_view(),
            final(self).counter() == old(self).counter(),
            has_key(old(self).sessions_view(), id@) ==> r == Err::<String, ChatServerError>(
                ChatServerError::RegistrationFailed,
            ) && final(self).sessions_view() == old(self).sessions_view(),
            !has_key(old(self).sessions_view(), id@) ==> (r matches Ok(s) && s@ == id@)
                && final(self).sessions_view() == old(self).sessions_view().push((id@, address)),
    {
        match find_key(&self.sessions, &id) {
            Some(i) => {
                assert(self.sessions_view()[i as int].0 == id@);
                Err(ChatServerError::RegistrationFailed)
            },
            None => {
                let ghost before = self.sessions_view();
                self.sessions.push((id.clone(), address));
                assert(self.sessions_view() =~= before.push((id@, address)));
                assert(self.rooms_inner_well_formed());
                Ok(id)
            },
        }
    }

    /// Registers a new session with its outbound address under the decimal text of
    /// the registry's counter, which then moves on by one. Fails when the counter is
    /// spent, or when that id is taken; a failure leaves the sessions as they were.
    pub fn connect(&mut self, address: u64) -> (r: Result<String, ChatServerError>)
        requires
            old(self).well_formed(),
        ensures
            final(self).well_formed(),
            final(self).rooms_view() == old(self).rooms_view(),
            old(self).counter() == u64::MAX ==> r == Err::<String, ChatServerError>(
                ChatServerError::RegistrationFailed,
            ) && final(self).sessions_view() == old(self).sessions_view() && final(self).counter()
                == old(self).counter(),
            old(self).counter() < u64::MAX ==> final(self).counter() == old(self).counter() + 1,
            old(self).counter() < u64::MAX && has_key(
                old(self).sessions_view(),
                decimal_of(old(self).counter() as u64),
            ) ==> r == Err::<String, ChatServerError>(ChatServerError::RegistrationFailed)
                && final(self).sessions_view() == old(self).sessions_view(),
            old(self).counter() < u64::MAX && !has_key(
                old(self).sessions_view(),
                decimal_of(old(self).counter() as u64),
            ) ==> (r matches Ok(id) && id@ == decimal_of(old(self).counter() as u64))
                && final(self).sessions_view() == old(self).sessions_view().push(
                (decimal_of(old(self).counter() as u64), address),
            ),
    {
        if self.next_id == u64::MAX {
            return Err(ChatServerError::RegistrationFailed);
        }
        let n = self.next_id;
        self.next_id = n + 1;
        let id = decimal_text(n);
        self.register(id, address)
    }

    /// Puts session `id` into room `room_name` under `username`, making the room if
    /// there is none of that name. A session already in that room is refused and nothing changes.
    pub fn join(&mut self, id: &str, room_name: &str, username: &str) -> (r: Result<(), ChatRoomError>)
        requires
            old(self).well_formed(),
        ensures
            final(self).well_formed(),
            final(self).sessions_view() == old(self).sessions_view(),
            final(self).counter() == old(self).counter(),
            match join_rooms(old(self).rooms_view(), id@, room_name@, username@) {
                Some(rs) => (r is Ok) && final(self).rooms_view() == rs,
                None => (r matches Err(ChatRoomError::DuplicateSessionId(s)) && s@ == id@)
                    && final(self).rooms_view() == old(self).rooms_view(),
            },
    {
        let name = room_name.to_string();
        let ghost before = self.rooms_view();
        match find_key(&self.rooms, &name) {
            Some(k) => {
                proof {
                    assert(before[k as int].0 == room_name@);
                    lemma_key_index_unique(before, room_name@, k as int);
                }
                let (rn, mut room) = self.rooms.remove(k);
                let res = room.add(id, username);
                self.rooms.insert(k, (rn, room));
                proof {
                    assert forall|i: int| 0 <= i < self.rooms@.len() implies (
                    #[trigger] self.rooms@[i]).1.well_formed() by {
                        if i != k {
                            assert(self.rooms@[i] == old(self).rooms@[i]);
                        }
                    }
                    assert(self.rooms_inner_well_formed());
                }
                match res {
                    Ok(()) => {
                        assert(self.rooms_view() =~= before.update(
                            k as int,
                            (room_name@, before[k as int].1.push((id@, username@))),
                        ));
                        proof {
                            let rs = self.rooms_view();
                            assert forall|i: int, j: int|
                                0 <= i < rs.len() && 0 <= j < rs.len() && i != j implies rs[i].0
                                != rs[j].0 by {
                                assert(before[i].0 != before[j].0);
                            }
                            assert forall|i: int| 0 <= i < rs.len() implies keys_distinct(
                                #[trigger] rs[i].1,
                            ) && rs[i].1.len() > 0 by {
                                if i != k {
                                    assert(rs[i] == before[i]);
                                }
                            }
                        }
                    },
                    Err(_) => {
                        assert(self.rooms_view() =~= before);
                    },
                }
                res
            },
            None => {
                let mut room = ChatRoom::new();
                let res = room.add(id, username);
                self.rooms.push((name, room));
                proof {
                    assert(self.rooms_view() =~= before.push((room_name@, seq![(id@, username@)])));
                    assert forall|i: int| 0 <= i < self.rooms@.len() implies (
                    #[trigger] self.rooms@[i]).1.well_formed() by {
                        if i < before.len() {
                            assert(self.rooms@[i] == old(self).rooms@[i]);
                        }
                    }
                    let rs = self.rooms_view();
                    assert forall|i: int, j: int|
                        0 <= i < rs.len() && 0 <= j < rs.len() && i != j implies rs[i].0
                        != rs[j].0 by {
                        if i < before.len() && j < before.len() {
                            assert(before[i].0 != before[j].0);
                        } else if i < before.len() {
                            assert(before[i].0 != room_name@);
                        } else {
                            assert(before[j].0 != room_name@);
                        }
                    }
                    assert forall|i: int| 0 <= i < rs.len() implies keys_distinct(
                        #[trigger] rs[i].1,
                    ) && rs[i].1.len() > 0 by {
                        if i < before.len() {
                            assert(rs[i] == before[i]);
                        }
                    }
                }
                res
            },
        }
    }

    /// Removes session `id` from the registry and from every room; rooms that this
    /// leaves empty are dropped.
    pub fn disconnect(&mut self, id: &str)
        requires
            old(self).well_formed(),
        ensures
            final(self).well_formed(),
            final(self).counter() == old(self).counter(),
            !has_key(final(self).sessions_view(), id@),
            has_key(old(self).sessions_view(), id@) ==> final(self).sessions_view() == old(
                self,
            ).sessions_view().remove(key_index(old(self).sessions_view(), id@)),
            !has_key(old(self).sessions_view(), id@) ==> final(self).sessions_view() == old(
                self,
            ).sessions_view(),
            final(self).rooms_view() == leave_all(old(self).rooms_view(), id@),
            forall|i: int|
                0 <= i < final(self).rooms_view().len() ==> !has_key(
                    #[trigger] final(self).rooms_view()[i].1,
                    id@,
                ),
    {
        let key = id.to_string();
        let ghost sv = self.sessions_view();
        match find_key(&self.sessions, &key) {
            Some(i) => {
                proof {
                    assert(sv[i as int].0 == id@);
                    lemma_key_index_unique(sv, id@, i as int);
                }
                self.sessions.remove(i);
                assert(self.sessions_view() =~= sv.remove(i as int));
                assert forall|j: int| 0 <= j < self.sessions_view().len() implies self.sessions_view()[j].0
                    != id@ by {
                    if j < i {
                        assert(self.sessions_view()[j] == sv[j]);
                    } else {
                        assert(self.sessions_view()[j] == sv[j + 1]);
                    }
                }
            },
            None => {
                assert(!has_key(sv, id@));
            },
        }
        let ghost sv2 = self.sessions_view();
        let ghost rv = self.rooms_view();
        let ghost n: int = rv.len() as int;
        let mut i: usize = 0;
        let ghost mut k: int = 0;
        proof {
            assert(rv.take(0) =~= RoomsView::empty());
            assert(rv.skip(0) =~= rv);
            assert(self.rooms_view() =~= leave_all(rv.take(0), id@) + rv.skip(0));
        }
        while i < self.rooms.len()
            invariant
                0 <= k <= n,
                self.rooms@.len() == i + n - k,
                n == rv.len(),
                rooms_well_formed(rv),
                self.sessions_view() == sv2,
                self.next_id == old(self).next_id,
                keys_distinct(self.sessions_view()),
                !has_key(self.sessions_view(), id@),
                i == leave_all(rv.take(k), id@).len(),
                self.rooms_view() == leave_all(rv.take(k), id@) + rv.skip(k),
                self.rooms_inner_well_formed(),
            decreases self.rooms@.len() - i,
        {
            proof {
                lemma_leave_all_len(rv.take(k), id@);
                assert(rv.take(k + 1).drop_last() =~= rv.take(k));
                assert(rv.take(k + 1).last() == rv[k]);
                assert(self.rooms_view()[i as int] == rv[k]);
            }
            let ghost prev = self.rooms@;
            let ghost pv = self.rooms_view();
            let (rn, mut room) = self.rooms.remove(i);
            room.remove(id);
            proof {
                assert(rn@ == rv[k].0);
                assert(room.view() == without(rv[k].1, id@));
                assert(rv.skip(k) =~= seq![rv[k]] + rv.skip(k + 1));
                assert(self.rooms_view() =~= pv.remove(i as int));
            }
            if room.is_empty() {
                proof {
                    assert(leave_all(rv.take(k + 1), id@) == leave_all(rv.take(k), id@));
                    assert(self.rooms_view() =~= leave_all(rv.take(k + 1), id@) + rv.skip(k + 1));
                    assert forall|j: int| 0 <= j < self.rooms@.len() implies (
                    #[trigger] self.rooms@[j]).1.well_formed() by {
                        if j < i {
                            assert(self.rooms@[j] == prev[j]);
                        } else {
                            assert(self.rooms@[j] == prev[j + 1]);
                        }
                    }
                }
            } else {
                let ghost mid = pv.remove(i as int);
                self.rooms.insert(i, (rn, room));
                proof {
                    assert(self.rooms_view() =~= mid.insert(i as int, (rv[k].0, without(rv[k].1, id@))));
                    assert(leave_all(rv.take(k + 1), id@) == leave_all(rv.take(k), id@).push(
                        (rv[k].0, without(rv[k].1, id@)),
                    ));
                    assert(self.rooms_view() =~= leave_all(rv.take(k + 1), id@) + rv.skip(k + 1));
                    assert forall|j: int| 0 <= j < self.rooms@.len() implies (
                    #[trigger] self.rooms@[j]).1.well_formed() by {
                        if j != i {
                            assert(self.rooms@[j] == prev[j]);
                        }
                    }
                }
                i = i + 1;
            }
            proof {
                k = k + 1;
            }
        }
        proof {
            assert(rv.take(n) =~= rv);
            assert(rv.skip(n) =~= RoomsView::empty());
            assert(self.rooms_view() =~= leave_all(rv, id@));
            lemma_leave_all_well_formed(rv, id@);
        }
    }

    /// A well-formed registry has well-formed rooms: distinct names, none empty, and
    /// no session twice in one.
    pub proof fn lemma_rooms_well_formed(&self)
        requires
            self.well_formed(),
        ensures
            rooms_well_formed(self.rooms_view()),
    {
    }

    /// Who a broadcast by session `id` reaches: every other member of each room it is
    /// in, with the address the registry holds for it. The sender is never among them.
    pub fn broadcast(&self, id: &str) -> (r: Vec<(String, u64)>)
        requires
            self.well_formed(),
        ensures
            table_view(r@) == broadcast_targets(self.rooms_view(), id@, self.sessions_view()),
    {
        let key = id.to_string();
        let mut ex: Vec<String> = Vec::new();
        ex.push(key);
        assert(crate::room::ids_view(ex@) =~= seq![id@]);
        let ghost rv = self.rooms_view();
        let mut out: Vec<(String, u64)> = Vec::new();
        let mut i: usize = 0;
        proof {
            assert(rv.take(0) =~= RoomsView::empty());
            assert(table_view(out@) =~= Seq::<(Seq<char>, u64)>::empty());
        }
        while i < self.rooms.len()
            invariant
                self.well_formed(),
                rv == self.rooms_view(),
                crate::room::ids_view(ex@) == seq![id@],
                i <= self.rooms.len(),
                table_view(out@) == broadcast_targets(rv.take(i as int), id@, self.sessions_view()),
            decreases self.rooms.len() - i,
        {
            let room = &self.rooms[i].1;
            proof {
                assert(rv.take(i + 1).drop_last() =~= rv.take(i as int));
                assert(rv.take(i + 1).last() == rv[i as int]);
                assert(rv[i as int].1 == room.view());
                assert(self.rooms@[i as int].1.well_formed());
            }
            let ghost before = table_view(out@);
            if room.get_username(id).is_some() {
                match room.broadcast_to_excluding(ex.as_slice(), Some(&self.sessions)) {
                    Ok(mut part) => {
                        let ghost pv = table_view(part@);
                        out.append(&mut part);
                        assert(table_view(out@) =~= before + pv);
                    },
                    Err(_) => {},
                }
            }
            i = i + 1;
        }
        proof {
            assert(rv.take(self.rooms@.len() as int) =~= rv);
        }
        out
    }

    /// Carries out one room operation: a join, or a broadcast to the sender's rooms.
    pub fn handle_command(&mut self, cmd: ChatRoomCommand) -> (r: Dispatch)
        requires
            old(self).well_formed(),
        ensures
            final(self).well_formed(),
            final(self).sessions_view() == old(self).sessions_view(),
            final(self).counter() == old(self).counter(),
            match cmd@ {
                ChatRoomCommandView::Join(u, room, name) => match join_rooms(
                    old(self).rooms_view(),
                    u,
                    room,
                    name,
                ) {
                    Some(rs) => (r is Joined) && final(self).rooms_view() == rs,
                    None => (r matches Dispatch::Rejected(ChatRoomError::DuplicateSessionId(s))
                        && s@ == u) && final(self).rooms_view() == old(self).rooms_view(),
                },
                ChatRoomCommandView::Broadcast(u, content) => (r matches Dispatch::Deliver {
                    recipients,
                    text,
                } && text@ == content && table_view(recipients@) == broadcast_targets(
                    old(self).rooms_view(),
                    u,
                    old(self).sessions_view(),
                )) && final(self).rooms_view() == old(self).rooms_view(),
            },
    {
        match cmd {
            ChatRoomCommand::Join { user_id, room_name, username } => {
                match self.join(user_id.as_str(), room_name.as_str(), username.as_str()) {
                    Ok(()) => Dispatch::Joined,
                    Err(e) => Dispatch::Rejected(e),
                }
            },
            ChatRoomCommand::BroadcastMessage { user_id, content } => {
                let recipients = self.broadcast(user_id.as_str());
                Dispatch::Deliver { recipients, text: content }
            },
        }
    }

    /// Answers a registration request, as `connect` does.
    pub fn handle(&mut self, msg: Connect) -> (r: Result<String, ChatServerError>)
        requires
            old(self).well_formed(),
        ensures
            final(self).well_formed(),
            final(self).rooms_view() == old(self).rooms_view(),
            old(self).counter() == u64::MAX ==> r == Err::<String, ChatServerError>(
                ChatServerError::RegistrationFailed,
            ) && final(self).sessions_view() == old(self).sessions_view() && final(self).counter()
                == old(self).counter(),
            old(self).counter() < u64::MAX ==> final(self).counter() == old(self).counter() + 1,
            old(self).counter() < u64::MAX && has_key(
                old(self).sessions_view(),
                decimal_of(old(self).counter() as u64),
            ) ==> r == Err::<String, ChatServerError>(ChatServerError::RegistrationFailed)
                && final(self).sessions_view() == old(self).sessions_view(),
            old(self).counter() < u64::MAX && !has_key(
                old(self).sessions_view(),
                decimal_of(old(self).counter() as u64),
            ) ==> (r matches Ok(id) && id@ == decimal_of(old(self).counter() as u64))
                && final(self).sessions_view() == old(self).sessions_view().push(
                (decimal_of(old(self).counter() as u64), msg.addr),
            ),
    {
        self.connect(msg.addr)
    }

    /// Whether `id` is a connected session.
    pub fn is_connected(&self, id: &str) -> (r: bool)
        ensures
            r == has_key(self.sessions_view(), id@),
    {
        let key = id.to_string();
        match find_key(&self.sessions, &key) {
            Some(i) => {
                assert(self.sessions_view()[i as int].0 == id@);
                true
            },
            None => false,
        }
    }

    /// The members of room `room_name` (session id and display name), or none if no
    /// such room stands.
    pub fn room_members(&self, room_name: &str) -> (r: Option<Vec<(String, String)>>)
        requires
            self.well_formed(),
        ensures
            match r {
                Some(v) => has_key(self.rooms_view(), room_name@)
                    && v@.map_values(|e: (String, String)| (e.0@, e.1@)) == self.rooms_view()[key_index(self.rooms_view(), room_name@)].1,
                None => !has_key(self.rooms_view(), room_name@),
            },
    {
        let key = room_name.to_string();
        match find_key(&self.rooms, &key) {
            Some(k) => {
                proof {
                    assert(self.rooms_view()[k as int].0 == room_name@);
                    lemma_key_index_unique(self.rooms_view(), room_name@, k as int);
                }
                Some(self.rooms[k].1.members())
            },
            None => {
                proof {
                    if has_key(self.rooms_view(), room_name@) {
                        let j = choose|j: int| 0 <= j < self.rooms_view().len() && self.rooms_view()[j].0 == room_name@;
                        assert(self.rooms@[j].0@ == room_name@);
                    }
                }
                None
            },
        }
    }

    /// The outbound address held for session `id`.
    pub fn address_of(&self, id: &str) -> (r: Option<u64>)
        requires
            self.well_formed(),
        ensures
            r == value_of(self.sessions_view(), id@),
    {
        let key = id.to_string();
        match find_key(&self.sessions, &key) {
            Some(i) => {
                proof {
                    assert(self.sessions_view()[i as int].0 == id@);
                    lemma_key_index_unique(self.sessions_view(), id@, i as int);
                }
                Some(self.sessions[i].1)
            },
            None => None,
        }
    }
}

} // verus!
