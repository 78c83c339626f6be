//! One chat room: the members present, each under a display name.
use vstd::prelude::*;
use crate::table::{
    TableView, find_key, has_key, key_index, keys_distinct, table_view, value_of,
    lemma_key_index_unique,
};

verus! {

/// Why a room refused an operation.
#[derive(Debug, PartialEq, Eq)]
pub enum ChatRoomError {
    /// The session is already a member of the room.
    DuplicateSessionId(String),
    /// The registry that resolves addresses is gone.
    NoServer,
}

/// The members of one room: session id and display name, in order of joining.
pub struct ChatRoom {
    store: Vec<(String, String)>,
}

/// Whether `id` is in the exclusion list `ex`.
pub open spec fn excluded(ex: Seq<Seq<char>>, id: Seq<char>) -> bool {
    ex.contains(id)
}

/// The texts of a list of session ids.
pub open spec fn ids_view(ex: Seq<String>) -> Seq<Seq<char>> {
    ex.map_values(|s: String| s@)
}

/// Where a member of a room is reached, unless excluded or unknown to the registry.
pub open spec fn recipient_of(
    ex: Seq<Seq<char>>,
    sessions: TableView<u64>,
    member: (Seq<char>, Seq<char>),
) -> Option<(Seq<char>, u64)> {
    if excluded(ex, member.0) {
        None
    } else {
        match value_of(sessions, member.0) {
            Some(a) => Some((member.0, a)),
            None => None,
        }
    }
}

/// `recipient_of` with the exclusions and the registry fixed.
pub open spec fn recipient_fn(ex: Seq<Seq<char>>, sessions: TableView<u64>) -> spec_fn(
    (Seq<char>, Seq<char>),
) -> Option<(Seq<char>, u64)> {
    |m: (Seq<char>, Seq<char>)| recipient_of(ex, sessions, m)
}

/// The session ids and addresses that a broadcast excluding `ex` reaches, in member order.
pub open spec fn recipients(
    members: TableView<Seq<char>>,
    ex: Seq<Seq<char>>,
    sessions: TableView<u64>,
) -> Seq<(Seq<char>, u64)> {
    members.filter_map(recipient_fn(ex, sessions))
}

proof fn lemma_filter_map_keeps<A, B>(s: Seq<A>, f: spec_fn(A) -> Option<B>, t: A, e: B)
    requires
        s.contains(t),
        f(t) == Some(e),
    ensures
        s.filter_map(f).contains(e),
    decreases s.len(),
{
    let rest = s.drop_last();
    if s.last() == t {
        assert(s.filter_map(f) == rest.filter_map(f) + seq![e]);
        assert(s.filter_map(f)[rest.filter_map(f).len() as int] == e);
    } else {
        let i = choose|i: int| 0 <= i < s.len() && s[i] == t;
        assert(rest[i] == t);
        lemma_filter_map_keeps(rest, f, t, e);
        let j = choose|j: int| 0 <= j < rest.filter_map(f).len() && rest.filter_map(f)[j] == e;
        match f(s.last()) {
            Some(x) => {
                assert(s.filter_map(f) == rest.filter_map(f) + seq![x]);
                assert(s.filter_map(f)[j] == e);
            },
            None => {},
        }
    }
}

/// A broadcast that excludes its sender reaches every other member that the
/// registry knows, at the address the registry holds for it, and never the sender.
pub proof fn lemma_broadcast_reaches_others(
    members: TableView<Seq<char>>,
    sender: Seq<char>,
    sessions: TableView<u64>,
)
    ensures
        forall|i: int|
            0 <= i < recipients(members, seq![sender], sessions).len() ==> (#[trigger] recipients(
                members,
                seq![sender],
                sessions,
            )[i]).0 != sender,
        forall|m: (Seq<char>, Seq<char>), a: u64|
            members.contains(m) && m.0 != sender && value_of(sessions, m.0) == Some(a)
                ==> #[trigger] recipients(members, seq![sender], sessions).contains((m.0, a)),
{
    let f = recipient_fn(seq![sender], sessions);
    let r = recipients(members, seq![sender], sessions);
    assert forall|i: int| 0 <= i < r.len() implies (#[trigger] r[i]).0 != sender by {
        assert(r.contains(r[i]));
        members.lemma_filter_map_contains(f, r[i]);
        let t = choose|t: (Seq<char>, Seq<char>)| members.contains(t) && f(t) == Some(r[i]);
        assert(!seq![sender].contains(t.0));
        assert(seq![sender][0] == sender);
    }
    assert forall|m: (Seq<char>, Seq<char>), a: u64|
        members.contains(m) && m.0 != sender && value_of(sessions, m.0) == Some(a) implies #[trigger] r.contains(
        (m.0, a),
    ) by {
        assert(!seq![sender].contains(m.0));
        assert(f(m) == Some((m.0, a)));
        lemma_filter_map_keeps(members, f, m, (m.0, a));
    }
}

impl ChatRoom {
    /// The members, in order of joining.
    pub closed spec fn view(&self) -> TableView<Seq<char>> {
        self.store@.map_values(|e: (String, String)| (e.0@, e.1@))
    }

    /// No session is a member twice.
    pub open spec fn well_formed(&self) -> bool {
        keys_distinct(self.view())
    }

    /// An empty room.
    pub fn new() -> (r: Self)
        ensures
            r.well_formed(),
            r.view() == Seq::<(Seq<char>, Seq<char>)>::empty(),
    {
        let r = ChatRoom { store: Vec::new() };
        assert(r.view() =~= Seq::<(Seq<char>, Seq<char>)>::empty());
        r
    }

    /// The display name under which `user_id` is a member.
    pub fn get_username(&self, user_id: &str) -> (r: Option<String>)
        requires
            self.well_formed(),
        ensures
            match r {
                Some(n) => value_of(self.view(), user_id@) == Some(n@),
                None => value_of(self.view(), user_id@) is None,
            },
    {
        let key = user_id.to_string();
        match find_key(&self.store, &key) {
            Some(i) => {
                proof {
                    assert(self.view()[i as int].0 == user_id@);
                    lemma_key_index_unique(self.view(), user_id@, i as int);
                }
                Some(self.store[i].1.clone())
            },
            None => {
                proof {
                    self.lemma_absent(user_id@);
                }
                None
            },
        }
    }

    proof fn lemma_absent(&self, k: Seq<char>)
        requires
            forall|j: int| 0 <= j < self.store@.len() ==> self.store@[j].0@ != k,
        ensures
            !has_key(self.view(), k),
    {
        if has_key(self.view(), k) {
            let j = choose|j: int| 0 <= j < self.view().len() && self.view()[j].0 == k;
            assert(self.store@[j].0@ == k);
        }
    }

    /// The members, in order of joining.
    pub fn members(&self) -> (r: Vec<(String, String)>)
        ensures
            r@.map_values(|e: (String, String)| (e.0@, e.1@)) == self.view(),
    {
        let mut out: Vec<(String, String)> = Vec::new();
        let mut i: usize = 0;
        while i < self.store.len()
            invariant
                i <= self.store.len(),
                out@.map_values(|e: (String, String)| (e.0@, e.1@)) == self.view().take(i as int),
            decreases self.store.len() - i,
        {
            let ghost before = out@.map_values(|e: (String, String)| (e.0@, e.1@));
            let a = self.store[i].0.clone();
            let b = self.store[i].1.clone();
            out.push((a, b));
            assert(out@.map_values(|e: (String, String)| (e.0@, e.1@)) =~= before.push(
                (self.store@[i as int].0@, self.store@[i as int].1@),
            ));
            assert(out@.map_values(|e: (String, String)| (e.0@, e.1@)) =~= self.view().take(i + 1));
            i = i + 1;
        }
        assert(self.view().take(i as int) =~= self.view());
        out
    }

    /// Whether the room has no member.
    pub fn is_empty(&self) -> (r: bool)
        ensures
            r == (self.view().len() == 0),
    {
        self.store.len() == 0
    }

    /// Adds `user_id` under `username`; a session already present is refused and nothing changes.
    pub fn add(&mut self, user_id: &str, username: &str) -> (r: Result<(), ChatRoomError>)
        requires
            old(self).well_formed(),
        ensures
            final(self).well_formed(),
            has_key(old(self).view(), user_id@) ==> (r matches Err(
                ChatRoomError::DuplicateSessionId(s),
            ) && s@ == user_id@) && final(self).view() == old(self).view(),
            !has_key(old(self).view(), user_id@) ==> r is Ok && final(self).view() == old(
                self,
            ).view().push((user_id@, username@)),
    {
        let key = user_id.to_string();
        match find_key(&self.store, &key) {
            Some(i) => {
                proof {
                    assert(self.view()[i as int].0 == user_id@);
                }
                Err(ChatRoomError::DuplicateSessionId(key))
            },
            None => {
                proof {
                    self.lemma_absent(user_id@);
                }
                let ghost before = self.view();
                self.store.push((key, username.to_string()));
                assert(self.view() =~= before.push((user_id@, username@)));
                Ok(())
            },
        }
    }

    /// Takes `user_id` out of the room; an absent id changes nothing.
    pub fn remove(&mut self, user_id: &str)
        requires
            old(self).well_formed(),
        ensures
            final(self).well_formed(),
            !has_key(final(self).view(), user_id@),
            has_key(old(self).view(), user_id@) ==> final(self).view() == old(self).view().remove(
                key_index(old(self).view(), user_id@),
            ),
            !has_key(old(self).view(), user_id@) ==> final(self).view() == old(self).view(),
    {
        let key = user_id.to_string();
        let ghost before = self.view();
        match find_key(&self.store, &key) {
            Some(i) => {
                proof {
                    assert(before[i as int].0 == user_id@);
                    lemma_key_index_unique(before, user_id@, i as int);
                }
                self.store.remove(i);
                assert(self.view() =~= before.remove(i as int));
                assert(key_index(before, user_id@) == i);
                assert forall|j: int| 0 <= j < self.view().len() implies self.view()[j].0
                    != user_id@ by {
                    if j < i {
                        assert(self.view()[j] == before[j]);
                    } else {
                        assert(self.view()[j] == before[j + 1]);
                    }
                }
            },
            None => {
                proof {
                    self.lemma_absent(user_id@);
                }
            },
        }
    }

    /// The members to reach for a broadcast that excludes `excluding`, each with the
    /// address that `sessions` gives it; members that `sessions` does not know are
    /// passed over. With no registry (`None`) nothing is reached and `NoServer` comes back.
    pub fn broadcast_to_excluding(
        &self,
        excluding: &[String],
        sessions: Option<&Vec<(String, u64)>>,
    ) -> (r: Result<Vec<(String, u64)>, ChatRoomError>)
        requires
            self.well_formed(),
            sessions matches Some(t) ==> keys_distinct(table_view(t@)),
        ensures
            sessions is None ==> r == Err::<Vec<(String, u64)>, ChatRoomError>(
                ChatRoomError::NoServer,
            ),
            sessions matches Some(t) ==> (r matches Ok(out) && table_view(out@) == recipients(
                self.view(),
                ids_view(excluding@),
                table_view(t@),
            )),
    {
        let table = match sessions {
            Some(t) => t,
            None => {
                return Err(ChatRoomError::NoServer);
            },
        };
        let ghost f = recipient_fn(ids_view(excluding@), table_view(table@));
        let mut out: Vec<(String, u64)> = Vec::new();
        let mut i: usize = 0;
        assert(self.view().take(0) =~= Seq::<(Seq<char>, Seq<char>)>::empty());
        assert(table_view(out@) =~= Seq::<(Seq<char>, u64)>::empty());
        while i < self.store.len()
            invariant
                i <= self.store.len(),
                keys_distinct(table_view(table@)),
                f == recipient_fn(ids_view(excluding@), table_view(table@)),
                table_view(out@) == self.view().take(i as int).filter_map(f),
            decreases self.store.len() - i,
        {
            let id = &self.store[i].0;
            proof {
                self.view().lemma_filter_map_take_succ(f, i as int);
            }
            let ghost before = table_view(out@);
            assert(self.view()[i as int].0 == id@);
            let ghost m = self.view()[i as int];
            if !is_excluded(excluding, id) {
                match find_key(table, id) {
                    Some(k) => {
                        proof {
                            assert(table_view(table@)[k as int].0 == id@);
                            lemma_key_index_unique(table_view(table@), id@, k as int);
                        }
                        out.push((id.clone(), table[k].1));
                        assert(f(m) == Some((id@, table@[k as int].1)));
                        assert(table_view(out@) =~= before + seq![(id@, table@[k as int].1)]);
                    },
                    None => {
                        assert(f(m) is None);
                        assert(before + Seq::<(Seq<char>, u64)>::empty() =~= before);
                    },
                }
            } else {
                assert(f(m) is None);
                assert(before + Seq::<(Seq<char>, u64)>::empty() =~= before);
            }
            i = i + 1;
        }
        proof {
            assert(self.view().take(self.store.len() as int) =~= self.view());
        }
        Ok(out)
    }
}

/// Whether `id` is one of `ex`.
fn is_excluded(ex: &[String], id: &String) -> (r: bool)
    ensures
        r == excluded(ids_view(ex@), id@),
{
    let mut i: usize = 0;
    while i < ex.len()
        invariant
            i <= ex.len(),
            forall|j: int| 0 <= j < i ==> ex@[j]@ != id@,
        decreases ex.len() - i,
    {
        if ex[i] == *id {
            assert(ids_view(ex@)[i as int] == id@);
            return true;
        }
        i = i + 1;
    }
    proof {
        if ids_view(ex@).contains(id@) {
            let j = choose|j: int| 0 <= j < ids_view(ex@).len() && ids_view(ex@)[j] == id@;
            assert(ex@[j]@ == id@);
        }
    }
    false
}

} // verus!
