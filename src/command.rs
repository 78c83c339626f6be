//! The command protocol: one reassembled text segment becomes a typed command.
use vstd::prelude::*;
use crate::text::chars_of;

verus! {

broadcast use vstd::string::group_string_axioms;

/// A command sent by a client.
#[derive(Debug, PartialEq, Eq)]
pub enum UserCommand {
    /// `JOIN <room> <name>`: enter the named room under a display name.
    JoinChatRoom { room_name: String, username: String },
    /// Any other non-empty text: send it to the other members of the room.
    BroadcastMessage(String),
}

/// The text could not be read as a command of the grammar.
#[derive(Debug, PartialEq, Eq, Structural)]
pub enum CommandError {
    MalformedCommand,
}

/// The mathematical value of a command.
pub enum CommandView {
    Join(Seq<char>, Seq<char>),
    Broadcast(Seq<char>),
}

impl View for UserCommand {
    type V = CommandView;

    open spec fn view(&self) -> CommandView {
        match self {
            UserCommand::JoinChatRoom { room_name, username } => CommandView::Join(
                room_name@,
                username@,
            ),
            UserCommand::BroadcastMessage(c) => CommandView::Broadcast(c@),
        }
    }
}

/// The keyword of the join command.
pub open spec fn join_keyword() -> Seq<char> {
    seq!['J', 'O', 'I', 'N']
}

/// A non-empty run of characters without a space.
pub open spec fn is_word(w: Seq<char>) -> bool {
    w.len() > 0 && forall|i: int| 0 <= i < w.len() ==> w[i] != ' '
}

/// The first word of `s` is the join keyword.
pub open spec fn names_join(s: Seq<char>) -> bool {
    s.len() >= 4 && s.take(4) == join_keyword() && (s.len() == 4 || s[4] == ' ')
}

/// `s` is the join command for `room` and `name`.
pub open spec fn is_join_of(s: Seq<char>, room: Seq<char>, name: Seq<char>) -> bool {
    is_word(room) && is_word(name) && s == join_keyword() + seq![' '] + room + seq![' '] + name
}

/// The command that `s` denotes, or `None` where it is malformed.
pub open spec fn command_of(s: Seq<char>) -> Option<CommandView> {
    if s.len() == 0 {
        None
    } else if !names_join(s) {
        Some(CommandView::Broadcast(s))
    } else if exists|a: Seq<char>, b: Seq<char>| is_join_of(s, a, b) {
        let (a, b) = choose|a: Seq<char>, b: Seq<char>| is_join_of(s, a, b);
        Some(CommandView::Join(a, b))
    } else {
        None
    }
}

/// A join command splits its text in one way only.
pub proof fn lemma_join_unique(s: Seq<char>, a: Seq<char>, b: Seq<char>, c: Seq<char>, d: Seq<char>)
    requires
        is_join_of(s, a, b),
        is_join_of(s, c, d),
    ensures
        a == c,
        b == d,
{
    assert(forall|i: int| 0 <= i < a.len() ==> s[5 + i] == a[i]);
    assert(forall|i: int| 0 <= i < c.len() ==> s[5 + i] == c[i]);
    assert(s[5 + a.len() as int] == ' ');
    assert(s[5 + c.len() as int] == ' ');
    if a.len() < c.len() {
        assert(s[5 + a.len() as int] == c[a.len() as int]);
    } else if c.len() < a.len() {
        assert(s[5 + c.len() as int] == a[c.len() as int]);
    }
    assert(a =~= c);
    assert(b =~= s.skip(6 + a.len() as int));
    assert(d =~= s.skip(6 + c.len() as int));
}

/// Whether `v` holds `[' ']` nowhere in `lo..hi`.
spec fn no_space(v: Seq<char>, lo: int, hi: int) -> bool {
    forall|j: int| lo <= j < hi ==> v[j] != ' '
}

/// Reads one segment of client text as a command.
pub fn parse_command(s: &str) -> (r: Result<UserCommand, CommandError>)
    ensures
        match r {
            Ok(c) => command_of(s@) == Some(c@),
            Err(_) => command_of(s@) is None,
        },
{
    let v = chars_of(s);
    let n = v.len();
    if n == 0 {
        return Err(CommandError::MalformedCommand);
    }
    let kw = n >= 4 && v[0] == 'J' && v[1] == 'O' && v[2] == 'I' && v[3] == 'N' && (n == 4
        || v[4] == ' ');
    proof {
        if kw {
            assert(s@.take(4) =~= join_keyword());
        } else if names_join(s@) {
            assert(s@.take(4)[0] == 'J' && s@.take(4)[1] == 'O' && s@.take(4)[2] == 'I'
                && s@.take(4)[3] == 'N');
        }
    }
    if !kw {
        return Ok(UserCommand::BroadcastMessage(s.to_string()));
    }
    // Position of the space between room and name, and whether another one follows.
    let mut first: Option<usize> = None;
    let mut extra = false;
    let mut i: usize = 5;
    while i < n
        invariant
            v@ == s@,
            n == v.len(),
            5 <= i,
            n > 4 ==> i <= n,
            match first {
                None => no_space(v@, 5, i as int),
                Some(k) => 5 <= k < i && v@[k as int] == ' ' && no_space(v@, 5, k as int) && (
                !extra ==> no_space(v@, k + 1, i as int)) && (extra ==> exists|j: int|
                    k < j < i && v@[j] == ' '),
            },
            first is None ==> !extra,
        decreases n - i,
    {
        if v[i] == ' ' {
            match first {
                None => {
                    first = Some(i);
                },
                Some(k) => {
                    extra = true;
                    assert(k < i && v@[i as int] == ' ');
                },
            }
        }
        i = i + 1;
    }
    match first {
        Some(k) => {
            if !extra && k > 5 && k + 1 < n {
                let room = s.substring_char(5, k).to_string();
                let name = s.substring_char(k + 1, n).to_string();
                proof {
                    assert(is_word(room@));
                    assert(is_word(name@));
                    assert(s@ =~= join_keyword() + seq![' '] + room@ + seq![' '] + name@);
                    assert(is_join_of(s@, room@, name@));
                    let (a, b) = choose|a: Seq<char>, b: Seq<char>| is_join_of(s@, a, b);
                    lemma_join_unique(s@, a, b, room@, name@);
                }
                return Ok(UserCommand::JoinChatRoom { room_name: room, username: name });
            }
        },
        None => {},
    }
    proof {
        assert forall|a: Seq<char>, b: Seq<char>| !is_join_of(s@, a, b) by {
            if is_join_of(s@, a, b) {
                assert(forall|t: int| 0 <= t < a.len() ==> s@[5 + t] == a[t]);
                assert(forall|t: int| 0 <= t < b.len() ==> s@[6 + a.len() + t] == b[t]);
                assert(s@[5 + a.len() as int] == ' ');
                let p = 5 + a.len() as int;
                match first {
                    None => {},
                    Some(k) => {
                        if (k as int) < p {
                            assert(s@[k as int] == a[k - 5]);
                        } else if (k as int) > p {
                        } else {
                            if extra {
                                let j = choose|j: int| k < j < n && v@[j] == ' ';
                                assert(s@[j] == b[j - 6 - a.len()]);
                            }
                        }
                    },
                }
            }
        }
    }
    Err(CommandError::MalformedCommand)
}

} // verus!
