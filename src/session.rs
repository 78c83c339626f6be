//! The per-connection session: registration, liveness, frame reassembly and the
//! turning of client text into room operations. Each method takes one event and
//! returns what the connection must do next.
use vstd::prelude::*;
use crate::command::{CommandView, UserCommand, command_of, parse_command};
use crate::server::{
    ChatRoomCommand, ChatRoomCommandView, ChatServerError, RoomsView, leave_all, rooms_well_formed,
    lemma_leave_all_well_formed,
};
use crate::table::has_key;
use crate::text::{split_on_delimiter, split_segments};

verus! {

/// How often, in milliseconds, the connection's liveness is checked.
pub const HEARTBEAT_INTERVAL_MS: u64 = 5000;

/// How long, in milliseconds, a connection may stay silent before it is closed.
pub const CLIENT_TIMEOUT_MS: u64 = 10000;

/// The reply to a message that holds a malformed command.
pub open spec fn error_reply() -> Seq<char> {
    seq!['E', 'R', 'R', 'O', 'R', '<', 'N', 'L', '>']
}

/// What the lossy UTF-8 decoding of `b` gives.
pub uninterp spec fn lossy_text(b: Seq<u8>) -> Seq<char>;

/// The characters that ASCII bytes stand for.
pub open spec fn ascii_chars(b: Seq<u8>) -> Seq<char> {
    b.map_values(|x: u8| x as char)
}

/// Every byte of `b` is ASCII.
pub open spec fn all_ascii(b: Seq<u8>) -> bool {
    forall|i: int| 0 <= i < b.len() ==> b[i] < 128
}

/// Relies on `String::from_utf8_lossy`: invalid sequences become U+FFFD, and valid
/// UTF-8 (ASCII in particular) is kept as it is.
#[verifier::external_body]
fn decode_lossy(b: &[u8]) -> (r: String)
    ensures
        r@ == lossy_text(b@),
        all_ascii(b@) ==> r@ == ascii_chars(b@),
{
    String::from_utf8_lossy(b).into_owned()
}

/// The life of a connection.
#[derive(Clone, Copy, Debug, PartialEq, Eq, Structural)]
pub enum Phase {
    /// Waiting for the registry to assign an id.
    Connecting,
    /// Registered and taking frames.
    Active,
    /// Being shut down; no more frames are taken.
    Closing,
    /// Shut down; the registry has been told.
    Closed,
}

/// One frame from the transport.
#[derive(Debug, PartialEq, Eq)]
pub enum Frame {
    /// A whole text message.
    Text(String),
    /// The first piece of a fragmented text message.
    FragmentFirst(Vec<u8>),
    /// The first piece of a fragmented binary message, which is not taken.
    FragmentFirstBinary(Vec<u8>),
    /// A middle piece of a fragmented message.
    FragmentContinue(Vec<u8>),
    /// The last piece of a fragmented message.
    FragmentLast(Vec<u8>),
    /// A liveness probe from the peer.
    Ping(Vec<u8>),
    /// The peer closes the connection.
    Close,
    /// Any other frame, which only counts as activity.
    Other,
}

/// What the connection must do.
#[derive(Debug, PartialEq, Eq)]
pub enum Action {
    /// Hand the operation to the registry.
    Forward(ChatRoomCommand),
    /// Send this text to the peer.
    Reply(String),
    /// Answer a ping with these bytes.
    Pong(Vec<u8>),
    /// Send a liveness probe to the peer.
    Ping,
    /// Stop the connection.
    Close,
}

/// The mathematical value of an action.
pub enum ActionView {
    Forward(ChatRoomCommandView),
    Reply(Seq<char>),
    Pong(Seq<u8>),
    Ping,
    Close,
}

impl View for Action {
    type V = ActionView;

    open spec fn view(&self) -> ActionView {
        match self {
            Action::Forward(c) => ActionView::Forward(c@),
            Action::Reply(t) => ActionView::Reply(t@),
            Action::Pong(b) => ActionView::Pong(b@),
            Action::Ping => ActionView::Ping,
            Action::Close => ActionView::Close,
        }
    }
}

/// The values of a list of actions.
pub open spec fn actions_view(v: Seq<Action>) -> Seq<ActionView> {
    v.map_values(|a: Action| a@)
}

/// The room operation that a command of session `id` becomes.
pub open spec fn server_command_of(id: Seq<char>, c: CommandView) -> ChatRoomCommandView {
    match c {
        CommandView::Join(room, name) => ChatRoomCommandView::Join(id, room, name),
        CommandView::Broadcast(content) => ChatRoomCommandView::Broadcast(id, content),
    }
}

/// The actions for the segments `segs` of a message, for a session with id `id`:
/// each command is forwarded (or dropped while there is no id), and the first
/// segment that is not a command (an empty one included) gives the error reply and
/// ends the message.
pub open spec fn segment_actions(id: Option<Seq<char>>, segs: Seq<Seq<char>>) -> Seq<ActionView>
    decreases segs.len(),
{
    if segs.len() == 0 {
        Seq::empty()
    } else {
        match command_of(segs[0]) {
            None => seq![ActionView::Reply(error_reply())],
            Some(c) => match id {
                Some(u) => seq![ActionView::Forward(server_command_of(u, c))] + segment_actions(
                    id,
                    segs.skip(1),
                ),
                None => segment_actions(id, segs.skip(1)),
            },
        }
    }
}

/// The actions for a whole reassembled message.
pub open spec fn message_actions(id: Option<Seq<char>>, text: Seq<char>) -> Seq<ActionView> {
    segment_actions(id, split_segments(text))
}

/// Time passed from `last` to `now`; a clock that went back counts as none.
pub open spec fn elapsed(last: u64, now: u64) -> int {
    if now >= last {
        now - last
    } else {
        0
    }
}

/// The phase after a liveness check at `now`, and the action it calls for.
pub open spec fn heartbeat_outcome(phase: Phase, last: u64, now: u64) -> (Phase, ActionView) {
    if phase == Phase::Closing || phase == Phase::Closed {
        (phase, ActionView::Close)
    } else if elapsed(last, now) > CLIENT_TIMEOUT_MS {
        (Phase::Closing, ActionView::Close)
    } else {
        (phase, ActionView::Ping)
    }
}

/// The id that a stop hands to the registry: the assigned one, unless the session
/// was stopped before.
pub open spec fn disconnect_outcome(phase: Phase, id: Option<Seq<char>>) -> Option<Seq<char>> {
    if phase == Phase::Closed {
        None
    } else {
        id
    }
}

/// A registered session that stays silent for longer than the timeout is stopped
/// at the next liveness check; the stop hands its id to the registry, a later stop
/// hands over nothing, and once the registry has dropped the id no room holds it.
pub proof fn lemma_silent_session_leaves(
    last: u64,
    now: u64,
    id: Seq<char>,
    rooms: RoomsView,
)
    requires
        elapsed(last, now) > CLIENT_TIMEOUT_MS,
        rooms_well_formed(rooms),
    ensures
        heartbeat_outcome(Phase::Active, last, now) == (Phase::Closing, ActionView::Close),
        disconnect_outcome(Phase::Closing, Some(id)) == Some(id),
        disconnect_outcome(Phase::Closed, Some(id)) is None,
        forall|i: int|
            0 <= i < leave_all(rooms, id).len() ==> !has_key(#[trigger] leave_all(rooms, id)[i].1, id),
{
    lemma_leave_all_well_formed(rooms, id);
}

/// The buffer and the actions after one piece of a fragmented message arrives in
/// buffer `buf`: first and middle pieces are only kept; the last one completes the
/// message, which is decoded and handled, and empties the buffer.
pub open spec fn chunk_step(id: Option<Seq<char>>, buf: Seq<u8>, item: Frame) -> (
    Seq<u8>,
    Seq<ActionView>,
) {
    match item {
        Frame::FragmentFirst(b) => (buf + b@, Seq::empty()),
        Frame::FragmentContinue(b) => (buf + b@, Seq::empty()),
        Frame::FragmentLast(b) => (Seq::empty(), message_actions(id, lossy_text(buf + b@))),
        _ => (buf, Seq::empty()),
    }
}

/// A message sent in three pieces is handled once and whole: the first and middle
/// pieces do nothing, and the last hands the decoded text of all the pieces joined
/// to the command handling.
pub proof fn lemma_fragments_reassemble(
    id: Option<Seq<char>>,
    a: Vec<u8>,
    b: Vec<u8>,
    c: Vec<u8>,
)
    ensures
        chunk_step(id, Seq::empty(), Frame::FragmentFirst(a)) == (a@, Seq::<ActionView>::empty()),
        chunk_step(id, a@, Frame::FragmentContinue(b)) == (a@ + b@, Seq::<ActionView>::empty()),
        chunk_step(id, a@ + b@, Frame::FragmentLast(c)) == (
            Seq::<u8>::empty(),
            message_actions(id, lossy_text(a@ + b@ + c@)),
        ),
{
    assert(Seq::<u8>::empty() + a@ =~= a@);
}

/// The state of one connection.
pub struct User {
    id: Option<String>,
    last_heartbeat_time: u64,
    buffer: Vec<u8>,
    phase: Phase,
}

impl User {
    /// The id the registry assigned, if any.
    pub closed spec fn id_view(&self) -> Option<Seq<char>> {
        match self.id {
            Some(s) => Some(s@),
            None => None,
        }
    }

    /// When the last frame came, in milliseconds.
    pub closed spec fn last_seen(&self) -> u64 {
        self.last_heartbeat_time
    }

    /// The bytes of a fragmented message received so far.
    pub closed spec fn buffer_view(&self) -> Seq<u8> {
        self.buffer@
    }

    /// Where the connection stands in its life.
    pub closed spec fn phase_view(&self) -> Phase {
        self.phase
    }

    /// A new connection at time `now`, not yet registered.
    pub fn new(now: u64) -> (r: Self)
        ensures
            r.id_view() is None,
            r.last_seen() == now,
            r.buffer_view() == Seq::<u8>::empty(),
            r.phase_view() == Phase::Connecting,
    {
        User { id: None, last_heartbeat_time: now, buffer: Vec::new(), phase: Phase::Connecting }
    }

    /// The id the registry assigned, if any.
    pub fn id(&self) -> (r: Option<String>)
        ensures
            match r {
                Some(s) => self.id_view() == Some(s@),
                None => self.id_view() is None,
            },
    {
        match &self.id {
            Some(s) => Some(s.clone()),
            None => None,
        }
    }

    /// Where the connection stands in its life.
    pub fn phase(&self) -> (r: Phase)
        ensures
            r == self.phase_view(),
    {
        self.phase
    }

    /// The periodic liveness check at time `now`: a connection silent for longer than
    /// the timeout is stopped (and so is one already shutting down); otherwise the peer
    /// is probed.
    pub fn heartbeat(&mut self, now: u64) -> (r: Action)
        ensures
            final(self).id_view() == old(self).id_view(),
            final(self).last_seen() == old(self).last_seen(),
            final(self).buffer_view() == old(self).buffer_view(),
            (final(self).phase_view(), r@) == heartbeat_outcome(
                old(self).phase_view(),
                old(self).last_seen(),
                now,
            ),
    {
        if self.phase == Phase::Closing || self.phase == Phase::Closed {
            return Action::Close;
        }
        let time_diff: u64 = if now >= self.last_heartbeat_time {
            now - self.last_heartbeat_time
        } else {
            0
        };
        if time_diff > CLIENT_TIMEOUT_MS {
            self.phase = Phase::Closing;
            return Action::Close;
        }
        Action::Ping
    }

    /// Takes the registry's answer to the registration request. While connecting, an
    /// id makes the session active and a failure starts the shutdown; in any other
    /// phase the answer changes nothing. Returns whether the session is now active.
    pub fn connect_to_chat_server(&mut self, response: Result<String, ChatServerError>) -> (r:
        bool)
        ensures
            final(self).last_seen() == old(self).last_seen(),
            final(self).buffer_view() == old(self).buffer_view(),
            old(self).phase_view() == Phase::Connecting ==> match response {
                Ok(s) => r && final(self).id_view() == Some(s@) && final(self).phase_view()
                    == Phase::Active,
                Err(_) => !r && final(self).id_view() == old(self).id_view()
                    && final(self).phase_view() == Phase::Closing,
            },
            old(self).phase_view() != Phase::Connecting ==> !r && final(self).id_view() == old(
                self,
            ).id_view() && final(self).phase_view() == old(self).phase_view(),
    {
        if self.phase != Phase::Connecting {
            return false;
        }
        match response {
            Ok(session_id) => {
                self.id = Some(session_id);
                self.phase = Phase::Active;
                true
            },
            Err(_) => {
                self.phase = Phase::Closing;
                false
            },
        }
    }

    /// The room operation that `session_command` becomes for this session; none while
    /// no id is assigned.
    pub fn map_to_server_command(&self, session_command: UserCommand) -> (r: Option<
        ChatRoomCommand,
    >)
        ensures
            match self.id_view() {
                Some(u) => r matches Some(c) && c@ == server_command_of(u, session_command@),
                None => r is None,
            },
    {
        let user_id = match &self.id {
            Some(s) => s.clone(),
            None => {
                return None;
            },
        };
        match session_command {
            UserCommand::JoinChatRoom { room_name, username } => Some(
                ChatRoomCommand::Join { user_id, room_name, username },
            ),
            UserCommand::BroadcastMessage(content) => Some(
                ChatRoomCommand::BroadcastMessage { user_id, content },
            ),
        }
    }

    /// The actions for one reassembled message: it is cut at each delimiter and each
    /// segment handled in order, as `message_actions` says.
    pub fn handle_complete_message(&self, text: &str) -> (r: Vec<Action>)
        ensures
            actions_view(r@) == message_actions(self.id_view(), text@),
    {
        let segs = split_on_delimiter(text);
        let ghost sv = segs@.map_values(|x: String| x@);
        let ghost id = self.id_view();
        let mut out: Vec<Action> = Vec::new();
        let mut j: usize = 0;
        proof {
            assert(sv.skip(0) =~= sv);
            assert(actions_view(out@) =~= Seq::<ActionView>::empty());
        }
        while j < segs.len()
            invariant
                sv == segs@.map_values(|x: String| x@),
                sv == split_segments(text@),
                id == self.id_view(),
                j <= segs.len(),
                segment_actions(id, sv) == actions_view(out@) + segment_actions(id, sv.skip(j as int)),
            decreases segs.len() - j,
        {
            let seg = segs[j].as_str();
            let ghost rest = sv.skip(j + 1);
            let ghost before = actions_view(out@);
            proof {
                assert(sv.skip(j as int)[0] == seg@);
                assert(sv.skip(j as int).skip(1) =~= rest);
            }
            match parse_command(seg) {
                Ok(cmd) => {
                    match self.map_to_server_command(cmd) {
                        Some(c) => {
                            out.push(Action::Forward(c));
                            assert(actions_view(out@) =~= before.push(ActionView::Forward(c@)));
                            assert(before + (seq![ActionView::Forward(c@)] + segment_actions(id, rest))
                                =~= before.push(ActionView::Forward(c@)) + segment_actions(id, rest));
                        },
                        None => {},
                    }
                },
                Err(_) => {
                    out.push(Action::Reply("ERROR<NL>".to_string()));
                    proof {
                        reveal_strlit("ERROR<NL>");
                        assert(("ERROR<NL>")@ =~= error_reply());
                        assert(actions_view(out@) =~= before.push(ActionView::Reply(error_reply())));
                    }
                    return out;
                },
            }
            j = j + 1;
        }
        proof {
            assert(sv.skip(j as int) =~= Seq::<Seq<char>>::empty());
            assert(actions_view(out@) + Seq::<ActionView>::empty() =~= actions_view(out@));
        }
        out
    }

    /// Takes one piece of a fragmented message. First and middle pieces are kept in
    /// the buffer and nothing is done; the last piece completes the buffer, which is
    /// decoded (lossily), emptied and handled as a message. Other frames are passed over.
    pub fn handle_chunked_message(&mut self, item: Frame) -> (r: Vec<Action>)
        ensures
            final(self).id_view() == old(self).id_view(),
            final(self).last_seen() == old(self).last_seen(),
            final(self).phase_view() == old(self).phase_view(),
            (final(self).buffer_view(), actions_view(r@)) == chunk_step(
                old(self).id_view(),
                old(self).buffer_view(),
                item,
            ),
            item matches Frame::FragmentLast(b) ==> (all_ascii(old(self).buffer_view() + b@)
                ==> actions_view(r@) == message_actions(
                old(self).id_view(),
                ascii_chars(old(self).buffer_view() + b@),
            )),
    {
        match item {
            Frame::FragmentFirst(mut b) => {
                self.buffer.append(&mut b);
                let out: Vec<Action> = Vec::new();
                assert(actions_view(out@) =~= Seq::<ActionView>::empty());
                out
            },
            Frame::FragmentContinue(mut b) => {
                self.buffer.append(&mut b);
                let out: Vec<Action> = Vec::new();
                assert(actions_view(out@) =~= Seq::<ActionView>::empty());
                out
            },
            Frame::FragmentLast(mut b) => {
                self.buffer.append(&mut b);
                let text = decode_lossy(self.buffer.as_slice());
                let out = self.handle_complete_message(text.as_str());
                self.buffer.clear();
                assert(self.buffer@ =~= Seq::<u8>::empty());
                out
            },
            _ => {
                let out: Vec<Action> = Vec::new();
                assert(actions_view(out@) =~= Seq::<ActionView>::empty());
                out
            },
        }
    }

    /// Takes one frame from the transport at time `now`. A session that is shutting
    /// down takes none. Otherwise any frame counts as activity; text is handled as a
    /// message, other frames as `handle_chunked_message` says, a ping is answered with a
    /// pong of the same bytes, and a close starts the shutdown.
    pub fn handle(&mut self, frame: Frame, now: u64) -> (r: Vec<Action>)
        ensures
            final(self).id_view() == old(self).id_view(),
            (old(self).phase_view() == Phase::Closing || old(self).phase_view() == Phase::Closed)
                ==> r@.len() == 0 && final(self).last_seen() == old(self).last_seen()
                && final(self).buffer_view() == old(self).buffer_view() && final(self).phase_view()
                == old(self).phase_view(),
            (old(self).phase_view() == Phase::Connecting || old(self).phase_view() == Phase::Active)
                ==> final(self).last_seen() == now && match frame {
                Frame::Text(t) => actions_view(r@) == message_actions(old(self).id_view(), t@)
                    && final(self).buffer_view() == old(self).buffer_view()
                    && final(self).phase_view() == old(self).phase_view(),
                Frame::Ping(b) => actions_view(r@) == seq![ActionView::Pong(b@)]
                    && final(self).buffer_view() == old(self).buffer_view()
                    && final(self).phase_view() == old(self).phase_view(),
                Frame::Close => actions_view(r@) == seq![ActionView::Close]
                    && final(self).buffer_view() == old(self).buffer_view()
                    && final(self).phase_view() == Phase::Closing,
                Frame::FragmentLast(b) => (final(self).buffer_view(), actions_view(r@)) == chunk_step(
                    old(self).id_view(),
                    old(self).buffer_view(),
                    frame,
                ) && final(self).phase_view() == old(self).phase_view() && (all_ascii(
                    old(self).buffer_view() + b@,
                ) ==> actions_view(r@) == message_actions(
                    old(self).id_view(),
                    ascii_chars(old(self).buffer_view() + b@),
                )),
                _ => (final(self).buffer_view(), actions_view(r@)) == chunk_step(
                    old(self).id_view(),
                    old(self).buffer_view(),
                    frame,
                ) && final(self).phase_view() == old(self).phase_view(),
            },
    {
        if self.phase == Phase::Closing || self.phase == Phase::Closed {
            return Vec::new();
        }
        self.last_heartbeat_time = now;
        match frame {
            Frame::Text(text) => self.handle_complete_message(text.as_str()),
            Frame::Ping(b) => {
                let mut out: Vec<Action> = Vec::new();
                out.push(Action::Pong(b));
                assert(actions_view(out@) =~= seq![ActionView::Pong(b@)]);
                out
            },
            Frame::Close => {
                self.phase = Phase::Closing;
                let mut out: Vec<Action> = Vec::new();
                out.push(Action::Close);
                assert(actions_view(out@) =~= seq![ActionView::Close]);
                out
            },
            other => self.handle_chunked_message(other),
        }
    }

    /// The stop: the session is closed, its buffer dropped, and the id to take out of
    /// the registry is handed back. Only the first stop hands back an id.
    pub fn disconnect(&mut self) -> (r: Option<String>)
        ensures
            match r {
                Some(s) => disconnect_outcome(old(self).phase_view(), old(self).id_view()) == Some(
                    s@,
                ),
                None => disconnect_outcome(old(self).phase_view(), old(self).id_view()) is None,
            },
            final(self).phase_view() == Phase::Closed,
            final(self).id_view() is None,
            final(self).buffer_view() == Seq::<u8>::empty(),
            final(self).last_seen() == old(self).last_seen(),
    {
        let was_closed = self.phase == Phase::Closed;
        self.phase = Phase::Closed;
        self.buffer.clear();
        let id = self.id.take();
        if was_closed {
            None
        } else {
            id
        }
    }
}

} // verus!
