use chat_relay::command::{parse_command, CommandError, UserCommand};
use chat_relay::room::{ChatRoom, ChatRoomError};
use chat_relay::server::{ChatRoomCommand, ChatServer, ChatServerError, Connect, Dispatch};
use chat_relay::session::{Action, Frame, Phase, User, CLIENT_TIMEOUT_MS, HEARTBEAT_INTERVAL_MS};
use chat_relay::text::split_on_delimiter;

fn s(x: &str) -> String {
    x.to_string()
}

fn registered_user(id: &str) -> User {
    let mut u = User::new(0);
    assert!(u.connect_to_chat_server(Ok(s(id))));
    u
}

#[test]
fn parse_join_command() {
    assert_eq!(
        parse_command("JOIN lobby alice"),
        Ok(UserCommand::JoinChatRoom { room_name: s("lobby"), username: s("alice") })
    );
}

#[test]
fn parse_other_text_is_broadcast() {
    assert_eq!(parse_command("hello there"), Ok(UserCommand::BroadcastMessage(s("hello there"))));
    assert_eq!(parse_command("JOINED late"), Ok(UserCommand::BroadcastMessage(s("JOINED late"))));
}

#[test]
fn parse_malformed_join() {
    assert_eq!(parse_command("JOIN"), Err(CommandError::MalformedCommand));
    assert_eq!(parse_command("JOIN lobby"), Err(CommandError::MalformedCommand));
    assert_eq!(parse_command("JOIN lobby alice bob"), Err(CommandError::MalformedCommand));
    assert_eq!(parse_command("JOIN  alice"), Err(CommandError::MalformedCommand));
    assert_eq!(parse_command("JOIN lobby "), Err(CommandError::MalformedCommand));
    assert_eq!(parse_command(""), Err(CommandError::MalformedCommand));
}

#[test]
fn split_at_delimiters() {
    assert_eq!(split_on_delimiter("a<NL>bc<NL>"), vec![s("a"), s("bc"), s("")]);
    assert_eq!(split_on_delimiter(""), vec![s("")]);
    assert_eq!(split_on_delimiter("no delimiter <N"), vec![s("no delimiter <N")]);
}

#[test]
fn room_add_refuses_duplicate_session() {
    let mut room = ChatRoom::new();
    assert!(room.is_empty());
    assert_eq!(room.add("a", "alice"), Ok(()));
    assert_eq!(room.add("a", "other"), Err(ChatRoomError::DuplicateSessionId(s("a"))));
    assert_eq!(room.get_username("a"), Some(s("alice")));
    assert_eq!(room.members(), vec![(s("a"), s("alice"))]);
}

#[test]
fn room_remove_and_absent_remove() {
    let mut room = ChatRoom::new();
    room.add("a", "alice").unwrap();
    room.add("b", "bob").unwrap();
    room.remove("zzz");
    assert_eq!(room.members().len(), 2);
    room.remove("a");
    assert_eq!(room.get_username("a"), None);
    assert_eq!(room.members(), vec![(s("b"), s("bob"))]);
    room.remove("b");
    assert!(room.is_empty());
}

#[test]
fn room_broadcast_excludes_and_skips_unknown() {
    let mut room = ChatRoom::new();
    room.add("a", "alice").unwrap();
    room.add("b", "bob").unwrap();
    room.add("c", "carol").unwrap();
    room.add("ghost", "gone").unwrap();
    let sessions = vec![(s("a"), 1u64), (s("b"), 2u64), (s("c"), 3u64)];
    let out = room.broadcast_to_excluding(&[s("a")], Some(&sessions)).unwrap();
    assert_eq!(out, vec![(s("b"), 2), (s("c"), 3)]);
    let out = room.broadcast_to_excluding(&[s("a"), s("c")], Some(&sessions)).unwrap();
    assert_eq!(out, vec![(s("b"), 2)]);
}

#[test]
fn room_broadcast_without_registry_fails() {
    let mut room = ChatRoom::new();
    room.add("a", "alice").unwrap();
    assert_eq!(room.broadcast_to_excluding(&[], None), Err(ChatRoomError::NoServer));
}

#[test]
fn server_connect_gives_distinct_ids() {
    let mut server = ChatServer::new();
    let a = server.connect(10).unwrap();
    let b = server.handle(Connect { addr: 20 }).unwrap();
    assert_eq!(a, s("0"));
    assert_eq!(b, s("1"));
    assert_eq!(server.address_of(&b), Some(20));
    assert!(server.is_connected(&a));
    assert!(server.is_connected(&b));
}

#[test]
fn server_register_refuses_taken_id() {
    let mut server = ChatServer::new();
    assert_eq!(server.register(s("x"), 1), Ok(s("x")));
    assert_eq!(server.register(s("x"), 2), Err(ChatServerError::RegistrationFailed));
    assert_eq!(server.register(s("0"), 3), Ok(s("0")));
    // The counter's first id is taken: the attempt fails, the next one moves on.
    assert_eq!(server.connect(4), Err(ChatServerError::RegistrationFailed));
    assert_eq!(server.connect(5), Ok(s("1")));
}

#[test]
fn server_duplicate_join_is_rejected() {
    let mut server = ChatServer::new();
    let a = server.connect(1).unwrap();
    assert_eq!(server.join(&a, "lobby", "alice"), Ok(()));
    assert_eq!(
        server.join(&a, "lobby", "again"),
        Err(ChatRoomError::DuplicateSessionId(a.clone()))
    );
    assert_eq!(server.room_members("lobby"), Some(vec![(a.clone(), s("alice"))]));
}

#[test]
fn end_to_end_lobby() {
    let mut server = ChatServer::new();
    let a = server.connect(1).unwrap();
    let b = server.connect(2).unwrap();
    let r = server.handle_command(ChatRoomCommand::Join {
        user_id: a.clone(),
        room_name: s("lobby"),
        username: s("alice"),
    });
    assert_eq!(r, Dispatch::Joined);
    let r = server.handle_command(ChatRoomCommand::Join {
        user_id: b.clone(),
        room_name: s("lobby"),
        username: s("bob"),
    });
    assert_eq!(r, Dispatch::Joined);
    let r = server.handle_command(ChatRoomCommand::BroadcastMessage {
        user_id: a.clone(),
        content: s("hi"),
    });
    assert_eq!(r, Dispatch::Deliver { recipients: vec![(b.clone(), 2)], text: s("hi") });
    server.disconnect(&b);
    assert!(!server.is_connected(&b));
    assert_eq!(server.room_members("lobby"), Some(vec![(a.clone(), s("alice"))]));
    let r = server.handle_command(ChatRoomCommand::BroadcastMessage {
        user_id: a.clone(),
        content: s("anyone?"),
    });
    assert_eq!(r, Dispatch::Deliver { recipients: vec![], text: s("anyone?") });
}

#[test]
fn disconnect_drops_emptied_room_and_rejoin_is_fresh() {
    let mut server = ChatServer::new();
    let a = server.connect(1).unwrap();
    server.join(&a, "lobby", "alice").unwrap();
    server.join(&a, "den", "al").unwrap();
    server.disconnect(&a);
    assert_eq!(server.room_members("lobby"), None);
    assert_eq!(server.room_members("den"), None);
    let b = server.connect(2).unwrap();
    server.join(&b, "lobby", "bob").unwrap();
    assert_eq!(server.room_members("lobby"), Some(vec![(b.clone(), s("bob"))]));
}

#[test]
fn fragments_reassemble_before_parsing() {
    let mut u = registered_user("u1");
    assert_eq!(u.handle(Frame::FragmentFirst(b"AB".to_vec()), 1), vec![]);
    assert_eq!(u.handle(Frame::FragmentContinue(b"CD".to_vec()), 2), vec![]);
    let out = u.handle(Frame::FragmentLast(b"EF".to_vec()), 3);
    assert_eq!(
        out,
        vec![Action::Forward(ChatRoomCommand::BroadcastMessage {
            user_id: s("u1"),
            content: s("ABCDEF"),
        })]
    );
    // The buffer is empty again: the next message stands alone.
    let out = u.handle(Frame::FragmentLast(b"next".to_vec()), 4);
    assert_eq!(
        out,
        vec![Action::Forward(ChatRoomCommand::BroadcastMessage {
            user_id: s("u1"),
            content: s("next"),
        })]
    );
}

#[test]
fn invalid_utf8_is_decoded_lossily() {
    let mut u = registered_user("u1");
    let out = u.handle(Frame::FragmentLast(vec![b'o', b'k', 0xff]), 1);
    assert_eq!(
        out,
        vec![Action::Forward(ChatRoomCommand::BroadcastMessage {
            user_id: s("u1"),
            content: s("ok\u{FFFD}"),
        })]
    );
    assert_eq!(u.phase(), Phase::Active);
}

#[test]
fn malformed_join_answers_error_only() {
    let mut server = ChatServer::new();
    let a = server.connect(1).unwrap();
    server.join(&a, "lobby", "alice").unwrap();
    let mut u = User::new(0);
    u.connect_to_chat_server(Ok(a.clone()));
    let out = u.handle(Frame::Text(s("JOIN")), 1);
    assert_eq!(out, vec![Action::Reply(s("ERROR<NL>"))]);
    for action in out {
        if let Action::Forward(cmd) = action {
            server.handle_command(cmd);
        }
    }
    assert_eq!(server.room_members("lobby"), Some(vec![(a.clone(), s("alice"))]));
}

#[test]
fn message_segments_stop_at_first_error() {
    let u = registered_user("u1");
    let out = u.handle_complete_message("hi<NL>JOIN<NL>there");
    assert_eq!(
        out,
        vec![
            Action::Forward(ChatRoomCommand::BroadcastMessage { user_id: s("u1"), content: s("hi") }),
            Action::Reply(s("ERROR<NL>")),
        ]
    );
    let out = u.handle_complete_message("JOIN lobby alice<NL>hello<NL>");
    assert_eq!(
        out,
        vec![
            Action::Forward(ChatRoomCommand::Join {
                user_id: s("u1"),
                room_name: s("lobby"),
                username: s("alice"),
            }),
            Action::Forward(ChatRoomCommand::BroadcastMessage {
                user_id: s("u1"),
                content: s("hello"),
            }),
            Action::Reply(s("ERROR<NL>")),
        ]
    );
}

#[test]
fn empty_segment_is_malformed() {
    let u = registered_user("u1");
    assert_eq!(u.handle_complete_message("<NL>hi"), vec![Action::Reply(s("ERROR<NL>"))]);
    assert_eq!(u.handle_complete_message(""), vec![Action::Reply(s("ERROR<NL>"))]);
}

#[test]
fn unregistered_session_drops_commands() {
    let u = User::new(0);
    assert_eq!(u.handle_complete_message("hello<NL>JOIN x y"), vec![]);
    assert_eq!(u.handle_complete_message("JOIN"), vec![Action::Reply(s("ERROR<NL>"))]);
    assert_eq!(u.map_to_server_command(UserCommand::BroadcastMessage(s("x"))), None);
}

#[test]
fn failed_registration_closes() {
    let mut u = User::new(0);
    assert!(!u.connect_to_chat_server(Err(ChatServerError::RegistrationFailed)));
    assert_eq!(u.phase(), Phase::Closing);
    assert_eq!(u.disconnect(), None);
}

#[test]
fn heartbeat_pings_then_times_out() {
    assert!(CLIENT_TIMEOUT_MS > HEARTBEAT_INTERVAL_MS);
    let mut u = registered_user("u1");
    assert_eq!(u.heartbeat(HEARTBEAT_INTERVAL_MS), Action::Ping);
    assert_eq!(u.heartbeat(CLIENT_TIMEOUT_MS), Action::Ping);
    u.handle(Frame::Other, 7000);
    assert_eq!(u.heartbeat(17000), Action::Ping);
    assert_eq!(u.heartbeat(17001), Action::Close);
    assert_eq!(u.phase(), Phase::Closing);
    assert_eq!(u.disconnect(), Some(s("u1")));
    assert_eq!(u.disconnect(), None);
    assert_eq!(u.phase(), Phase::Closed);
}

#[test]
fn timed_out_session_leaves_every_room() {
    let mut server = ChatServer::new();
    let a = server.connect(1).unwrap();
    let b = server.connect(2).unwrap();
    server.join(&a, "lobby", "alice").unwrap();
    server.join(&b, "lobby", "bob").unwrap();
    server.join(&b, "den", "bob").unwrap();
    let mut u = User::new(0);
    u.connect_to_chat_server(Ok(b.clone()));
    assert_eq!(u.heartbeat(CLIENT_TIMEOUT_MS + 1), Action::Close);
    let id = u.disconnect().unwrap();
    server.disconnect(&id);
    assert_eq!(u.disconnect(), None);
    assert_eq!(server.room_members("lobby"), Some(vec![(a.clone(), s("alice"))]));
    assert_eq!(server.room_members("den"), None);
}

#[test]
fn ping_close_and_closed_session() {
    let mut u = registered_user("u1");
    assert_eq!(u.handle(Frame::Ping(vec![1, 2]), 5), vec![Action::Pong(vec![1, 2])]);
    assert_eq!(u.handle(Frame::Close, 6), vec![Action::Close]);
    assert_eq!(u.phase(), Phase::Closing);
    assert_eq!(u.handle(Frame::Text(s("hi")), 7), vec![]);
    assert_eq!(u.id(), Some(s("u1")));
}
