use chat_relay::chat_room::{ChatRoom, Participant};
use chat_relay::codec::decode_server_frame;
use chat_relay::connection::Connection;
use chat_relay::error::Error;
use chat_relay::protocol::{ChatMessage, ClientMessage, ServerMessage};
use chat_relay::uid::Uid;

fn uid(hi: u64, lo: u64) -> Uid {
    Uid { hi, lo }
}

fn decode_all(frames: Vec<Vec<u8>>) -> Vec<ServerMessage> {
    frames.into_iter().map(|f| decode_server_frame(&f).unwrap().0).collect()
}

#[test]
fn full_scenario() {
    let mut room = ChatRoom::new();
    let a = uid(1, 1);
    let b = uid(2, 2);

    // A joins as "alice" and gets an empty snapshot.
    let mut conn_a = Connection::new();
    conn_a
        .handshake(&mut room, Some(ClientMessage::JoinRequest { username: String::from("alice") }), a)
        .unwrap();
    assert_eq!(conn_a.id(), Some(a));
    assert_eq!(
        decode_all(room.take_outbound(&a)),
        vec![ServerMessage::JoinAccepted { history: vec![], participants: vec![] }]
    );

    // B joins as "bob": B sees [(A, "alice")], A hears that B joined.
    let mut conn_b = Connection::new();
    conn_b
        .handshake(&mut room, Some(ClientMessage::JoinRequest { username: String::from("bob") }), b)
        .unwrap();
    assert_eq!(
        decode_all(room.take_outbound(&b)),
        vec![ServerMessage::JoinAccepted {
            history: vec![],
            participants: vec![(a, String::from("alice"))],
        }]
    );
    assert_eq!(
        decode_all(room.take_outbound(&a)),
        vec![ServerMessage::UserJoined { uuid: b, username: String::from("bob") }]
    );

    // A sends "hi": B receives it, A receives nothing for it.
    conn_a
        .on_message(&mut room, Some(ClientMessage::Chat { text: String::from("hi") }), 123)
        .unwrap();
    assert_eq!(
        decode_all(room.take_outbound(&b)),
        vec![ServerMessage::Chat(ChatMessage {
            from: a,
            text: String::from("hi"),
            timestamp: 123,
        })]
    );
    assert_eq!(room.take_outbound(&a), Vec::<Vec<u8>>::new());

    // B disconnects: A hears the departure and B is gone from the registry.
    let ended = conn_b.on_message(&mut room, None, 124);
    assert!(matches!(ended, Err(Error::ConnectionClosed { .. })));
    conn_b.close(&mut room);
    assert_eq!(
        decode_all(room.take_outbound(&a)),
        vec![ServerMessage::UserLeft { uuid: b }]
    );
    assert!(!room.contains(&b));

    // Closing B again broadcasts nothing more.
    conn_b.close(&mut room);
    assert_eq!(room.take_outbound(&a), Vec::<Vec<u8>>::new());
}

#[test]
fn handshake_rejects_chat_first() {
    let mut room = ChatRoom::new();
    let mut conn = Connection::new();
    let r = conn.handshake(
        &mut room,
        Some(ClientMessage::Chat { text: String::from("hello?") }),
        uid(1, 1),
    );
    assert!(matches!(r, Err(Error::FailedToJoin)));
    assert!(!room.contains(&uid(1, 1)));
    assert_eq!(conn.id(), None);
}

#[test]
fn handshake_rejects_closed_stream() {
    let mut room = ChatRoom::new();
    let mut conn = Connection::new();
    let r = conn.handshake(&mut room, None, uid(1, 1));
    assert!(matches!(r, Err(Error::FailedToJoin)));
}

#[test]
fn handshake_rejects_identifier_already_held() {
    let mut room = ChatRoom::new();
    let a = uid(1, 1);
    room.join(&a, Participant::new(String::from("alice"))).unwrap();
    let mut conn = Connection::new();
    let r = conn.handshake(
        &mut room,
        Some(ClientMessage::JoinRequest { username: String::from("imposter") }),
        a,
    );
    assert!(matches!(r, Err(Error::FailedToJoin)));
    assert_eq!(room.get_usernames(), vec![(a, String::from("alice"))]);
}

#[test]
fn second_join_request_is_already_joined() {
    let mut room = ChatRoom::new();
    let a = uid(1, 1);
    let mut conn = Connection::new();
    conn.handshake(&mut room, Some(ClientMessage::JoinRequest { username: String::from("alice") }), a)
        .unwrap();
    let r = conn.on_message(
        &mut room,
        Some(ClientMessage::JoinRequest { username: String::from("alice") }),
        5,
    );
    match r {
        Err(Error::AlreadyJoined { uuid, username }) => {
            assert_eq!(uuid, a);
            assert_eq!(username, String::from("alice"));
        },
        other => panic!("expected AlreadyJoined, got {:?}", other),
    }
    // The violation terminates the connection; the handler then leaves once.
    conn.close(&mut room);
    assert!(!room.contains(&a));
}

#[test]
fn closed_stream_while_joined_reports_identity() {
    let mut room = ChatRoom::new();
    let a = uid(4, 2);
    let mut conn = Connection::new();
    conn.handshake(&mut room, Some(ClientMessage::JoinRequest { username: String::from("eve") }), a)
        .unwrap();
    match conn.on_message(&mut room, None, 9) {
        Err(Error::ConnectionClosed { uuid, username }) => {
            assert_eq!(uuid, a);
            assert_eq!(username, String::from("eve"));
        },
        other => panic!("expected ConnectionClosed, got {:?}", other),
    }
}

#[test]
fn fresh_identifiers_differ() {
    let x = Uid::new();
    let y = Uid::new();
    assert_ne!(x, y);
    assert_eq!(x.inner(), (x.hi, x.lo));
}
