use chat_relay::chat_room::{ChatRoom, Participant};
use chat_relay::codec::decode_server_frame;
use chat_relay::error::Error;
use chat_relay::protocol::{ChatMessage, ServerMessage};
use chat_relay::uid::Uid;

fn uid(hi: u64, lo: u64) -> Uid {
    Uid { hi, lo }
}

fn decode_all(frames: Vec<Vec<u8>>) -> Vec<ServerMessage> {
    frames
        .into_iter()
        .map(|f| {
            let (m, consumed) = decode_server_frame(&f).unwrap();
            assert_eq!(consumed, f.len());
            m
        })
        .collect()
}

#[test]
fn first_join_gets_empty_snapshot() {
    let mut room = ChatRoom::new();
    let a = uid(1, 1);
    room.join(&a, Participant::new(String::from("alice"))).unwrap();
    let msgs = decode_all(room.take_outbound(&a));
    assert_eq!(
        msgs,
        vec![ServerMessage::JoinAccepted { history: vec![], participants: vec![] }]
    );
}

#[test]
fn second_join_sees_first_and_notifies() {
    let mut room = ChatRoom::new();
    let a = uid(1, 1);
    let b = uid(2, 2);
    room.join(&a, Participant::new(String::from("alice"))).unwrap();
    room.join(&b, Participant::new(String::from("bob"))).unwrap();

    let to_b = decode_all(room.take_outbound(&b));
    assert_eq!(
        to_b,
        vec![ServerMessage::JoinAccepted {
            history: vec![],
            participants: vec![(a, String::from("alice"))],
        }]
    );

    let to_a = decode_all(room.take_outbound(&a));
    assert_eq!(to_a.len(), 2);
    assert!(matches!(to_a[0], ServerMessage::JoinAccepted { .. }));
    assert_eq!(
        to_a[1],
        ServerMessage::UserJoined { uuid: b, username: String::from("bob") }
    );
}

#[test]
fn join_snapshot_has_all_history_in_order() {
    let mut room = ChatRoom::new();
    let a = uid(1, 1);
    room.join(&a, Participant::new(String::from("alice"))).unwrap();
    for (i, text) in ["one", "two", "three"].iter().enumerate() {
        let m = ChatMessage { from: a, text: String::from(*text), timestamp: i as u64 };
        room.relay_message(m, &a).unwrap();
    }
    let c = uid(3, 3);
    room.join(&c, Participant::new(String::from("carol"))).unwrap();
    let to_c = decode_all(room.take_outbound(&c));
    match &to_c[0] {
        ServerMessage::JoinAccepted { history, participants } => {
            let texts: Vec<&str> = history.iter().map(|m| m.text.as_str()).collect();
            assert_eq!(texts, vec!["one", "two", "three"]);
            assert_eq!(participants, &vec![(a, String::from("alice"))]);
        },
        other => panic!("expected the join reply, got {:?}", other),
    }
}

#[test]
fn relay_has_no_self_echo() {
    let mut room = ChatRoom::new();
    let a = uid(1, 1);
    let b = uid(2, 2);
    room.join(&a, Participant::new(String::from("alice"))).unwrap();
    room.join(&b, Participant::new(String::from("bob"))).unwrap();
    room.take_outbound(&a);
    room.take_outbound(&b);

    let m = ChatMessage { from: a, text: String::from("hi"), timestamp: 123 };
    room.relay_message(m.clone(), &a).unwrap();

    assert_eq!(room.take_outbound(&a), Vec::<Vec<u8>>::new());
    let to_b = decode_all(room.take_outbound(&b));
    assert_eq!(to_b, vec![ServerMessage::Chat(m)]);
}

#[test]
fn history_keeps_relay_order() {
    let mut room = ChatRoom::new();
    let a = uid(1, 1);
    room.join(&a, Participant::new(String::from("alice"))).unwrap();
    for i in 0..5u64 {
        let m = ChatMessage { from: a, text: format!("m{}", i), timestamp: i };
        room.relay_message(m, &a).unwrap();
    }
    let history = room.get_history();
    let texts: Vec<String> = history.iter().map(|m| m.text.clone()).collect();
    assert_eq!(texts, vec!["m0", "m1", "m2", "m3", "m4"]);
}

#[test]
fn leave_notifies_once_and_is_idempotent() {
    let mut room = ChatRoom::new();
    let a = uid(1, 1);
    let b = uid(2, 2);
    room.join(&a, Participant::new(String::from("alice"))).unwrap();
    room.join(&b, Participant::new(String::from("bob"))).unwrap();
    room.take_outbound(&a);
    room.take_outbound(&b);

    assert!(room.leave(&b).is_ok());
    assert!(!room.contains(&b));
    let to_a = decode_all(room.take_outbound(&a));
    assert_eq!(to_a, vec![ServerMessage::UserLeft { uuid: b }]);

    // The second leave is a no-op: no further departure notice for anybody.
    assert!(room.leave(&b).is_ok());
    assert_eq!(room.take_outbound(&a), Vec::<Vec<u8>>::new());
}

#[test]
fn leaving_absent_id_is_a_no_op() {
    let mut room = ChatRoom::new();
    let a = uid(1, 1);
    room.join(&a, Participant::new(String::from("alice"))).unwrap();
    room.take_outbound(&a);
    assert!(room.leave(&uid(9, 9)).is_ok());
    assert_eq!(room.take_outbound(&a), Vec::<Vec<u8>>::new());
}

#[test]
fn slow_consumer_does_not_block_others() {
    let mut room = ChatRoom::new();
    let a = uid(1, 1);
    let b = uid(2, 2);
    let c = uid(3, 3);
    room.join(&a, Participant::new(String::from("alice"))).unwrap();
    room.join(&b, Participant::new(String::from("bob"))).unwrap();
    room.join(&c, Participant::new(String::from("carol"))).unwrap();
    room.take_outbound(&c);

    // Nobody ever drains b. Relays from a keep completing, and c keeps
    // receiving every message.
    for i in 0..100u64 {
        let m = ChatMessage { from: a, text: format!("t{}", i), timestamp: i };
        assert!(room.relay_message(m, &a).is_ok());
    }
    assert_eq!(room.take_outbound(&c).len(), 100);
    // b's queue held everything all along without stopping the room.
    assert!(room.take_outbound(&b).len() >= 100);
}

#[test]
fn getters_report_roster_and_history() {
    let mut room = ChatRoom::new();
    let a = uid(1, 1);
    let b = uid(2, 2);
    room.join(&a, Participant::new(String::from("alice"))).unwrap();
    room.join(&b, Participant::new(String::from("bob"))).unwrap();
    let names = room.get_usernames();
    assert_eq!(
        names,
        vec![(a, String::from("alice")), (b, String::from("bob"))]
    );
    assert_eq!(room.get_history(), Vec::<ChatMessage>::new());
}

#[test]
fn relay_reports_encode_success() {
    let mut room = ChatRoom::new();
    let a = uid(1, 1);
    room.join(&a, Participant::new(String::from("alice"))).unwrap();
    let m = ChatMessage { from: a, text: String::from("fits"), timestamp: 1 };
    match room.relay_message(m, &a) {
        Ok(()) => {},
        Err(Error::EncodeError { .. }) => panic!("a small message must encode"),
        Err(other) => panic!("unexpected error {:?}", other),
    }
}
