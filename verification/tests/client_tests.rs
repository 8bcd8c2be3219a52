use chat_relay::client::{join_room_request, server_to_network_message, ui_to_client_message};
use chat_relay::client::{expect_join_accepted, trim_str, ClientError, NetworkMessage, UiMessage};
use chat_relay::protocol::{ChatMessage, ClientMessage, ServerMessage};
use chat_relay::ui::{LineKind, Ui};
use chat_relay::uid::Uid;

fn uid(hi: u64, lo: u64) -> Uid {
    Uid { hi, lo }
}

#[test]
fn join_request_accepts_non_empty_fields() {
    let msg = UiMessage::JoinRoom {
        address: String::from("127.0.0.1:8080"),
        username: String::from("alice"),
    };
    let (address, username) = join_room_request(Some(msg)).unwrap();
    assert_eq!(address, "127.0.0.1:8080");
    assert_eq!(username, "alice");
}

#[test]
fn join_request_trims_fields() {
    let msg = UiMessage::JoinRoom {
        address: String::from("  127.0.0.1:8080\t"),
        username: String::from(" alice\n"),
    };
    let (address, username) = join_room_request(Some(msg)).unwrap();
    assert_eq!(address, "127.0.0.1:8080");
    assert_eq!(username, "alice");
}

#[test]
fn join_request_rejects_empty_fields() {
    let no_addr = UiMessage::JoinRoom { address: String::new(), username: String::from("a") };
    assert_eq!(join_room_request(Some(no_addr)), Err(ClientError::InvalidAddress));
    let no_name = UiMessage::JoinRoom { address: String::from("x:1"), username: String::new() };
    assert_eq!(join_room_request(Some(no_name)), Err(ClientError::InvalidAddress));
}

#[test]
fn join_request_rejects_whitespace_only_fields() {
    let blank_addr = UiMessage::JoinRoom {
        address: String::from("  \t "),
        username: String::from("alice"),
    };
    assert_eq!(join_room_request(Some(blank_addr)), Err(ClientError::InvalidAddress));
    let blank_name = UiMessage::JoinRoom {
        address: String::from("x:1"),
        username: String::from("\u{3000}\u{00A0}"),
    };
    assert_eq!(join_room_request(Some(blank_name)), Err(ClientError::InvalidAddress));
}

#[test]
fn trim_agrees_with_str_trim() {
    for s in ["", "  ", "a", " a b ", "\t x \n", "\u{3000}mid\u{2028}", "no-space"] {
        assert_eq!(trim_str(s), s.trim());
    }
}

#[test]
fn join_request_rejects_chat_and_closed_channel() {
    let chat = UiMessage::SendChat { text: String::from("hi") };
    assert_eq!(join_room_request(Some(chat)), Err(ClientError::ProtocolError));
    assert_eq!(join_room_request(None), Err(ClientError::ChannelClosed));
}

#[test]
fn ui_messages_map_to_wire_messages() {
    let r = ui_to_client_message(UiMessage::SendChat { text: String::from("hi") });
    assert_eq!(r, Ok(ClientMessage::Chat { text: String::from("hi") }));
    let again = UiMessage::JoinRoom { address: String::from("x"), username: String::from("y") };
    assert_eq!(ui_to_client_message(again), Err(ClientError::ProtocolError));
}

#[test]
fn late_join_reply_is_a_server_error() {
    let reply = ServerMessage::JoinAccepted { history: vec![], participants: vec![] };
    assert_eq!(server_to_network_message(reply), Err(ClientError::ServerError));
    let left = ServerMessage::UserLeft { uuid: uid(1, 2) };
    assert_eq!(
        server_to_network_message(left.clone()),
        Ok(NetworkMessage::ServerMessage(left))
    );
}

#[test]
fn handshake_reply_must_be_the_join_reply() {
    let reply = ServerMessage::JoinAccepted {
        history: vec![ChatMessage { from: uid(1, 1), text: String::from("m"), timestamp: 3 }],
        participants: vec![(uid(1, 1), String::from("alice"))],
    };
    let (history, participants) = expect_join_accepted(reply).unwrap();
    assert_eq!(history.len(), 1);
    assert_eq!(participants, vec![(uid(1, 1), String::from("alice"))]);
    let wrong = ServerMessage::UserLeft { uuid: uid(1, 1) };
    assert_eq!(expect_join_accepted(wrong), Err(ClientError::ServerError));
}

#[test]
fn callbacks_produce_requests() {
    let ui = Ui::new();
    let join = ui.on_join(String::from("addr:1"), String::from("alice"));
    assert_eq!(
        join,
        UiMessage::JoinRoom { address: String::from("addr:1"), username: String::from("alice") }
    );
    let send = ui.on_send_message(String::from("hello"));
    assert_eq!(send, UiMessage::SendChat { text: String::from("hello") });
}

#[test]
fn display_follows_server_messages() {
    let mut ui = Ui::new();
    let a = uid(1, 1);
    let b = uid(2, 2);
    assert!(!ui.handle().in_chat);

    // The handshake reply fills the roster and raises the chat screen.
    ui.apply_server_message(ServerMessage::JoinAccepted {
        history: vec![ChatMessage { from: a, text: String::from("old"), timestamp: 1 }],
        participants: vec![(a, String::from("alice"))],
    });
    let app = ui.handle();
    assert!(app.in_chat);
    assert_eq!(app.online_users, vec![String::from("alice")]);
    assert_eq!(app.chats.len(), 1);
    assert_eq!(app.chats[0].kind, LineKind::Message);
    assert_eq!(app.chats[0].username, "alice");
    assert_eq!(app.chats[0].text, "old");

    // A joined notice records the identity and shows a notice line.
    ui.apply_server_message(ServerMessage::UserJoined { uuid: b, username: String::from("bob") });
    assert_eq!(ui.handle().chats[1].kind, LineKind::Joined);
    assert_eq!(ui.handle().chats[1].username, "bob");

    // A chat from a known author shows under that name.
    ui.apply_server_message(ServerMessage::Chat(ChatMessage {
        from: b,
        text: String::from("hi"),
        timestamp: 2,
    }));
    assert_eq!(ui.handle().chats[2].kind, LineKind::Message);
    assert_eq!(ui.handle().chats[2].username, "bob");
    assert_eq!(ui.handle().chats[2].text, "hi");

    // A departure shows its notice; a later message from that identifier no
    // longer resolves to a name.
    ui.apply_server_message(ServerMessage::UserLeft { uuid: b });
    assert_eq!(ui.handle().chats[3].kind, LineKind::Left);
    assert_eq!(ui.handle().chats[3].username, "bob");
    ui.apply_server_message(ServerMessage::Chat(ChatMessage {
        from: b,
        text: String::from("ghost"),
        timestamp: 3,
    }));
    assert_eq!(ui.handle().chats[4].username, "");

    // A departure of somebody unknown changes nothing.
    let before = ui.handle().chats.len();
    ui.apply_server_message(ServerMessage::UserLeft { uuid: uid(9, 9) });
    assert_eq!(ui.handle().chats.len(), before);
}
