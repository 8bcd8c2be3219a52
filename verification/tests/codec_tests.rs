use chat_relay::codec::{decode_client_frame, decode_server_frame, encode_client_message};
use chat_relay::codec::{decode_client_payload, decode_server_payload, encode_message};
use chat_relay::codec::{payload_length, FrameError};
use chat_relay::protocol::{ChatMessage, ClientMessage, ServerMessage};
use chat_relay::uid::Uid;

fn uid(hi: u64, lo: u64) -> Uid {
    Uid { hi, lo }
}

#[test]
fn client_chat_round_trip() {
    let m = ClientMessage::Chat { text: String::from("hi") };
    let frame = encode_client_message(&m).unwrap();
    let (back, consumed) = decode_client_frame(&frame).unwrap();
    assert_eq!(back, m);
    assert_eq!(consumed, frame.len());
}

#[test]
fn client_join_request_round_trip() {
    let m = ClientMessage::JoinRequest { username: String::from("alice") };
    let frame = encode_client_message(&m).unwrap();
    let (back, consumed) = decode_client_frame(&frame).unwrap();
    assert_eq!(back, m);
    assert_eq!(consumed, frame.len());
}

#[test]
fn client_chat_exact_bytes() {
    let m = ClientMessage::Chat { text: String::from("hi") };
    let frame = encode_client_message(&m).unwrap();
    assert_eq!(
        frame,
        vec![0, 0, 0, 7, 0, 0, 0, 0, 2, b'h', b'i']
    );
}

#[test]
fn user_left_exact_bytes() {
    let m = ServerMessage::UserLeft { uuid: uid(1, 2) };
    let frame = encode_message(&m).unwrap();
    let mut expected = vec![0, 0, 0, 17, 3];
    expected.extend_from_slice(&[0, 0, 0, 0, 0, 0, 0, 1]);
    expected.extend_from_slice(&[0, 0, 0, 0, 0, 0, 0, 2]);
    assert_eq!(frame, expected);
}

#[test]
fn server_chat_round_trip() {
    let m = ServerMessage::Chat(ChatMessage {
        from: uid(7, 9),
        text: String::from("hello there"),
        timestamp: 1700000000,
    });
    let frame = encode_message(&m).unwrap();
    let (back, consumed) = decode_server_frame(&frame).unwrap();
    assert_eq!(back, m);
    assert_eq!(consumed, frame.len());
}

#[test]
fn non_ascii_text_round_trip() {
    let m = ServerMessage::Chat(ChatMessage {
        from: uid(0, 1),
        text: String::from("héllo ✓ päivää"),
        timestamp: 42,
    });
    let frame = encode_message(&m).unwrap();
    let (back, _) = decode_server_frame(&frame).unwrap();
    assert_eq!(back, m);
}

#[test]
fn join_accepted_round_trip() {
    let history = vec![
        ChatMessage { from: uid(1, 1), text: String::from("first"), timestamp: 10 },
        ChatMessage { from: uid(2, 2), text: String::from("second"), timestamp: 20 },
    ];
    let participants = vec![
        (uid(1, 1), String::from("alice")),
        (uid(2, 2), String::from("bob")),
    ];
    let m = ServerMessage::JoinAccepted { history, participants };
    let frame = encode_message(&m).unwrap();
    let (back, consumed) = decode_server_frame(&frame).unwrap();
    assert_eq!(back, m);
    assert_eq!(consumed, frame.len());
}

#[test]
fn join_accepted_empty_round_trip() {
    let m = ServerMessage::JoinAccepted { history: vec![], participants: vec![] };
    let frame = encode_message(&m).unwrap();
    let (back, _) = decode_server_frame(&frame).unwrap();
    assert_eq!(back, m);
}

#[test]
fn user_joined_round_trip() {
    let m = ServerMessage::UserJoined { uuid: uid(3, 4), username: String::from("carol") };
    let frame = encode_message(&m).unwrap();
    let (back, _) = decode_server_frame(&frame).unwrap();
    assert_eq!(back, m);
}

#[test]
fn decode_consumes_exactly_one_frame() {
    let m = ClientMessage::Chat { text: String::from("exact") };
    let mut buf = encode_client_message(&m).unwrap();
    let frame_len = buf.len();
    buf.extend_from_slice(&[0xAA, 0xBB, 0xCC]);
    let (back, consumed) = decode_client_frame(&buf).unwrap();
    assert_eq!(back, m);
    assert_eq!(consumed, frame_len);
    let declared = payload_length(&buf[0..4]).unwrap() as usize;
    assert_eq!(consumed, 4 + declared);
}

#[test]
fn short_buffer_is_incomplete() {
    assert_eq!(decode_client_frame(&[0, 0]), Err(FrameError::Incomplete));
    assert_eq!(decode_server_frame(&[0, 0, 0, 5, 1, 2]), Err(FrameError::Incomplete));
}

#[test]
fn unknown_tag_is_malformed() {
    let buf = vec![0, 0, 0, 1, 9];
    assert_eq!(decode_client_frame(&buf), Err(FrameError::MalformedFrame));
    assert_eq!(decode_server_frame(&buf), Err(FrameError::MalformedFrame));
}

#[test]
fn invalid_utf8_is_malformed() {
    let buf = vec![0, 0, 0, 6, 0, 0, 0, 0, 1, 0xFF];
    assert_eq!(decode_client_frame(&buf), Err(FrameError::MalformedFrame));
}

#[test]
fn trailing_payload_bytes_are_malformed() {
    // A valid chat payload with one stray byte appended inside the frame.
    let buf = vec![0, 0, 0, 8, 0, 0, 0, 0, 2, b'h', b'i', 0];
    assert_eq!(decode_client_frame(&buf), Err(FrameError::MalformedFrame));
}

#[test]
fn truncated_string_is_malformed() {
    // The inner string declares 200 bytes but the payload ends early.
    let buf = vec![0, 0, 0, 6, 0, 0, 0, 0, 200, b'x'];
    assert_eq!(decode_client_frame(&buf), Err(FrameError::MalformedFrame));
}

#[test]
fn payload_decode_matches_frame_decode() {
    let m = ClientMessage::JoinRequest { username: String::from("dave") };
    let frame = encode_client_message(&m).unwrap();
    let n = payload_length(&frame[0..4]).unwrap() as usize;
    assert_eq!(decode_client_payload(&frame[4..4 + n]).unwrap(), m);

    let sm = ServerMessage::UserLeft { uuid: uid(5, 6) };
    let sframe = encode_message(&sm).unwrap();
    let sn = payload_length(&sframe[0..4]).unwrap() as usize;
    assert_eq!(decode_server_payload(&sframe[4..4 + sn]).unwrap(), sm);
}

#[test]
fn payload_length_needs_four_bytes() {
    assert_eq!(payload_length(&[0, 0, 1]), None);
    assert_eq!(payload_length(&[0, 0, 1, 2]), Some(258));
}
