use vstd::prelude::*;

use crate::uid::Uid;

verus! {

/// One chat entry: its author, its text, and an epoch-seconds timestamp.
/// Immutable once constructed; appended to the room history, never edited.
#[derive(Debug, Clone, PartialEq)]
pub struct ChatMessage {
    pub from: Uid,
    pub text: String,
    pub timestamp: u64,
}

/// The mathematical value of a `ChatMessage`.
#[verifier::ext_equal]
pub struct ChatMessageView {
    pub from: Uid,
    pub text: Seq<char>,
    pub timestamp: u64,
}

impl View for ChatMessage {
    type V = ChatMessageView;

    open spec fn view(&self) -> ChatMessageView {
        ChatMessageView { from: self.from, text: self.text@, timestamp: self.timestamp }
    }
}

/// What a client may send: exactly one `JoinRequest` as its first frame,
/// then any number of `Chat` frames. No other value is valid on the wire.
#[derive(Debug, Clone, PartialEq)]
pub enum ClientMessage {
    Chat { text: String },
    JoinRequest { username: String },
}

/// The mathematical value of a `ClientMessage`.
#[verifier::ext_equal]
pub enum ClientMessageView {
    Chat { text: Seq<char> },
    JoinRequest { username: Seq<char> },
}

impl View for ClientMessage {
    type V = ClientMessageView;

    open spec fn view(&self) -> ClientMessageView {
        match self {
            ClientMessage::Chat { text } => ClientMessageView::Chat { text: text@ },
            ClientMessage::JoinRequest { username } => ClientMessageView::JoinRequest {
                username: username@,
            },
        }
    }
}

/// What the server sends: a direct `JoinAccepted` reply to a join handshake,
/// and the three broadcast notices. No other value is valid on the wire.
#[derive(Debug, Clone, PartialEq)]
pub enum ServerMessage {
    Chat(ChatMessage),
    JoinAccepted { history: Vec<ChatMessage>, participants: Vec<(Uid, String)> },
    UserJoined { uuid: Uid, username: String },
    UserLeft { uuid: Uid },
}

/// The mathematical value of a `ServerMessage`.
#[verifier::ext_equal]
pub enum ServerMessageView {
    Chat(ChatMessageView),
    JoinAccepted { history: Seq<ChatMessageView>, participants: Seq<(Uid, Seq<char>)> },
    UserJoined { uuid: Uid, username: Seq<char> },
    UserLeft { uuid: Uid },
}

/// The values of a sequence of chat messages.
pub open spec fn chats_view(v: Seq<ChatMessage>) -> Seq<ChatMessageView> {
    v.map_values(|m: ChatMessage| m@)
}

/// The values of a roster: each participant's identifier and username.
pub open spec fn roster_view(v: Seq<(Uid, String)>) -> Seq<(Uid, Seq<char>)> {
    v.map_values(|p: (Uid, String)| (p.0, p.1@))
}

impl View for ServerMessage {
    type V = ServerMessageView;

    open spec fn view(&self) -> ServerMessageView {
        match self {
            ServerMessage::Chat(m) => ServerMessageView::Chat(m@),
            ServerMessage::JoinAccepted { history, participants } => {
                ServerMessageView::JoinAccepted {
                    history: chats_view(history@),
                    participants: roster_view(participants@),
                }
            },
            ServerMessage::UserJoined { uuid, username } => ServerMessageView::UserJoined {
                uuid: *uuid,
                username: username@,
            },
            ServerMessage::UserLeft { uuid } => ServerMessageView::UserLeft { uuid: *uuid },
        }
    }
}

/// Copies a chat message; the copy has the same value.
pub fn clone_chat_message(m: &ChatMessage) -> (r: ChatMessage)
    ensures
        r@ == m@,
{
    ChatMessage { from: m.from, text: m.text.clone(), timestamp: m.timestamp }
}

/// Copies a sequence of chat messages, preserving values and order.
pub fn clone_chat_messages(v: &Vec<ChatMessage>) -> (r: Vec<ChatMessage>)
    ensures
        chats_view(r@) == chats_view(v@),
{
    let mut out: Vec<ChatMessage> = Vec::new();
    let mut i: usize = 0;
    while i < v.len()
        invariant
            i <= v.len(),
            out@.len() == i as int,
            forall|k: int| 0 <= k < i ==> #[trigger] out@[k]@ == v@[k]@,
        decreases v.len() - i,
    {
        out.push(clone_chat_message(&v[i]));
        i = i + 1;
    }
    proof {
        assert(chats_view(out@) =~= chats_view(v@));
    }
    out
}

} // verus!
