//! Client-side protocol decisions: what the front end's messages become on
//! the wire, and which server messages may reach the front end when. The
//! networking loops around these live outside and only move bytes; every
//! choice they act on is made here.

use vstd::prelude::*;
use vstd::string::*;

use crate::protocol::{ClientMessage, ServerMessage, ServerMessageView};
use crate::uid::Uid;

verus! {

/// Whether a character is whitespace: the Unicode `White_Space` code
/// points, the set `str::trim` strips.
pub open spec fn is_space(c: char) -> bool {
    let u = c as u32;
    (9 <= u <= 13) || u == 32 || u == 133 || u == 160 || u == 5760 || (8192 <= u <= 8202) || u
        == 8232 || u == 8233 || u == 8239 || u == 8287 || u == 12288
}

/// The string without its leading whitespace.
pub open spec fn trim_front(s: Seq<char>) -> Seq<char>
    decreases s.len(),
{
    if s.len() > 0 && is_space(s[0]) {
        trim_front(s.drop_first())
    } else {
        s
    }
}

/// The string without its trailing whitespace.
pub open spec fn trim_back(s: Seq<char>) -> Seq<char>
    decreases s.len(),
{
    if s.len() > 0 && is_space(s.last()) {
        trim_back(s.drop_last())
    } else {
        s
    }
}

/// The string without its surrounding whitespace, as `str::trim` returns it.
pub open spec fn trim_of(s: Seq<char>) -> Seq<char> {
    trim_back(trim_front(s))
}

proof fn lemma_trim_front_subrange(s: Seq<char>, start: int)
    requires
        0 <= start <= s.len(),
        forall|k: int| 0 <= k < start ==> is_space(#[trigger] s[k]),
        start == s.len() || !is_space(s[start]),
    ensures
        trim_front(s) == s.subrange(start, s.len() as int),
    decreases start,
{
    if start == 0 {
        assert(trim_front(s) =~= s.subrange(0, s.len() as int));
    } else {
        assert(is_space(s[0]));
        let t = s.drop_first();
        assert forall|k: int| 0 <= k < start - 1 implies is_space(#[trigger] t[k]) by {
            assert(t[k] == s[k + 1]);
        }
        assert(start - 1 == t.len() || !is_space(t[start - 1]));
        lemma_trim_front_subrange(t, start - 1);
        assert(t.subrange(start - 1, t.len() as int) =~= s.subrange(start, s.len() as int));
    }
}

proof fn lemma_trim_back_subrange(s: Seq<char>, end: int)
    requires
        0 <= end <= s.len(),
        forall|k: int| end <= k < s.len() ==> is_space(#[trigger] s[k]),
        end == 0 || !is_space(s[end - 1]),
    ensures
        trim_back(s) == s.subrange(0, end),
    decreases s.len(),
{
    if end == s.len() {
        if s.len() > 0 {
            assert(!is_space(s.last()));
        }
        assert(trim_back(s) =~= s.subrange(0, end));
    } else {
        assert(is_space(s[s.len() - 1]));
        let t = s.drop_last();
        assert forall|k: int| end <= k < t.len() implies is_space(#[trigger] t[k]) by {
            assert(t[k] == s[k]);
        }
        if end > 0 {
            assert(t[end - 1] == s[end - 1]);
        }
        lemma_trim_back_subrange(t, end);
        assert(t.subrange(0, end) =~= s.subrange(0, end));
    }
}

proof fn lemma_trim_of_subrange(s: Seq<char>, start: int, end: int)
    requires
        0 <= start <= end <= s.len(),
        forall|k: int| 0 <= k < start ==> is_space(#[trigger] s[k]),
        forall|k: int| end <= k < s.len() ==> is_space(#[trigger] s[k]),
        start == s.len() || !is_space(s[start]),
        start < end ==> !is_space(s[end - 1]),
    ensures
        trim_of(s) == s.subrange(start, end),
{
    lemma_trim_front_subrange(s, start);
    let t = s.subrange(start, s.len() as int);
    assert forall|k: int| end - start <= k < t.len() implies is_space(#[trigger] t[k]) by {
        assert(t[k] == s[start + k]);
    }
    if start < end {
        assert(t[end - start - 1] == s[end - 1]);
    }
    lemma_trim_back_subrange(t, end - start);
    assert(t.subrange(0, end - start) =~= s.subrange(start, end));
}

fn is_space_char(c: char) -> (r: bool)
    ensures
        r == is_space(c),
{
    let u = c as u32;
    (9 <= u && u <= 13) || u == 32 || u == 133 || u == 160 || u == 5760 || (8192 <= u && u
        <= 8202) || u == 8232 || u == 8233 || u == 8239 || u == 8287 || u == 12288
}

/// The string without its surrounding whitespace, as `str::trim` strips it.
pub fn trim_str(s: &str) -> (r: String)
    ensures
        r@ == trim_of(s@),
{
    let n = s.unicode_len();
    let mut start: usize = 0;
    while start < n && is_space_char(s.get_char(start))
        invariant
            n == s@.len(),
            start <= n,
            forall|k: int| 0 <= k < start ==> is_space(#[trigger] s@[k]),
        decreases n - start,
    {
        start = start + 1;
    }
    let mut end: usize = n;
    while end > start && is_space_char(s.get_char(end - 1))
        invariant
            n == s@.len(),
            start <= end <= n,
            forall|k: int| 0 <= k < start ==> is_space(#[trigger] s@[k]),
            start == n || !is_space(s@[start as int]),
            forall|k: int| end <= k < n ==> is_space(#[trigger] s@[k]),
        decreases end,
    {
        end = end - 1;
    }
    let sub = s.substring_char(start, end);
    proof {
        lemma_trim_of_subrange(s@, start as int, end as int);
    }
    sub.to_owned()
}

/// What the front end asks of the networking task.
#[derive(Debug, Clone, PartialEq)]
pub enum UiMessage {
    JoinRoom { address: String, username: String },
    SendChat { text: String },
}

/// What the networking task reports to the front end.
#[derive(Debug, Clone, PartialEq)]
pub enum NetworkMessage {
    InvalidAddress,
    ServerMessage(ServerMessage),
}

/// Why the client side gives up on a connection or a request.
#[derive(Debug, Clone, Copy, PartialEq, Eq, Structural)]
pub enum ClientError {
    InvalidAddress,
    ChannelClosed,
    ProtocolError,
    ServerError,
}

/// Settles how a connection attempt starts. Only a join request whose
/// address and username hold more than whitespace yields the pair to connect
/// with — both trimmed of surrounding whitespace, so the join request built
/// from the pair carries the trimmed username. A field that trims to empty
/// is `InvalidAddress`, a chat before joining is a protocol error, and a
/// closed channel ends the attempt.
pub fn join_room_request(msg: Option<UiMessage>) -> (r: Result<(String, String), ClientError>)
    ensures
        match msg {
            Some(UiMessage::JoinRoom { address, username }) => {
                if trim_of(address@).len() == 0 || trim_of(username@).len() == 0 {
                    r == Err::<(String, String), ClientError>(ClientError::InvalidAddress)
                } else {
                    r matches Ok((a, u)) && a@ == trim_of(address@) && u@ == trim_of(username@)
                }
            },
            Some(UiMessage::SendChat { text }) => r == Err::<(String, String), ClientError>(
                ClientError::ProtocolError,
            ),
            None => r == Err::<(String, String), ClientError>(ClientError::ChannelClosed),
        },
{
    match msg {
        Some(UiMessage::JoinRoom { address, username }) => {
            let address = trim_str(address.as_str());
            let username = trim_str(username.as_str());
            if address.as_str().is_empty() || username.as_str().is_empty() {
                Err(ClientError::InvalidAddress)
            } else {
                Ok((address, username))
            }
        },
        Some(UiMessage::SendChat { text: _ }) => Err(ClientError::ProtocolError),
        None => Err(ClientError::ChannelClosed),
    }
}

/// Turns a front-end request into its wire message, once joined: a chat is
/// sent as a chat frame; a second join request is a protocol error.
pub fn ui_to_client_message(msg: UiMessage) -> (r: Result<ClientMessage, ClientError>)
    ensures
        match msg {
            UiMessage::SendChat { text } => r matches Ok(m) && m@
                == (crate::protocol::ClientMessageView::Chat { text: text@ }),
            UiMessage::JoinRoom { address, username } => r == Err::<ClientMessage, ClientError>(
                ClientError::ProtocolError,
            ),
        },
{
    match msg {
        UiMessage::SendChat { text } => Ok(ClientMessage::Chat { text }),
        UiMessage::JoinRoom { address: _, username: _ } => Err(ClientError::ProtocolError),
    }
}

/// Admits a server message to the front end, once joined. The join reply
/// arrives exactly once, during the handshake: seeing another is a server
/// error; everything else passes through unchanged.
pub fn server_to_network_message(msg: ServerMessage) -> (r: Result<NetworkMessage, ClientError>)
    ensures
        match r {
            Ok(nm) => !(msg@ is JoinAccepted) && (nm matches NetworkMessage::ServerMessage(sm)
                && sm@ == msg@),
            Err(e) => msg@ is JoinAccepted && e == ClientError::ServerError,
        },
{
    match msg {
        ServerMessage::JoinAccepted { .. } => Err(ClientError::ServerError),
        other => Ok(NetworkMessage::ServerMessage(other)),
    }
}

/// Accepts the handshake's reply. Only the join reply carries the snapshot —
/// the history and the roster — that the front end renders first; any other
/// message in its place is a server error.
pub fn expect_join_accepted(msg: ServerMessage) -> (r: Result<
    (Vec<crate::protocol::ChatMessage>, Vec<(Uid, String)>),
    ClientError,
>)
    ensures
        match msg@ {
            ServerMessageView::JoinAccepted { history, participants } => {
                &&& r matches Ok((h, ps))
                &&& crate::protocol::chats_view(h@) == history
                &&& crate::protocol::roster_view(ps@) == participants
            },
            _ => r == Err::<(Vec<crate::protocol::ChatMessage>, Vec<(Uid, String)>), ClientError>(
                ClientError::ServerError,
            ),
        },
{
    match msg {
        ServerMessage::JoinAccepted { history, participants } => Ok((history, participants)),
        _ => Err(ClientError::ServerError),
    }
}

} // verus!
