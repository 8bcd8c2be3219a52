//! Per-connection lifecycle: the decisions a handler makes at each inbound
//! event. The surrounding runtime owns the socket, decodes each frame, and
//! hands the result here — `None` standing for a closed stream or an
//! undecodable frame. The machine performs the join handshake, relays chats,
//! and leaves the room exactly once for a connection that joined: `close` on
//! an already-closed connection touches nothing.

use vstd::prelude::*;

use crate::chat_room::{join_reply, relay_ok, room_contains, spec_join, spec_leave, spec_relay};
use crate::chat_room::{ChatRoom, Participant, ParticipantView};
use crate::codec::server_encodable;
use crate::error::Error;
use crate::protocol::{ChatMessage, ChatMessageView, ClientMessage, ServerMessageView};
use crate::uid::Uid;

verus! {

/// Where a connection stands: awaiting its one join request, joined under an
/// identifier, or closed.
pub enum Connection {
    Connecting,
    Joined { uuid: Uid, username: String },
    Closed,
}

/// The mathematical value of a `Connection`.
#[verifier::ext_equal]
pub enum ConnectionView {
    Connecting,
    Joined { uuid: Uid, username: Seq<char> },
    Closed,
}

impl View for Connection {
    type V = ConnectionView;

    open spec fn view(&self) -> ConnectionView {
        match self {
            Connection::Connecting => ConnectionView::Connecting,
            Connection::Joined { uuid, username } => ConnectionView::Joined {
                uuid: *uuid,
                username: username@,
            },
            Connection::Closed => ConnectionView::Closed,
        }
    }
}

impl Connection {
    /// A connection that has not yet sent its join request.
    pub fn new() -> (r: Connection)
        ensures
            r@ is Connecting,
    {
        Connection::Connecting
    }

    /// The identifier this connection joined under, while it is joined.
    pub fn id(&self) -> (r: Option<Uid>)
        ensures
            match self@ {
                ConnectionView::Joined { uuid, username } => r == Some(uuid),
                _ => r is None,
            },
    {
        match self {
            Connection::Joined { uuid, username: _ } => Some(*uuid),
            _ => None,
        }
    }

    /// Settles the handshake on the first inbound frame. Only a join request
    /// proceeds: the participant enters the room under the fresh identifier
    /// and its join reply is queued. Anything else — another message, an
    /// undecodable frame, a closed stream, or an identifier the room already
    /// holds — closes the connection with `FailedToJoin` and touches nothing.
    /// On an encoding failure the connection closes too, but the entry stays,
    /// as `spec_join` records.
    pub fn handshake(&mut self, room: &mut ChatRoom, msg: Option<ClientMessage>, id: Uid) -> (r:
        Result<(), Error>)
        requires
            old(self)@ is Connecting,
            old(room)@.wf(),
        ensures
            final(room)@.wf(),
            match msg {
                Some(ClientMessage::JoinRequest { username }) => {
                    if room_contains(old(room)@, id) {
                        &&& r == Err::<(), Error>(Error::FailedToJoin)
                        &&& final(room)@ == old(room)@
                        &&& final(self)@ is Closed
                    } else {
                        let p = ParticipantView {
                            username: username@,
                            outbound: Seq::<Seq<u8>>::empty(),
                        };
                        let reply = join_reply(old(room)@);
                        let notice = ServerMessageView::UserJoined {
                            uuid: id,
                            username: username@,
                        };
                        &&& final(room)@ == spec_join(old(room)@, id, p)
                        &&& if server_encodable(reply) && server_encodable(notice) {
                            &&& r is Ok
                            &&& final(self)@ == (ConnectionView::Joined {
                                uuid: id,
                                username: username@,
                            })
                        } else {
                            &&& r matches Err(Error::EncodeError { message: _ })
                            &&& final(self)@ is Closed
                        }
                    }
                },
                _ => {
                    &&& r == Err::<(), Error>(Error::FailedToJoin)
                    &&& final(room)@ == old(room)@
                    &&& final(self)@ is Closed
                },
            },
    {
        let username = match msg {
            Some(ClientMessage::JoinRequest { username }) => username,
            _ => {
                *self = Connection::Closed;
                return Err(Error::FailedToJoin);
            },
        };
        if room.contains(&id) {
            *self = Connection::Closed;
            return Err(Error::FailedToJoin);
        }
        let participant = Participant::new(username.clone());
        match room.join(&id, participant) {
            Ok(()) => {
                *self = Connection::Joined { uuid: id, username };
                Ok(())
            },
            Err(e) => {
                *self = Connection::Closed;
                Err(e)
            },
        }
    }

    /// Handles one inbound event while joined. A chat is stamped with the
    /// caller's clock reading and relayed to everyone else; a second join
    /// request is the `AlreadyJoined` protocol violation; a closed or
    /// undecodable stream is `ConnectionClosed`. The connection state itself
    /// only changes at `close`.
    pub fn on_message(&mut self, room: &mut ChatRoom, msg: Option<ClientMessage>, now: u64) -> (r:
        Result<(), Error>)
        requires
            old(self)@ is Joined,
            old(room)@.wf(),
        ensures
            final(self)@ == old(self)@,
            final(room)@.wf(),
            ({
                let uuid = old(self)@->Joined_uuid;
                let username = old(self)@->Joined_username;
                match msg {
                    Some(ClientMessage::Chat { text }) => {
                        let m = ChatMessageView { from: uuid, text: text@, timestamp: now };
                        &&& final(room)@ == spec_relay(old(room)@, m, uuid)
                        &&& r is Ok <==> relay_ok(m)
                        &&& !relay_ok(m) ==> (r matches Err(Error::EncodeError { message: em })
                            && em@ == ServerMessageView::Chat(m))
                    },
                    Some(ClientMessage::JoinRequest { username: again }) => {
                        &&& final(room)@ == old(room)@
                        &&& r matches Err(Error::AlreadyJoined { uuid: u, username: n }) && u
                            == uuid && n@ == username
                    },
                    None => {
                        &&& final(room)@ == old(room)@
                        &&& r matches Err(Error::ConnectionClosed { uuid: u, username: n }) && u
                            == uuid && n@ == username
                    },
                }
            }),
    {
        let (uuid, username) = match self {
            Connection::Joined { uuid, username } => (*uuid, username.clone()),
            _ => vstd::pervasive::unreached(),
        };
        match msg {
            Some(ClientMessage::Chat { text }) => {
                let message = ChatMessage { from: uuid, text, timestamp: now };
                room.relay_message(message, &uuid)
            },
            Some(ClientMessage::JoinRequest { username: _ }) => {
                Err(Error::AlreadyJoined { uuid, username })
            },
            None => Err(Error::ConnectionClosed { uuid, username }),
        }
    }

    /// Tears the connection down. A joined connection leaves the room, which
    /// broadcasts its departure; any other — including one already closed —
    /// leaves the room untouched, so the departure goes out exactly once
    /// however often `close` is called.
    pub fn close(&mut self, room: &mut ChatRoom)
        requires
            old(room)@.wf(),
        ensures
            final(self)@ is Closed,
            final(room)@.wf(),
            match old(self)@ {
                ConnectionView::Joined { uuid, username } => final(room)@ == spec_leave(
                    old(room)@,
                    uuid,
                ),
                _ => final(room)@ == old(room)@,
            },
    {
        let uuid = match self {
            Connection::Joined { uuid, username: _ } => Some(*uuid),
            _ => None,
        };
        *self = Connection::Closed;
        if let Some(u) = uuid {
            let r = room.leave(&u);
            proof {
                assert(r is Ok);
            }
        }
    }
}

} // verus!
