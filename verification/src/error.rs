use vstd::prelude::*;

use crate::protocol::ServerMessage;
use crate::uid::Uid;

verus! {

/// Why a connection ends or a room operation fails. Every error is local to
/// one connection: none is fatal to the room, and the only cross-cutting
/// effect of a connection's end is the departure notice it broadcasts.
#[derive(Debug, Clone, PartialEq)]
pub enum Error {
    /// The peer closed its stream, or an I/O error ended it.
    ConnectionClosed { uuid: Uid, username: String },
    /// An outgoing message could not be encoded; the message is handed back.
    EncodeError { message: ServerMessage },
    /// The handshake did not start with a valid join request.
    FailedToJoin,
    /// A join request arrived on an already-joined connection.
    AlreadyJoined { uuid: Uid, username: String },
}

} // verus!
