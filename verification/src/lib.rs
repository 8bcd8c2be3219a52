//! Core of a real-time chat relay: the wire codec for the two message
//! families, the shared room state with its join/leave/relay operations and
//! per-participant outbound queues, and the per-connection lifecycle
//! decisions. Everything here is verified; sockets, timers and the runtime
//! live outside and hand this crate plain values.

pub mod chat_room;
pub mod client;
pub mod codec;
pub mod connection;
pub mod error;
pub mod protocol;
pub mod ui;
pub mod uid;
