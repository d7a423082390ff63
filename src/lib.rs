//! Peer-to-peer chatroom core: the wire codec, the secure datagram channel,
//! the request multiplexer and the server and client session state machines.

pub mod channel;
pub mod client;
pub mod codec;
pub mod connection;
pub mod crypto;
pub mod data;
pub mod messages;
pub mod mux;
pub mod password;
pub mod server;
pub mod table;
