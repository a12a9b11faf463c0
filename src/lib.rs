//! Server side of a small UDP state-synchronisation protocol: the wire
//! codec, the connection table and the tick-driven bookkeeping that admits,
//! updates, feeds and evicts connections.

pub mod varint;
pub mod message;
pub mod codec;
pub mod server;
pub mod args;
