//! Wire-protocol codec and connection pipeline of a multiplayer game server.
//!
//! `mctypes` holds the primitive encoders and decoders, `entitymeta` the
//! entity metadata record, and `io` the connection worker's state machine
//! together with the messages exchanged with the server loop.
pub mod mctypes;
pub mod entitymeta;
pub mod io;
