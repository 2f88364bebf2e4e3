//! The protocol core of a small in-memory key-value server: the wire
//! format and its incremental decoder, the receive buffer of a connection,
//! the commands and the store they run against, and the admission and
//! shutdown rules of the accept loop.

pub mod frame;
pub mod parse;
pub mod roundtrip;
pub mod connection;
pub mod db;
pub mod command;
pub mod server;
pub mod shutdown;
