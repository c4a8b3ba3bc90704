//! A small Redis-compatible key/value server: the RESP frame codec, the
//! command parser, the in-memory store with key expiry, and the replay of the
//! write-ahead log, all with verified contracts.

pub mod bytebuf;
pub mod text;
pub mod frame;
pub mod parse;
pub mod clock;
pub mod db;
pub mod cmd;
pub mod wal;
pub mod client;
pub mod server;
