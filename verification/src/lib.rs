//! A small Redis-compatible keyspace: the RESP wire format, an in-memory store of strings,
//! lists and hashes with lazy key expiry, the commands that act on it, what a connection does
//! with the bytes it reads, and how a reply is shown to a person at a prompt.

pub mod clock;
pub mod commands;
pub mod laws;
pub mod render;
pub mod repl;
pub mod resp;
pub mod semantics;
pub mod session;
pub mod store;
pub mod table;
pub mod text;

pub use clock::now_ms;
pub use commands::{dispatch, dispatch_command, try_dispatch};
pub use resp::{encode, parse_command, Value};
pub use store::{Entry, Store};
