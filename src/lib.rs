//! A log-structured key-value store: an in-memory index over append-only
//! generation files, its replay and compaction rules, and the wire protocol
//! of the server that exposes it.
pub mod command;
pub mod engine;
pub mod error;
pub mod index;
pub mod kv;
pub mod lemmas;
pub mod segment;
pub mod server;

pub use error::{ErrorKind, KvsError, Result};
pub use kv::KvStore;
pub use server::KvsServer;
