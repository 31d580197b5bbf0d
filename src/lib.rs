//! A log-structured key/value store: the verified core of its storage engine,
//! the key index, the command and response schema and the server's dispatch rules.
pub mod command;
pub mod engine;
pub mod error;
pub mod index;
pub mod laws;
pub mod log;
pub mod server;

pub use command::{Args, ClientArgs, Command, CommandPosition, Response, ServerArgs};
pub use engine::{value_of_record, KvStore, THRESHOLD};
pub use error::KvStoreError;
pub use index::KeyIndex;
