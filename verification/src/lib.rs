//! A log-structured key-value store.
//!
//! Every write is appended to a command log; an in-memory index maps each live key to the
//! offset of its latest `Set` record, and compaction rewrites the log down to the live records.
//! The library works on the log's bytes; reading and writing the file that holds them is left
//! to the caller.
//!
//! - `frame`: the bytes that stand around the string literals of a record;
//! - `json`: the string literals, which `serde_json` writes and reads;
//! - `codec`: records, encoded and decoded from the two;
//! - `log`: a log as a sequence of records, read by offset and appended to;
//! - `store`: the store itself, `KvStore`, with `open`, `get`, `set` and `remove`;
//! - `laws`: what holds of every store whose index agrees with its log;
//! - `error`: the errors.

pub mod codec;
pub mod error;
pub mod frame;
pub mod json;
pub mod laws;
pub mod log;
pub mod store;

pub use crate::error::{KvError, KvErrorKind};
pub use crate::store::{KvStore, COMPACTION_THRESHOLD, DEFAULT_LOG_NAME};
