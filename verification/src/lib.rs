//! A small log-structured key-value storage engine with a verified core.
//!
//! Records are appended to segments and located through an in-memory index;
//! recovery replays the segments, compaction rewrites what is still live.
//! Beside the store stand the record codec and the reader of the wire
//! protocol that a network front end speaks.
pub mod compaction;
pub mod data;
pub mod error;
pub mod index;
pub mod naming;
pub mod recovery;
pub mod replay;
pub mod resp;
pub mod segment;
pub mod store;
pub mod util;

pub use error::{Result, TinkvError};
pub use store::{OpenOptions, Store};
