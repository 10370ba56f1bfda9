//! A single-file, append-only key/value store engine.
//!
//! The store keeps a log of serialized records (a length-framed key and
//! value per record) together with an in-memory index that maps each key to
//! the byte offset of its most recently appended record.  The engine here
//! works on the log as a byte sequence held in memory; reading the backing
//! file into that sequence and mirroring appended bytes back out to it is
//! left to the caller.
//!
//! Modules:
//! - [`codec`]: the fixed binary layout of one record and its (de)serialization.
//! - [`replay`]: the log model: scanning, index reconstruction, last-write-wins.
//! - [`index`]: the in-memory key-to-offset index.
//! - [`store`]: the store itself: `open`, `put`, `get`.
//! - [`error`]: the error vocabulary shared by all operations.

pub mod codec;
pub mod error;
pub mod index;
pub mod replay;
pub mod store;
pub mod text;

pub use error::KvError;
pub use index::Index;
pub use store::KvStore;
