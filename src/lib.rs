//! A small key–value store with durable, crash-recoverable transactions.
//!
//! The library holds the logic: the framed record codec, the payload
//! formats of the write-ahead log and of the snapshot, the ordered
//! committed store, transactions with read-your-writes, and the replay
//! that recovery performs. Reading and writing files is left to callers,
//! which hand the library the bytes they read and write the bytes it
//! returns.

pub mod codec;
pub mod frame;
pub mod keys;
pub mod log;
pub mod db;
pub mod transaction;
