//! The write path of a small log-structured key/value store: an ordered
//! in-memory index, a binary append-only log format, and the recovery pass
//! that replays old log segments into a fresh index and a fresh segment.
pub mod bytes;
pub mod memtable;
pub mod sstable;
pub mod wal;
