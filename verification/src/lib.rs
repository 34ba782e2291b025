//! The storage core of a log-structured merge tree: the block format, sorted
//! string tables built from blocks, the merge of several sorted sources into
//! one stream, and the write-ahead log.

pub mod block;
pub mod codec;
pub mod error;
pub mod iterators;
pub mod key;
pub mod table;
pub mod wal;
