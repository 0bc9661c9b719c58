//! Files of sorted entries, and tools to make, read and merge them.
//!
//! A [`Writer`] writes keys and values into blocks that can be compressed, and a
//! [`Reader`] yields them again. A [`Merger`] merges the entries of several readers,
//! key by key, with a function that merges the values of a key. A [`Sorter`] takes
//! entries in any order and yields them sorted and merged; it holds them in memory up
//! to a threshold and dumps them into chunks beyond it.

pub mod compression;
pub mod endian;
pub mod entries;
pub mod error;
pub mod format;
pub mod io;
pub mod laws;
pub mod made;
pub mod merge;
pub mod merger;
pub mod order;
pub mod reader;
pub mod runs;
pub mod seqs;
pub mod sorter;
pub mod varint;
pub mod writer;

pub use compression::CompressionType;
pub use error::{Error, IoError};
pub use merger::{Merger, MergerBuilder, MergerIter};
pub use reader::Reader;
pub use sorter::{ChunkCreation, CursorVec, DefaultChunkCreation, Sorter, SorterBuilder};
pub use writer::{Writer, WriterBuilder};
