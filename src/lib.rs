//! An embedded, ordered key-value store organised as a log-structured merge tree.
//!
//! Every function here is verified against its contract:
//! - [`order`]: the fixed byte-wise order of keys, and prefixes;
//! - [`codec`]: big-endian integers;
//! - [`version`]: the version header of block files;
//! - [`value`]: records, internal-key order and the record encoding;
//! - [`journal`]: CRC-32, journal record framing and replay up to the first damaged record;
//! - [`block`]: blocks of records with a count and a checksum;
//! - [`index_block`]: the same framing for index entries, as a segment's index is stored;
//! - [`writer`]: packing a sorted run into size-bounded data blocks;
//! - [`index`]: index entries, index blocks, the two-level block index and its cache;
//! - [`run`]: sorted runs (memtables and segment contents);
//! - [`segment`]: immutable sorted runs with their metadata;
//! - [`scan`]: key bounds, prefixes and ordered scans;
//! - [`tree`]: the tree: write and read paths, scans, compare-and-swap, batches,
//!   flushes, compaction and recovery;
//! - [`loader`]: loading index blocks through the block cache;
//! - [`recovery`]: what to keep and what to delete when reopening a directory.
//!
//! The tree's contracts speak of its view, a map from keys to the values of
//! their newest records, tombstones excluded.

pub mod order;
pub mod codec;
pub mod version;
pub mod value;
pub mod journal;
pub mod block;
pub mod index_block;
pub mod writer;
pub mod recovery;
pub mod run;
pub mod segment;
pub mod tree;
pub mod scan;
pub mod index;
pub mod loader;

pub use index::{IndexBlock, IndexBlockIndex, IndexEntry, MetaIndex};
pub use scan::{KeyBound, KvPair};
pub use segment::Segment;
pub use tree::{Batch, CompareAndSwapError, CompareAndSwapResult, Config, Entry, Error, Tree};
pub use value::Value;
