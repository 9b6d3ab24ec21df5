//! A log-structured merge-tree storage engine for one shard of a distributed
//! key-value store, together with the hash ring that places keys on shards.
//!
//! The library holds every decision the engine makes: the record format, the
//! page cache, the memtable, the table writer and its cache mirroring, the
//! table search, the compaction merge and its intent record, recovery
//! planning, and replica placement. Reading and writing files is left to the
//! caller, which hands the library plain bytes and takes plain bytes back.

pub mod codec;
pub mod compaction;
pub mod error;
pub mod keys;
pub mod memtable;
pub mod names;
pub mod page_cache;
pub mod recovery;
pub mod ring;
pub mod sstable;
pub mod tree;
pub mod wal;
pub mod writer;
