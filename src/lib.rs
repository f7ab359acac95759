//! A leveled log-structured merge tree over fixed-width `(i32, i32)`
//! records.
//!
//! Writes land in a sorted in-memory buffer; a full buffer is written to
//! level one as sorted runs, and a full level is merged into the level
//! below, newest records winning. Each run is cut into immutable files
//! with fence pointers and a Bloom filter for point lookups.
//!
//! The library keeps each file's records and reports the files it holds
//! by name (`LSMTree::file_names`); the program that embeds it writes new
//! files to disk and removes released ones. It is single-threaded: callers
//! that share an engine between threads wrap it in a lock.

pub mod configuration;
pub mod record;
pub mod codec;
pub mod buffer;
pub mod filter;
pub mod disk_file;
pub mod merge;
pub mod run;
pub mod level;
pub mod tree;
pub mod instruction;
