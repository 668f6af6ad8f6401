//! A small single-node log-structured key-value storage core.
//!
//! Writes go through a write-ahead log into an in-memory ordered table
//! (the memtable); when the memtable fills, it is flushed into an
//! immutable sorted-string table (SSTable) image: data blocks followed
//! by a sparse index block and an 8-byte trailer holding the index
//! size.  Reads consult the memtable first and then the SSTable stack,
//! newest first.  Keys and values are opaque byte strings.

use vstd::prelude::*;

pub mod keys;
pub mod kv;
pub mod block;
pub mod memtable;
pub mod index;
pub mod wal;
pub mod sstable;
pub mod db;
pub mod wire;

verus! {

/// The engine's error taxonomy.
///
/// `NotFound` is the non-fatal miss; `Io` stands for a failure of the
/// surrounding storage layer; `Codec` for a malformed persistent
/// structure; `Config` for an invalid configuration.
#[derive(Clone, Copy, Debug, PartialEq, Eq, Structural)]
pub enum Error {
    NotFound,
    Io,
    Codec,
    Config,
}

impl Error {
    /// A short human-readable account of the error.
    pub fn description(&self) -> (r: &'static str)
        ensures
            r@ == match self {
                Error::NotFound => "Key not found"@,
                Error::Io => "IO Error"@,
                Error::Codec => "Codec Error"@,
                Error::Config => "Config Error"@,
            },
    {
        match self {
            Error::NotFound => "Key not found",
            Error::Io => "IO Error",
            Error::Codec => "Codec Error",
            Error::Config => "Config Error",
        }
    }
}

} // verus!
