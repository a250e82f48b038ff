//! Compression formats for output files.
use vstd::prelude::*;

verus! {

/// Compression format with its level.
#[derive(Copy, Clone, Debug, PartialEq, Eq, Structural, Hash)]
pub enum Compression {
    /// bzip2 compression
    Bzip2,
    /// gzip compression with a level from 0 to 9
    Gzip(u8),
    /// lz4 compression with a level from 0 to 16
    Lz4(u8),
    /// zstd compression with a level from 0 to 19
    Zstd(u8),
}

impl Compression {
    /// The level is one that the format has.
    pub open spec fn wf(self) -> bool {
        match self {
            Compression::Bzip2 => true,
            Compression::Gzip(lvl) => lvl <= 9,
            Compression::Lz4(lvl) => lvl <= 16,
            Compression::Zstd(lvl) => lvl <= 19,
        }
    }
}

} // verus!
