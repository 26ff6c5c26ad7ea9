//! Limits that a segment is opened with.

use vstd::prelude::*;

verus! {

/// The limits of one segment.
#[derive(Debug, Clone, Copy)]
pub struct SegmentConfig {
    /// The store size, in bytes, from which the segment counts as full.
    pub max_store_bytes: u64,
    /// The index size, in bytes, from which the segment counts as full.
    pub max_index_bytes: u64,
    /// The offset at which the first segment of a fresh log starts.
    pub initial_offset: u64,
}

impl Default for SegmentConfig {
    fn default() -> (c: SegmentConfig)
        ensures
            c.max_store_bytes == 0,
            c.max_index_bytes == 0,
            c.initial_offset == 0,
    {
        SegmentConfig { max_store_bytes: 0, max_index_bytes: 0, initial_offset: 0 }
    }
}

/// The configuration of a log.
#[derive(Debug, Clone, Copy)]
pub struct Config {
    pub segment: SegmentConfig,
}

impl Default for Config {
    fn default() -> (c: Config)
        ensures
            c.segment.max_store_bytes == 0,
            c.segment.max_index_bytes == 0,
            c.segment.initial_offset == 0,
    {
        Config { segment: SegmentConfig { max_store_bytes: 0, max_index_bytes: 0, initial_offset: 0 } }
    }
}

} // verus!
