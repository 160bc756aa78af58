//! Configuration shared by a log and its segments.

use vstd::prelude::*;

verus! {

/// Tuning options for a log: capacity bounds for the two files of each
/// segment, the base offset of the first segment of an empty log, and the
/// largest record value the log accepts.
///
/// `max_record_size_kb` is compared directly against a record value's length
/// in bytes, despite its name: it is a raw byte cap.
#[derive(Clone, Copy)]
pub struct Config {
    pub max_index_bytes: u64,
    pub max_store_bytes: u64,
    pub initial_offset: u64,
    pub max_record_size_kb: u16,
}

impl Config {
    /// The hard upper bound on an index file's mapped region, in bytes.
    pub fn get_max_index_bytes(&self) -> (r: u64)
        ensures
            r == self.max_index_bytes,
    {
        self.max_index_bytes
    }

    /// The capacity threshold above which a store is considered full.
    pub fn get_max_store_bytes(&self) -> (r: u64)
        ensures
            r == self.max_store_bytes,
    {
        self.max_store_bytes
    }
}

impl Default for Config {
    fn default() -> (r: Config)
        ensures
            r.max_index_bytes == 1024,
            r.max_store_bytes == 1024,
            r.initial_offset == 0,
            r.max_record_size_kb == 400,
    {
        Config {
            max_index_bytes: 1024,
            max_store_bytes: 1024,
            initial_offset: 0,
            max_record_size_kb: 400,
        }
    }
}

/// Builds a [`Config`], with the record size cap defaulting to 400.
pub struct ConfigBuilder {
    pub max_index_bytes: u64,
    pub max_store_bytes: u64,
    pub initial_offset: u64,
    pub max_record_size_kb: u16,
}

impl ConfigBuilder {
    pub fn new(max_index_bytes: u64, max_store_bytes: u64, initial_offset: u64) -> (r:
        ConfigBuilder)
        ensures
            r.max_index_bytes == max_index_bytes,
            r.max_store_bytes == max_store_bytes,
            r.initial_offset == initial_offset,
            r.max_record_size_kb == 400,
    {
        ConfigBuilder { max_index_bytes, max_store_bytes, initial_offset, max_record_size_kb: 400 }
    }

    pub fn with_max_record_size_kb(self, max: u16) -> (r: ConfigBuilder)
        ensures
            r.max_index_bytes == self.max_index_bytes,
            r.max_store_bytes == self.max_store_bytes,
            r.initial_offset == self.initial_offset,
            r.max_record_size_kb == max,
    {
        ConfigBuilder {
            max_index_bytes: self.max_index_bytes,
            max_store_bytes: self.max_store_bytes,
            initial_offset: self.initial_offset,
            max_record_size_kb: max,
        }
    }

    pub fn build(self) -> (r: Config)
        ensures
            r.max_index_bytes == self.max_index_bytes,
            r.max_store_bytes == self.max_store_bytes,
            r.initial_offset == self.initial_offset,
            r.max_record_size_kb == self.max_record_size_kb,
    {
        Config {
            max_index_bytes: self.max_index_bytes,
            max_store_bytes: self.max_store_bytes,
            initial_offset: self.initial_offset,
            max_record_size_kb: self.max_record_size_kb,
        }
    }
}

} // verus!
