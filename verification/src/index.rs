//! The index: a fixed-width sparse map from a record's relative offset
//! within a segment to the byte position of its frame in the segment's
//! store.
//!
//! The on-disk form is a concatenation of 12-byte entries: a 4-byte
//! big-endian relative offset followed by an 8-byte big-endian store
//! position. While an index is open, its file is extended to
//! `max_index_bytes` (modelling the pre-extended memory map) and bytes past
//! the logical `size` are unspecified; `close` trims the file back to
//! `size`. The struct works on the in-memory image of the mapped region; a
//! host persists the bytes and flushes the map.

use vstd::prelude::*;

use crate::config::Config;
use crate::wire::lemma_u32_be_round_trip;
use crate::wire::lemma_u64_be_round_trip;
use crate::wire::read_u32_be;
use crate::wire::read_u64_be;
use crate::wire::spec_be_u32;
use crate::wire::spec_be_u64;
use crate::wire::spec_u32_be;
use crate::wire::spec_u64_be;

verus! {

/// One entry of an index: a relative record offset and the byte position of
/// that record's frame in the store.
#[derive(Clone, Copy, Debug, Default, PartialEq, Eq, Structural)]
pub struct IndexEntry {
    pub record_offset: u32,
    pub position: u64,
}

/// What can go wrong inside an index.
#[derive(Debug)]
pub enum IndexError {
    /// Appending one more entry would exceed the mapped region.
    IndexFullError,
    /// The requested entry is not present.
    IndexEntryNotFound(u32),
}

/// The entries encoded in the first `size` bytes of a mapped region.
pub open spec fn spec_entries(data: Seq<u8>, size: int) -> Seq<IndexEntry>
    recommends
        0 <= size <= data.len(),
        size % 12 == 0,
{
    Seq::new(
        (size / 12) as nat,
        |k: int|
            IndexEntry {
                record_offset: spec_be_u32(data.subrange(12 * k, 12 * k + 4)),
                position: spec_be_u64(data.subrange(12 * k + 4, 12 * k + 12)),
            },
    )
}

/// The entries depend only on the first `size` bytes of the region.
pub proof fn lemma_entries_prefix(d1: Seq<u8>, d2: Seq<u8>, size: int)
    requires
        0 <= size <= d1.len(),
        size <= d2.len(),
        size % 12 == 0,
        d1.subrange(0, size) == d2.subrange(0, size),
    ensures
        spec_entries(d1, size) == spec_entries(d2, size),
{
    assert(12 * (size / 12) == size);
    assert forall|i: int| 0 <= i < size implies d1[i] == d2[i] by {
        assert(d1.subrange(0, size)[i] == d1[i]);
        assert(d2.subrange(0, size)[i] == d2[i]);
    }
    assert forall|k: int| 0 <= k < size / 12 implies spec_entries(d1, size)[k] == spec_entries(
        d2,
        size,
    )[k] by {
        assert(12 * k + 12 <= size);
        assert(d1.subrange(12 * k, 12 * k + 4) =~= d2.subrange(12 * k, 12 * k + 4));
        assert(d1.subrange(12 * k + 4, 12 * k + 12) =~= d2.subrange(12 * k + 4, 12 * k + 12));
    }
    assert(spec_entries(d1, size) =~= spec_entries(d2, size));
}

/// Writing one 12-byte entry at the logical end of the region appends one
/// parsed entry.
pub proof fn lemma_entries_snoc(d1: Seq<u8>, d2: Seq<u8>, size: int, ro: u32, pos: u64)
    requires
        0 <= size,
        size + 12 <= d1.len(),
        d1.len() == d2.len(),
        size % 12 == 0,
        d1.subrange(0, size) == d2.subrange(0, size),
        d2.subrange(size, size + 4) == spec_u32_be(ro),
        d2.subrange(size + 4, size + 12) == spec_u64_be(pos),
    ensures
        spec_entries(d2, size + 12) == spec_entries(d1, size).push(
            IndexEntry { record_offset: ro, position: pos },
        ),
{
    lemma_entries_prefix(d1, d2, size);
    assert(12 * (size / 12) == size);
    assert((size + 12) / 12 == size / 12 + 1);
    assert forall|i: int| 0 <= i < size implies d1[i] == d2[i] by {
        assert(d1.subrange(0, size)[i] == d1[i]);
        assert(d2.subrange(0, size)[i] == d2[i]);
    }
    let e1 = spec_entries(d1, size).push(IndexEntry { record_offset: ro, position: pos });
    let e2 = spec_entries(d2, size + 12);
    assert forall|k: int| 0 <= k < e2.len() implies e1[k] == e2[k] by {
        if k < size / 12 {
            assert(12 * k + 12 <= size);
            assert(d2.subrange(12 * k, 12 * k + 4) =~= d1.subrange(12 * k, 12 * k + 4));
            assert(d2.subrange(12 * k + 4, 12 * k + 12) =~= d1.subrange(
                12 * k + 4,
                12 * k + 12,
            ));
            assert(spec_entries(d1, size)[k] == spec_entries(d2, size)[k]);
        } else {
            assert(k == size / 12);
            assert(12 * k == size);
            lemma_u32_be_round_trip(ro);
            lemma_u64_be_round_trip(pos);
        }
    }
    assert(e1 =~= e2);
}

/// A sparse offset-to-position index over one memory-mapped file.
pub struct Index {
    /// The bytes of the mapped region: the index file extended to
    /// `max_index_bytes`.
    pub data: Vec<u8>,
    /// The logical size: how many leading bytes of the region hold entries.
    pub size: usize,
}

impl Index {
    /// The region is at least as long as the logical size, and the logical
    /// size is whole entries.
    pub open spec fn wf(&self) -> bool {
        self.size <= self.data@.len() && self.size as int % 12 == 0
    }

    /// The entries the index holds.
    pub open spec fn entries(&self) -> Seq<IndexEntry> {
        spec_entries(self.data@, self.size as int)
    }

    /// Opens an index over the current bytes of its file, recording the
    /// file's length as the logical size, then extends the region to
    /// `max_index_bytes` so it has room to grow.
    pub fn new(file_bytes: Vec<u8>, config: &Config) -> (r: Index)
        requires
            file_bytes@.len() % 12 == 0,
            file_bytes@.len() <= config.max_index_bytes,
            config.max_index_bytes <= usize::MAX,
        ensures
            r.wf(),
            r.size == file_bytes@.len(),
            r.data@.len() == config.max_index_bytes,
            r.entries() == spec_entries(file_bytes@, file_bytes@.len() as int),
    {
        let ghost orig = file_bytes@;
        let size = file_bytes.len();
        let mut data = file_bytes;
        let max = config.max_index_bytes as usize;
        while data.len() < max
            invariant
                size <= data@.len() <= max,
                data@.subrange(0, size as int) == orig,
            decreases max - data@.len(),
        {
            data.push(0);
            assert(data@.subrange(0, size as int) =~= orig);
        }
        let r = Index { data, size };
        proof {
            assert(orig.subrange(0, size as int) =~= orig);
            lemma_entries_prefix(orig, r.data@, size as int);
        }
        r
    }

    /// Appends the entry `(record_offset, position)` at the logical end of
    /// the region, or fails with [`IndexError::IndexFullError`] — leaving
    /// the index unchanged — when 12 more bytes do not fit in the region.
    pub fn write(&mut self, record_offset: u32, position: u64) -> (r: Result<(), IndexError>)
        requires
            old(self).wf(),
        ensures
            final(self).wf(),
            final(self).data@.len() == old(self).data@.len(),
            r is Err <==> old(self).data@.len() < old(self).size + 12,
            match r {
                Ok(()) => final(self).size == old(self).size + 12 && final(self).entries() == old(
                    self,
                ).entries().push(IndexEntry { record_offset, position }),
                Err(e) => e == IndexError::IndexFullError && final(self).size == old(self).size
                    && final(self).data@ == old(self).data@,
            },
    {
        if self.data.len() - self.size < 12 {
            return Err(IndexError::IndexFullError);
        }
        let s = self.size;
        self.data.set(s, (record_offset >> 24) as u8);
        self.data.set(s + 1, (record_offset >> 16) as u8);
        self.data.set(s + 2, (record_offset >> 8) as u8);
        self.data.set(s + 3, record_offset as u8);
        self.data.set(s + 4, (position >> 56) as u8);
        self.data.set(s + 5, (position >> 48) as u8);
        self.data.set(s + 6, (position >> 40) as u8);
        self.data.set(s + 7, (position >> 32) as u8);
        self.data.set(s + 8, (position >> 24) as u8);
        self.data.set(s + 9, (position >> 16) as u8);
        self.data.set(s + 10, (position >> 8) as u8);
        self.data.set(s + 11, position as u8);
        self.size = s + 12;
        proof {
            assert(self.data@.subrange(0, s as int) =~= old(self).data@.subrange(0, s as int));
            assert(self.data@.subrange(s as int, s as int + 4) =~= spec_u32_be(record_offset));
            assert(self.data@.subrange(s as int + 4, s as int + 12) =~= spec_u64_be(position));
            lemma_entries_snoc(old(self).data@, self.data@, s as int, record_offset, position);
        }
        Ok(())
    }

    /// Returns the entry at ordinal `index_position`, or `None` when the
    /// index is empty or the ordinal is past the last entry.
    pub fn read(&self, index_position: u64) -> (r: Option<IndexEntry>)
        requires
            self.wf(),
        ensures
            r == (if index_position < self.entries().len() {
                Some(self.entries()[index_position as int])
            } else {
                None::<IndexEntry>
            }),
    {
        if self.size == 0 {
            return None;
        }
        let count = self.size / 12;
        proof {
            assert(12 * ((self.size as int) / 12) == self.size as int);
        }
        if index_position >= count as u64 {
            return None;
        }
        let k = index_position as usize;
        let ro = read_u32_be(&self.data, 12 * k);
        let pos = read_u64_be(&self.data, 12 * k + 4);
        Some(IndexEntry { record_offset: ro, position: pos })
    }

    /// Returns the entry with the highest ordinal, or `None` when the index
    /// is empty.
    pub fn read_last_entry(&self) -> (r: Option<IndexEntry>)
        requires
            self.wf(),
        ensures
            r == (if self.entries().len() > 0 {
                Some(self.entries().last())
            } else {
                None::<IndexEntry>
            }),
    {
        if self.size == 0 {
            return None;
        }
        proof {
            assert(12 * ((self.size as int) / 12) == self.size as int);
        }
        let idx = self.size / 12 - 1;
        self.read(idx as u64)
    }

    /// Trims the region back to the logical size, discarding the
    /// pre-allocated tail, so the file holds whole entries and nothing
    /// else. The host flushes the mapping after this. Closing twice is a
    /// no-op: once the region equals the logical size, trimming it again
    /// changes nothing.
    pub fn close(&mut self)
        requires
            old(self).wf(),
        ensures
            final(self).wf(),
            final(self).size == old(self).size,
            final(self).data@ == old(self).data@.subrange(0, old(self).size as int),
            final(self).data@.len() == final(self).size,
            final(self).data@.len() as int % 12 == 0,
            final(self).entries() == old(self).entries(),
            old(self).data@.len() == old(self).size ==> final(self).data@ == old(self).data@,
    {
        let s = self.size;
        self.data.truncate(s);
        proof {
            assert(old(self).data@.subrange(0, s as int) =~= self.data@.subrange(0, s as int));
            lemma_entries_prefix(old(self).data@, self.data@, s as int);
            if old(self).data@.len() == old(self).size {
                assert(old(self).data@.subrange(0, s as int) =~= old(self).data@);
            }
        }
    }
}

} // verus!
