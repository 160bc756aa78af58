//! A segment: one store and one index at a common base offset.
//!
//! The segment translates between absolute offsets (log-wide) and relative
//! offsets (segment-local), encodes records into store frames and decodes
//! them back, and enforces the per-segment capacity bounds. Its two file
//! images live in `dir/.store` and `dir/.index` on the host's side.

use vstd::prelude::*;

use crate::config::Config;
use crate::index::Index;
use crate::index::IndexEntry;
use crate::index::IndexError;
use crate::index::lemma_entries_prefix;
use crate::index::spec_entries;
use crate::record::Record;
use crate::record::RecordView;
use crate::record::decode_record;
use crate::record::encode_record;
use crate::record::lemma_record_round_trip;
use crate::record::spec_encode_record;
use crate::record::spec_decode_record;
use crate::store::Store;
use crate::store::StoreError;
use crate::store::lemma_frame_at_append;
use crate::store::lemma_frame_read_back;
use crate::store::spec_frame;
use crate::store::spec_frame_at;

verus! {

/// What can go wrong inside a segment.
#[derive(Debug)]
pub enum SegmentError {
    /// The encoded record does not fit in the store; the rejected record is
    /// carried so the caller can retry it on a fresh segment.
    StoreFull(Record),
    /// An index failure, surfaced unchanged.
    IndexErrors(IndexError),
    /// A store failure, surfaced unchanged.
    StoreErrors(StoreError),
    /// The bytes read back from the store do not follow the wire schema.
    DecodeError,
}

/// The offset a record gets when appended while `next` is the segment's
/// next offset: a caller-supplied offset is kept, an unset one is assigned.
pub open spec fn spec_assigned(r: RecordView, next: u64) -> Option<u64> {
    if r.offset is Some {
        r.offset
    } else {
        Some(next)
    }
}

/// The records described by a store file and a sequence of index entries:
/// for each entry, the decoding of the frame at the entry's position.
pub open spec fn spec_records_from(store_bytes: Seq<u8>, entries: Seq<IndexEntry>) -> Seq<
    RecordView,
> {
    Seq::new(
        entries.len(),
        |k: int|
            spec_decode_record(
                spec_frame_at(store_bytes, entries[k].position as int)->Some_0,
            )->Some_0,
    )
}

/// The records described by the two files of a segment.
pub open spec fn spec_files_records(store_bytes: Seq<u8>, index_bytes: Seq<u8>) -> Seq<
    RecordView,
> {
    spec_records_from(store_bytes, spec_entries(index_bytes, index_bytes.len() as int))
}

/// One entry of an index sequence is sound for a store file: it names its
/// own ordinal, a full frame lies at its position, and the frame's payload
/// follows the wire schema.
pub open spec fn spec_entry_ok(store_bytes: Seq<u8>, entries: Seq<IndexEntry>, k: int) -> bool {
    let e = entries[k];
    &&& e.record_offset == k
    &&& spec_frame_at(store_bytes, e.position as int) is Some
    &&& spec_decode_record(spec_frame_at(store_bytes, e.position as int)->Some_0) is Some
}

/// The two files of a segment are consistent: the index holds whole sound
/// entries, fits the configured region, and the offsets they stand for fit
/// the machine. This is what a clean shutdown leaves behind, and what
/// reconstruction relies on.
pub open spec fn spec_files_ok(
    store_bytes: Seq<u8>,
    index_bytes: Seq<u8>,
    base_offset: u64,
    config: Config,
) -> bool {
    let entries = spec_entries(index_bytes, index_bytes.len() as int);
    &&& index_bytes.len() as int % 12 == 0
    &&& index_bytes.len() <= config.max_index_bytes
    &&& config.max_index_bytes <= usize::MAX
    &&& entries.len() <= u32::MAX as int + 1
    &&& base_offset + entries.len() <= u64::MAX
    &&& forall|k: int| 0 <= k < entries.len() ==> #[trigger] spec_entry_ok(store_bytes, entries, k)
}


/// Decides [`spec_files_ok`] for one segment's file images, so that a host
/// can validate what a directory holds before reconstructing a segment
/// over it.
pub fn check_segment_files(
    store_bytes: &Vec<u8>,
    index_bytes: &Vec<u8>,
    base_offset: u64,
    config: &Config,
) -> (r: bool)
    ensures
        r == spec_files_ok(store_bytes@, index_bytes@, base_offset, *config),
{
    let ghost entries = spec_entries(index_bytes@, index_bytes@.len() as int);
    if index_bytes.len() % 12 != 0 {
        return false;
    }
    if (index_bytes.len() as u64) > config.max_index_bytes {
        return false;
    }
    if config.max_index_bytes > (usize::MAX as u64) {
        return false;
    }
    let count = index_bytes.len() / 12;
    proof {
        assert(12 * ((index_bytes@.len() as int) / 12) == index_bytes@.len());
        assert(entries.len() == count);
    }
    if (count as u64) > (u32::MAX as u64) + 1 {
        return false;
    }
    if (count as u64) > u64::MAX - base_offset {
        return false;
    }
    let mut k: usize = 0;
    while k < count
        invariant
            entries == spec_entries(index_bytes@, index_bytes@.len() as int),
            entries.len() == count,
            12 * count == index_bytes@.len(),
            k <= count,
            forall|j: int| 0 <= j < k ==> #[trigger] spec_entry_ok(store_bytes@, entries, j),
            count as u64 <= u32::MAX as u64 + 1,
            index_bytes@.len() <= usize::MAX,
            count <= usize::MAX,
        decreases count - k,
    {
        proof {
            assert(12 * (k as int) + 12 <= index_bytes@.len());
        }
        let rel = crate::wire::read_u32_be(index_bytes, 12 * k);
        let pos = crate::wire::read_u64_be(index_bytes, 12 * k + 4);
        proof {
            assert(entries[k as int] == IndexEntry { record_offset: rel, position: pos });
        }
        if (rel as u64) != (k as u64) {
            proof {
                assert(!spec_entry_ok(store_bytes@, entries, k as int));
            }
            return false;
        }
        let slen = store_bytes.len();
        if pos >= slen as u64 || (slen as u64) - pos < 8 {
            proof {
                assert(spec_frame_at(store_bytes@, pos as int) is None);
                assert(!spec_entry_ok(store_bytes@, entries, k as int));
            }
            return false;
        }
        let p = pos as usize;
        let l = crate::wire::read_u64_be(store_bytes, p);
        if l > ((slen - p - 8) as u64) {
            proof {
                assert(spec_frame_at(store_bytes@, pos as int) is None);
                assert(!spec_entry_ok(store_bytes@, entries, k as int));
            }
            return false;
        }
        let payload = crate::record::copy_range(store_bytes, p + 8, p + 8 + (l as usize));
        proof {
            assert(spec_frame_at(store_bytes@, pos as int) == Some(payload@));
        }
        match decode_record(&payload) {
            Ok(_) => {},
            Err(_) => {
                proof {
                    assert(!spec_entry_ok(store_bytes@, entries, k as int));
                }
                return false;
            },
        }
        k = k + 1;
    }
    true
}

/// One store and one index sharing a directory and a base offset.
pub struct Segment {
    pub store: Store,
    pub index: Index,
    /// The absolute offset of the first record this segment holds.
    pub base_offset: u64,
    /// The absolute offset the next appended record will receive.
    pub next_offset: u64,
    pub config: Config,
}

impl Segment {
    /// The records this segment holds: the record at relative offset `k`
    /// is the decoding of the store frame its index entry points at.
    pub open spec fn records(&self) -> Seq<RecordView> {
        spec_records_from(self.store.data@, self.index.entries())
    }

    /// The segment invariant: the index is well formed, every entry is
    /// sound for the store, entries name their ordinals, and `next_offset`
    /// is `base_offset` plus the number of records held.
    pub open spec fn wf(&self) -> bool {
        &&& self.index.wf()
        &&& self.store.config == self.config
        &&& self.index.data@.len() <= self.config.max_index_bytes
        &&& self.config.max_index_bytes <= usize::MAX
        &&& self.index.entries().len() <= u32::MAX as int + 1
        &&& self.base_offset + self.index.entries().len() <= u64::MAX
        &&& self.next_offset == self.base_offset + self.index.entries().len()
        &&& forall|k: int|
            0 <= k < self.index.entries().len() ==> #[trigger] spec_entry_ok(
                self.store.data@,
                self.index.entries(),
                k,
            )
    }

    /// Opens a segment over the current bytes of its two files.
    /// `next_offset` resumes after the last indexed record: the last
    /// entry's relative offset plus one, above the base offset; an empty
    /// index starts at the base offset itself.
    pub fn new(store_bytes: Vec<u8>, index_bytes: Vec<u8>, base_offset: u64, config: Config) -> (r:
        Segment)
        requires
            spec_files_ok(store_bytes@, index_bytes@, base_offset, config),
        ensures
            r.wf(),
            r.config == config,
            r.base_offset == base_offset,
            r.store.data@ == store_bytes@,
            r.index.entries() == spec_entries(index_bytes@, index_bytes@.len() as int),
            r.index.size == index_bytes@.len(),
            r.index.data@.len() == config.max_index_bytes,
            r.next_offset == base_offset + r.index.entries().len(),
            r.records() == spec_files_records(store_bytes@, index_bytes@),
    {
        let ghost entries = spec_entries(index_bytes@, index_bytes@.len() as int);
        let store = Store::new(store_bytes, config);
        let index = Index::new(index_bytes, &config);
        let next_offset = match index.read_last_entry() {
            Some(e) => {
                proof {
                    assert(spec_entry_ok(store.data@, entries, entries.len() - 1));
                }
                e.record_offset as u64 + 1 + base_offset
            },
            None => base_offset,
        };
        let r = Segment { store, index, base_offset, next_offset, config };
        proof {
            assert forall|k: int| 0 <= k < r.index.entries().len() implies #[trigger] spec_entry_ok(
                r.store.data@,
                r.index.entries(),
                k,
            ) by {
                assert(spec_entry_ok(store_bytes@, entries, k));
            }
            assert(r.records() =~= spec_files_records(store_bytes@, index_bytes@));
        }
        r
    }

    /// Appends `record`, assigning it the segment's next offset if it
    /// carries none. Returns the absolute offset of the stored record.
    ///
    /// Fails with `StoreFull` — carrying the record, with nothing mutated —
    /// exactly when the encoded record does not pass the store's capacity
    /// check, and with `IndexFullError` — with no record added — exactly
    /// when the store has room but the index cannot take one more entry
    /// (its region is exhausted, or relative offsets have outgrown 32
    /// bits).
    #[verifier::rlimit(100)]
    #[verifier::spinoff_prover]
    pub fn append(&mut self, record: Record) -> (r: Result<u64, SegmentError>)
        requires
            old(self).wf(),
            old(self).next_offset < u64::MAX,
            old(self).store.data@.len() + record.value@.len() + 30 <= usize::MAX,
        ensures
            final(self).wf(),
            final(self).base_offset == old(self).base_offset,
            final(self).config == old(self).config,
            ({
                let assigned = spec_assigned(record@, old(self).next_offset);
                let enc_len = spec_encode_record(
                    RecordView { value: record.value@, offset: assigned },
                ).len();
                let can_store = old(self).store.data@.len() + enc_len + 8
                    < old(self).config.max_store_bytes;
                let index_room = old(self).index.data@.len() >= old(self).index.size + 12;
                let rel_fits = old(self).index.entries().len() <= u32::MAX;
                &&& (r is Ok <==> can_store && index_room && rel_fits)
                &&& (r matches Err(e) ==> (e is StoreFull <==> !can_store))
                &&& match r {
                    Ok(off) => {
                        let enc = spec_encode_record(
                            RecordView { value: record.value@, offset: assigned },
                        );
                        &&& off == old(self).next_offset
                        &&& final(self).next_offset == old(self).next_offset + 1
                        &&& final(self).records() == old(self).records().push(
                            RecordView { value: record.value@, offset: assigned },
                        )
                        &&& final(self).store.data@ == old(self).store.data@ + spec_frame(enc)
                        &&& final(self).index.size == old(self).index.size + 12
                        &&& final(self).index.data@.len() == old(self).index.data@.len()
                        &&& final(self).index.entries() == old(self).index.entries().push(
                            IndexEntry {
                                record_offset: old(self).index.entries().len() as u32,
                                position: old(self).store.data@.len() as u64,
                            },
                        )
                    },
                    Err(e) => {
                        let enc = spec_encode_record(
                            RecordView { value: record.value@, offset: assigned },
                        );
                        &&& final(self).next_offset == old(self).next_offset
                        &&& final(self).records() == old(self).records()
                        &&& final(self).index.data@ == old(self).index.data@
                        &&& final(self).index.size == old(self).index.size
                        &&& match e {
                            SegmentError::StoreFull(rec) => {
                                &&& rec.value@ == record.value@
                                &&& rec.offset == assigned
                                &&& final(self).store.data@ == old(self).store.data@
                            },
                            SegmentError::IndexErrors(ie) => {
                                &&& ie is IndexFullError
                                &&& final(self).store.data@ == (if rel_fits {
                                    old(self).store.data@ + spec_frame(enc)
                                } else {
                                    old(self).store.data@
                                })
                            },
                            _ => false,
                        }
                    },
                }
            }),
    {
        let record_offset = self.next_offset;
        let mut record = record;
        if record.offset.is_none() {
            record.offset = Some(record_offset);
        }
        let record_buf = encode_record(&record);

        if !self.store.can_store_record(record_buf.len()) {
            return Err(SegmentError::StoreFull(record));
        }
        let rel = record_offset - self.base_offset;
        if rel > u32::MAX as u64 {
            return Err(SegmentError::IndexErrors(IndexError::IndexFullError));
        }
        let ghost pre = *self;
        let ghost enc = record_buf@;
        let (_total_written, position) = match self.store.append(record_buf) {
            Ok(wp) => wp,
            Err(_) => {
                proof {
                    assert(false);
                }
                return Err(SegmentError::DecodeError);
            },
        };
        proof {
            lemma_store_extend_keeps_records(pre, *self, spec_frame(enc));
        }
        let ghost mid = *self;
        match self.index.write(rel as u32, position as u64) {
            Ok(()) => {},
            Err(e) => {
                proof {
                    assert(self.records() =~= mid.records());
                }
                return Err(SegmentError::IndexErrors(e));
            },
        }
        self.next_offset = record_offset + 1;
        proof {
            let entries = self.index.entries();
            let n = entries.len() - 1;
            assert(entries == mid.index.entries().push(
                IndexEntry { record_offset: rel as u32, position: position as u64 },
            ));
            lemma_frame_read_back(pre.store.data@, enc);
            lemma_record_round_trip(record@);
            assert forall|k: int| 0 <= k < entries.len() implies #[trigger] spec_entry_ok(
                self.store.data@,
                entries,
                k,
            ) by {
                if k < n {
                    assert(entries[k] == mid.index.entries()[k]);
                    assert(spec_entry_ok(mid.store.data@, mid.index.entries(), k));
                } else {
                    assert(entries[k].position == pre.store.data@.len());
                }
            }
            assert forall|k: int| 0 <= k < entries.len() implies self.records()[k] == old(
                self,
            ).records().push(record@)[k] by {
                if k < n {
                    assert(spec_entry_ok(mid.store.data@, mid.index.entries(), k));
                    assert(entries[k] == mid.index.entries()[k]);
                    assert(mid.records()[k] == pre.records()[k]);
                } else {
                    assert(entries[k].position == pre.store.data@.len());
                }
            }
            assert(self.records() =~= old(self).records().push(record@));
        }
        Ok(record_offset)
    }

    /// Reads the record at the absolute offset `offset`. Succeeds exactly
    /// when the segment holds that offset; otherwise fails with
    /// `IndexEntryNotFound` carrying the relative offset.
    pub fn read(&self, offset: u64) -> (r: Result<Record, SegmentError>)
        requires
            self.wf(),
            offset >= self.base_offset,
        ensures
            match r {
                Ok(rec) => offset < self.next_offset && rec@ == self.records()[offset as int
                    - self.base_offset as int],
                Err(e) => offset >= self.next_offset && e == SegmentError::IndexErrors(
                    IndexError::IndexEntryNotFound((offset - self.base_offset) as u32),
                ),
            },
    {
        let rel = offset - self.base_offset;
        match self.index.read(rel) {
            None => Err(SegmentError::IndexErrors(IndexError::IndexEntryNotFound(rel as u32))),
            Some(entry) => {
                proof {
                    assert(spec_entry_ok(self.store.data@, self.index.entries(), rel as int));
                }
                match self.store.read(entry.position) {
                    Ok(bytes) => match decode_record(&bytes) {
                        Ok(rec) => Ok(rec),
                        Err(_) => {
                            proof {
                                assert(false);
                            }
                            Err(SegmentError::DecodeError)
                        },
                    },
                    Err(_) => {
                        proof {
                            assert(false);
                        }
                        Err(
                            SegmentError::StoreErrors(
                                StoreError::StoreEntryNotFound(entry.position),
                            ),
                        )
                    },
                }
            },
        }
    }

    /// True when either file has reached its configured capacity, so the
    /// log should roll a new segment over.
    pub fn is_maxed(&self) -> (r: bool)
        ensures
            r == (self.store.data@.len() >= self.config.max_store_bytes || self.index.size
                >= self.config.max_index_bytes),
    {
        self.store.size() as u64 >= self.config.max_store_bytes || self.index.size as u64
            >= self.config.max_index_bytes
    }

    /// Closes the segment: trims the index region to its logical size so
    /// the host can flush and persist it. The store needs no close work.
    pub fn close(&mut self)
        requires
            old(self).wf(),
        ensures
            final(self).wf(),
            final(self).base_offset == old(self).base_offset,
            final(self).next_offset == old(self).next_offset,
            final(self).config == old(self).config,
            final(self).store == old(self).store,
            final(self).index.size == old(self).index.size,
            final(self).index.data@ == old(self).index.data@.subrange(
                0,
                old(self).index.size as int,
            ),
            final(self).index.entries() == old(self).index.entries(),
            final(self).records() == old(self).records(),
    {
        self.index.close();
        proof {
            assert(self.records() =~= old(self).records());
        }
    }

    /// Closes the segment — trimming the index region to its logical size,
    /// like `close` — after which the host unlinks both files.
    pub fn remove(&mut self)
        requires
            old(self).wf(),
        ensures
            final(self).wf(),
            final(self).base_offset == old(self).base_offset,
            final(self).next_offset == old(self).next_offset,
            final(self).config == old(self).config,
            final(self).store == old(self).store,
            final(self).index.size == old(self).index.size,
            final(self).index.data@ == old(self).index.data@.subrange(
                0,
                old(self).index.size as int,
            ),
            final(self).index.entries() == old(self).index.entries(),
            final(self).records() == old(self).records(),
    {
        self.close();
    }
}

/// Extending the store file leaves every indexed record in place.
proof fn lemma_store_extend_keeps_records(pre: Segment, post: Segment, ext: Seq<u8>)
    requires
        pre.wf(),
        post.store.data@ == pre.store.data@ + ext,
        post.index == pre.index,
        post.base_offset == pre.base_offset,
    ensures
        post.records() == pre.records(),
        forall|k: int|
            0 <= k < post.index.entries().len() ==> #[trigger] spec_entry_ok(
                post.store.data@,
                post.index.entries(),
                k,
            ),
{
    let entries = pre.index.entries();
    assert forall|k: int| 0 <= k < entries.len() implies #[trigger] spec_entry_ok(
        post.store.data@,
        entries,
        k,
    ) by {
        assert(spec_entry_ok(pre.store.data@, entries, k));
        lemma_frame_at_append(pre.store.data@, ext, entries[k].position as int);
    }
    assert forall|k: int| 0 <= k < entries.len() implies post.records()[k] == pre.records()[k] by {
        assert(spec_entry_ok(pre.store.data@, entries, k));
        lemma_frame_at_append(pre.store.data@, ext, entries[k].position as int);
    }
    assert(post.records() =~= pre.records());
}

/// Reconstruction inverts a clean close: the two file images a well-formed
/// segment leaves behind after `close` satisfy [`spec_files_ok`], and a
/// segment rebuilt from them holds the same records over the same offsets.
pub proof fn lemma_reopen(seg: Segment)
    requires
        seg.wf(),
    ensures
        spec_files_ok(
            seg.store.data@,
            seg.index.data@.subrange(0, seg.index.size as int),
            seg.base_offset,
            seg.config,
        ),
        spec_entries(
            seg.index.data@.subrange(0, seg.index.size as int),
            seg.index.size as int,
        ) == seg.index.entries(),
        spec_files_records(
            seg.store.data@,
            seg.index.data@.subrange(0, seg.index.size as int),
        ) == seg.records(),
{
    let size = seg.index.size as int;
    let closed = seg.index.data@.subrange(0, size);
    assert(closed.subrange(0, size) =~= seg.index.data@.subrange(0, size));
    lemma_entries_prefix(seg.index.data@, closed, size);
    let entries = spec_entries(closed, size);
    assert forall|k: int| 0 <= k < entries.len() implies #[trigger] spec_entry_ok(
        seg.store.data@,
        entries,
        k,
    ) by {
        assert(spec_entry_ok(seg.store.data@, seg.index.entries(), k));
    }
    assert(spec_files_records(seg.store.data@, closed) =~= seg.records());
}

} // verus!
