//! The log: an ordered collection of segments over one directory.
//!
//! The log routes appends to the active segment (always the one with the
//! highest base offset), rolls a new segment over when the active one
//! fills, routes reads by absolute offset, and reconstructs its state from
//! the per-segment file images found in its directory. Each segment lives
//! in a subdirectory named by the decimal form of its base offset; the host
//! enumerates those subdirectories, parses their names with
//! [`parse_base_offset`] and hands the file images in as [`SegmentFiles`].

use vstd::prelude::*;

use crate::config::Config;
use crate::index::IndexEntry;
use crate::index::IndexError;
use crate::index::spec_entries;
use crate::record::Record;
use crate::record::RecordView;
use crate::segment::Segment;
use crate::segment::SegmentError;
use crate::segment::spec_assigned;
use crate::record::spec_encode_record;
use crate::segment::spec_files_ok;
use crate::segment::spec_files_records;
use crate::store::StoreError;
use crate::store::spec_frame;

verus! {

/// Bytes used by a frame's length prefix in a store file.
pub const LEN_WIDTH: u8 = 8;

/// Bytes used by an index entry's relative offset.
pub const INDEX_RECORD_OFFSET_LENGTH: u8 = 4;

/// Bytes used by an index entry's store position.
pub const POSITION_IN_STORE_FILE_LENGTH: u8 = 8;

/// Bytes used by one whole index entry.
pub const INDEX_ENTRY_LENGTH: u8 = INDEX_RECORD_OFFSET_LENGTH + POSITION_IN_STORE_FILE_LENGTH;

/// What can go wrong inside a log.
#[derive(Debug)]
pub enum LogError {
    /// A subdirectory of the log directory is not named by a base offset.
    InvalidSegmentFile(String),
    /// The record's value is longer than the configured cap.
    RecordTooLarge,
    /// A name could not be parsed as a decimal `u64`.
    ParseIntError,
    /// An index failure, surfaced unchanged.
    IndexErrors(IndexError),
    /// A store failure, surfaced unchanged.
    StoreErrors(StoreError),
    /// A segment failure, surfaced unchanged.
    SegmentErrors(SegmentError),
}

/// The on-disk image of one segment: the base offset its subdirectory is
/// named by, and the bytes of its two files.
pub struct SegmentFiles {
    pub base_offset: u64,
    pub store_bytes: Vec<u8>,
    pub index_bytes: Vec<u8>,
}

/// The offset one past the last record described by a segment's files.
pub open spec fn spec_file_next(f: SegmentFiles) -> int {
    f.base_offset + spec_entries(f.index_bytes@, f.index_bytes@.len() as int).len()
}

/// A segment was opened over exactly the files `f` describes.
#[verifier::opaque]
pub open spec fn seg_matches_file(seg: Segment, f: SegmentFiles, config: Config) -> bool {
    &&& seg.base_offset == f.base_offset
    &&& seg.store.data@ == f.store_bytes@
    &&& seg.index.entries() == spec_entries(f.index_bytes@, f.index_bytes@.len() as int)
    &&& seg.records() == spec_files_records(f.store_bytes@, f.index_bytes@)
    &&& seg.next_offset == spec_file_next(f)
    &&& seg.config == config
}

/// A set of segment file images a log can be reconstructed from: each one
/// consistent on its own, given in strictly ascending base-offset order
/// (the host sorts the parsed directory names, as [`sort_base_offsets`]
/// does), with pairwise disjoint offset ranges, each segment starting
/// exactly where the one below it ends — as the log lays them out.
pub open spec fn spec_log_files_ok(files: Seq<SegmentFiles>, config: Config) -> bool {
    &&& config.max_index_bytes <= usize::MAX
    &&& forall|i: int|
        0 <= i < files.len() ==> #[trigger] spec_files_ok(
            files[i].store_bytes@,
            files[i].index_bytes@,
            files[i].base_offset,
            config,
        )
    &&& forall|i: int, j: int|
        0 <= i < j < files.len() ==> (#[trigger] files[i]).base_offset < (
        #[trigger] files[j]).base_offset
    &&& forall|i: int, j: int|
        0 <= i < j < files.len() ==> #[trigger] spec_file_next(files[i])
            <= (#[trigger] files[j]).base_offset
    &&& forall|i: int|
        0 <= i < files.len() - 1 ==> #[trigger] spec_file_next(files[i]) == files[i
            + 1].base_offset
}

/// Two segments agree on everything the contracts speak of: identities,
/// file images and (hence) records.
pub open spec fn seg_state_eq(a: Segment, b: Segment) -> bool {
    &&& a.base_offset == b.base_offset
    &&& a.next_offset == b.next_offset
    &&& a.store.data@ == b.store.data@
    &&& a.index.data@ == b.index.data@
    &&& a.index.size == b.index.size
    &&& a.config == b.config
}

/// The record at absolute offset `offset` in a sequence of segments: the
/// first segment whose offset range contains it answers.
pub open spec fn spec_find(segs: Seq<Segment>, offset: u64) -> Option<RecordView>
    decreases segs.len(),
{
    if segs.len() == 0 {
        None
    } else if segs[0].base_offset <= offset < segs[0].next_offset {
        Some(segs[0].records()[offset - segs[0].base_offset])
    } else {
        spec_find(segs.skip(1), offset)
    }
}

/// The segments are sorted by base offset with pairwise disjoint ranges,
/// and each covers exactly its record count.
pub open spec fn segs_sorted(segs: Seq<Segment>) -> bool {
    &&& forall|i: int|
        0 <= i < segs.len() ==> (#[trigger] segs[i]).next_offset == segs[i].base_offset
            + segs[i].records().len()
    &&& forall|i: int, j: int|
        0 <= i < j < segs.len() ==> (#[trigger] segs[i]).next_offset
            <= (#[trigger] segs[j]).base_offset
}

/// A segment that holds no record changes no lookup.
proof fn lemma_find_push_empty(segs: Seq<Segment>, s: Segment, offset: u64)
    requires
        s.base_offset == s.next_offset,
    ensures
        spec_find(segs.push(s), offset) == spec_find(segs, offset),
    decreases segs.len(),
{
    if segs.len() == 0 {
        assert(segs.push(s).skip(1) =~= segs);
    } else {
        assert(segs.push(s).skip(1) =~= segs.skip(1).push(s));
        lemma_find_push_empty(segs.skip(1), s, offset);
    }
}

/// Pushing a segment whose range lies above every existing range answers
/// lookups inside the new range from the new segment and leaves all other
/// lookups unchanged.
proof fn lemma_find_push_above(segs: Seq<Segment>, s: Segment, offset: u64)
    requires
        forall|i: int| 0 <= i < segs.len() ==> (#[trigger] segs[i]).next_offset <= s.base_offset,
        forall|i: int|
            0 <= i < segs.len() ==> (#[trigger] segs[i]).base_offset <= segs[i].next_offset,
    ensures
        spec_find(segs.push(s), offset) == (if s.base_offset <= offset < s.next_offset {
            Some(s.records()[offset - s.base_offset])
        } else {
            spec_find(segs, offset)
        }),
    decreases segs.len(),
{
    if segs.len() == 0 {
        assert(segs.push(s)[0] == s);
        assert(segs.push(s).skip(1) =~= segs);
    } else {
        assert(segs.push(s)[0] == segs[0]);
        if segs[0].base_offset <= offset < segs[0].next_offset {
            assert(offset < s.base_offset);
        } else {
            assert(segs.push(s).skip(1) =~= segs.skip(1).push(s));
            lemma_find_push_above(segs.skip(1), s, offset);
        }
    }
}

/// Replacing the last segment with one that holds one more record, at the
/// old next offset, answers a lookup of that offset with the new record
/// and leaves every other lookup unchanged.
proof fn lemma_find_append_last(segs: Seq<Segment>, s2: Segment, rv: RecordView, offset: u64)
    requires
        segs.len() >= 1,
        segs_sorted(segs),
        s2.base_offset == segs.last().base_offset,
        s2.next_offset == segs.last().next_offset + 1,
        s2.records() == segs.last().records().push(rv),
    ensures
        spec_find(segs.update(segs.len() - 1, s2), offset) == (if offset == segs.last().next_offset {
            Some(rv)
        } else {
            spec_find(segs, offset)
        }),
    decreases segs.len(),
{
    let n = segs.len() as int;
    let upd = segs.update(n - 1, s2);
    let old_last = segs.last();
    if n == 1 {
        assert(upd[0] == s2);
        assert(upd.skip(1) =~= Seq::<Segment>::empty());
        assert(segs.skip(1) =~= Seq::<Segment>::empty());
        if offset == old_last.next_offset {
            assert(s2.records()[offset - s2.base_offset] == rv);
        } else if s2.base_offset <= offset < s2.next_offset {
            assert(s2.records()[offset - s2.base_offset] == old_last.records()[offset
                - old_last.base_offset]);
        }
    } else {
        assert(upd[0] == segs[0]);
        if segs[0].base_offset <= offset < segs[0].next_offset {
            assert(segs[0].next_offset <= old_last.base_offset);
            assert(old_last.base_offset <= old_last.next_offset);
            assert(offset != old_last.next_offset);
        } else {
            assert(upd.skip(1) =~= segs.skip(1).update(segs.skip(1).len() - 1, s2));
            assert(segs.skip(1).last() == segs.last());
            assert(segs_sorted(segs.skip(1))) by {
                assert forall|i: int|
                    0 <= i < segs.skip(1).len() implies (#[trigger] segs.skip(1)[i]).next_offset
                    == segs.skip(1)[i].base_offset + segs.skip(1)[i].records().len() by {
                    assert(segs.skip(1)[i] == segs[i + 1]);
                }
                assert forall|i: int, j: int|
                    0 <= i < j < segs.skip(1).len() implies (#[trigger] segs.skip(
                        1,
                    )[i]).next_offset <= (#[trigger] segs.skip(1)[j]).base_offset by {
                    assert(segs.skip(1)[i] == segs[i + 1]);
                    assert(segs.skip(1)[j] == segs[j + 1]);
                }
            }
            lemma_find_append_last(segs.skip(1), s2, rv, offset);
        }
    }
}

/// Lookups are determined by each segment's base, next offset and records.
proof fn lemma_find_equiv(s1: Seq<Segment>, s2: Seq<Segment>, offset: u64)
    requires
        s1.len() == s2.len(),
        forall|i: int|
            0 <= i < s1.len() ==> (#[trigger] s1[i]).base_offset == (#[trigger] s2[i]).base_offset
                && s1[i].next_offset == s2[i].next_offset && s1[i].records() == s2[i].records(),
    ensures
        spec_find(s1, offset) == spec_find(s2, offset),
    decreases s1.len(),
{
    if s1.len() > 0 {
        assert(s1[0].base_offset == s2[0].base_offset);
        assert forall|i: int|
            0 <= i < s1.skip(1).len() implies (#[trigger] s1.skip(1)[i]).base_offset == (
        #[trigger] s2.skip(1)[i]).base_offset && s1.skip(1)[i].next_offset == s2.skip(
            1,
        )[i].next_offset && s1.skip(1)[i].records() == s2.skip(1)[i].records() by {
            assert(s1.skip(1)[i] == s1[i + 1]);
            assert(s2.skip(1)[i] == s2[i + 1]);
        }
        lemma_find_equiv(s1.skip(1), s2.skip(1), offset);
    }
}

/// Dropping a leading segment whose whole range lies at or below `lowest`
/// changes no lookup above `lowest`.
proof fn lemma_find_drop_low_head(segs: Seq<Segment>, lowest: u64, offset: u64)
    requires
        segs.len() >= 1,
        segs[0].next_offset <= lowest + 1,
        offset > lowest,
    ensures
        spec_find(segs, offset) == spec_find(segs.skip(1), offset),
{
}

/// An append-only, offset-addressed commit log over one directory of
/// segments.
pub struct Log {
    pub config: Config,
    /// The segments, sorted by base offset; the last one is active.
    pub segments: Vec<Segment>,
}

impl Log {
    /// The log invariant: every segment is well formed, shares the log's
    /// configuration, and the segments are sorted with pairwise disjoint
    /// offset ranges.
    pub open spec fn wf(&self) -> bool {
        &&& self.config.max_index_bytes <= usize::MAX
        &&& forall|i: int| 0 <= i < self.segments@.len() ==> (#[trigger] self.segments@[i]).wf()
        &&& forall|i: int|
            0 <= i < self.segments@.len() ==> (#[trigger] self.segments@[i]).config == self.config
        &&& forall|i: int, j: int|
            0 <= i < j < self.segments@.len() ==> (#[trigger] self.segments@[i]).next_offset <= (
            #[trigger] self.segments@[j]).base_offset
        &&& forall|i: int|
            0 <= i < self.segments@.len() - 1 ==> (#[trigger] self.segments@[i]).next_offset
                == self.segments@[i + 1].base_offset
    }

    /// How many segments the log holds.
    pub open spec fn seg_count(&self) -> int {
        self.segments@.len() as int
    }

    /// The lowest offset the log can hold a record at.
    pub open spec fn spec_lowest(&self) -> u64 {
        self.segments@[0].base_offset
    }

    /// The offset the next appended record will receive.
    pub open spec fn spec_next(&self) -> u64 {
        self.segments@.last().next_offset
    }

    /// The record at absolute offset `offset`, if the log holds one.
    pub open spec fn spec_read(&self, offset: u64) -> Option<RecordView> {
        spec_find(self.segments@, offset)
    }

    proof fn lemma_wf_sorted(&self)
        requires
            self.wf(),
        ensures
            segs_sorted(self.segments@),
    {
        assert forall|i: int|
            0 <= i < self.segments@.len() implies (#[trigger] self.segments@[i]).next_offset
            == self.segments@[i].base_offset + self.segments@[i].records().len() by {
            assert(self.segments@[i].wf());
        }
    }

    /// Creates a fresh, empty segment at `offset` and makes it active.
    /// The host creates the matching subdirectory.
    fn new_segment(&mut self, offset: u64)
        requires
            old(self).wf(),
            old(self).seg_count() == 0 || old(self).segments@.last().next_offset == offset,
        ensures
            final(self).wf(),
            final(self).config == old(self).config,
            final(self).segments@.len() == old(self).segments@.len() + 1,
            final(self).segments@ == old(self).segments@.push(final(self).segments@.last()),
            ({
                let s = final(self).segments@.last();
                &&& s.base_offset == offset
                &&& s.next_offset == offset
                &&& s.records().len() == 0
                &&& s.store.data@.len() == 0
                &&& s.index.size == 0
                &&& s.index.data@.len() == final(self).config.max_index_bytes
                &&& s.index.entries().len() == 0
                &&& s.wf()
            }),
            forall|o: u64| final(self).spec_read(o) == old(self).spec_read(o),
    {
        let store_bytes: Vec<u8> = Vec::new();
        let index_bytes: Vec<u8> = Vec::new();
        proof {
            assert(spec_entries(index_bytes@, 0).len() == 0);
            assert(spec_files_ok(store_bytes@, index_bytes@, offset, self.config));
        }
        let segment = Segment::new(store_bytes, index_bytes, offset, self.config);
        let ghost pre = *self;
        self.segments.push(segment);
        proof {
            assert forall|i: int, j: int|
                0 <= i < j < self.segments@.len() implies (#[trigger] self.segments@[i]).next_offset
                <= (#[trigger] self.segments@[j]).base_offset by {
                if j < pre.segments@.len() {
                    assert(pre.segments@[i].next_offset <= pre.segments@[j].base_offset);
                } else {
                    assert(self.segments@[j] == segment);
                    if i < pre.segments@.len() - 1 {
                        assert(pre.segments@[i].next_offset <= pre.segments@[pre.segments@.len()
                            - 1].base_offset);
                        assert(pre.segments@[pre.segments@.len() - 1].wf());
                    }
                }
            }
            assert forall|i: int|
                0 <= i < self.segments@.len() - 1 implies (
            #[trigger] self.segments@[i]).next_offset == self.segments@[i + 1].base_offset by {
                if i < pre.segments@.len() - 1 {
                    assert(self.segments@[i] == pre.segments@[i]);
                    assert(self.segments@[i + 1] == pre.segments@[i + 1]);
                }
            }
            assert forall|o: u64| self.spec_read(o) == pre.spec_read(o) by {
                lemma_find_push_empty(pre.segments@, segment, o);
            }
        }
    }

    /// Builds a log over the file images found in a directory — given in
    /// ascending base-offset order — or over a single fresh segment at
    /// `initial_offset` when the directory holds none. Segment `i` is
    /// opened over `files[i]`. Without a configuration the default one is
    /// used.
    pub fn new(files: Vec<SegmentFiles>, config: Option<Config>) -> (r: Log)
        requires
            ({
                let cfg = match config {
                    Some(c) => c,
                    None => Config {
                        max_index_bytes: 1024,
                        max_store_bytes: 1024,
                        initial_offset: 0,
                        max_record_size_kb: 400,
                    },
                };
                spec_log_files_ok(files@, cfg)
            }),
        ensures
            r.wf(),
            r.config == (match config {
                Some(c) => c,
                None => Config {
                    max_index_bytes: 1024,
                    max_store_bytes: 1024,
                    initial_offset: 0,
                    max_record_size_kb: 400,
                },
            }),
            r.seg_count() >= 1,
            files@.len() == 0 ==> r.seg_count() == 1 && r.spec_lowest() == r.config.initial_offset
                && r.spec_next() == r.config.initial_offset && (forall|o: u64|
                r.spec_read(o) is None) && r.segments@[0].store.data@.len() == 0
                && r.segments@[0].index.size == 0 && r.segments@[0].index.data@.len()
                == r.config.max_index_bytes && r.segments@[0].records().len() == 0,
            files@.len() > 0 ==> r.seg_count() == files@.len() && (forall|i: int|
                0 <= i < files@.len() ==> seg_matches_file(
                    #[trigger] r.segments@[i],
                    files@[i],
                    r.config,
                )),
    {
        let cfg = match config {
            Some(c) => c,
            None => Config::default(),
        };
        let mut log = Log { config: cfg, segments: Vec::new() };
        let ghost fv = files@;
        let mut files = files;
        let n = files.len();
        let mut t: usize = 0;
        while t < n
            invariant
                n == fv.len(),
                t <= n,
                files@.len() == n - t,
                forall|j: int| 0 <= j < n - t ==> files@[j] == fv[j + t],
                log.config == cfg,
                spec_log_files_ok(fv, cfg),
                log.segments@.len() == t,
                forall|i: int| 0 <= i < t ==> (#[trigger] log.segments@[i]).wf(),
                forall|i: int| 0 <= i < t ==> (#[trigger] log.segments@[i]).config == cfg,
                forall|i: int, j: int|
                    0 <= i < j < t ==> (#[trigger] log.segments@[i]).next_offset <= (
                    #[trigger] log.segments@[j]).base_offset,
                forall|i: int|
                    0 <= i < t - 1 ==> (#[trigger] log.segments@[i]).next_offset
                        == log.segments@[i + 1].base_offset,
                forall|i: int|
                    0 <= i < t ==> seg_matches_file(#[trigger] log.segments@[i], fv[i], cfg),
            decreases n - t,
        {
            let f = files.remove(0);
            assert(f == fv[t as int]);
            proof {
                assert(spec_files_ok(f.store_bytes@, f.index_bytes@, f.base_offset, cfg));
            }
            let base_offset = f.base_offset;
            let segment = Segment::new(f.store_bytes, f.index_bytes, base_offset, cfg);
            proof {
                reveal(seg_matches_file);
                assert(seg_matches_file(segment, fv[t as int], cfg));
                assert forall|i: int|
                    0 <= i < t implies (#[trigger] log.segments@[i]).next_offset
                    <= segment.base_offset by {
                    assert(seg_matches_file(log.segments@[i], fv[i], cfg));
                    assert(fv[i].base_offset < fv[t as int].base_offset);
                    assert(spec_file_next(fv[i]) <= fv[t as int].base_offset);
                }
                if t > 0 {
                    assert(seg_matches_file(log.segments@[t - 1], fv[t - 1], cfg));
                    assert(spec_file_next(fv[t - 1]) == fv[t as int].base_offset);
                    assert(log.segments@[t - 1].next_offset == segment.base_offset);
                }
            }
            log.segments.push(segment);
            t = t + 1;
        }
        if log.segments.len() == 0 {
            let offset = log.config.initial_offset;
            log.new_segment(offset);
            proof {
                assert(log.segments@.last() == log.segments@[0]);
                assert forall|o: u64| log.spec_read(o) is None by {
                    assert(log.segments@.skip(1) =~= Seq::<Segment>::empty());
                }
            }
        }
        log
    }
}

/// Sorts base offsets into ascending order, as log construction wants
/// them: the result is sorted and holds exactly the given offsets.
pub fn sort_base_offsets(offsets: Vec<u64>) -> (r: Vec<u64>)
    ensures
        forall|i: int, j: int| 0 <= i < j < r@.len() ==> r@[i] <= r@[j],
        r@.to_multiset() == offsets@.to_multiset(),
        r@.len() == offsets@.len(),
{
    broadcast use vstd::seq_lib::group_to_multiset_ensures;

    let ghost orig = offsets@;
    let mut rest = offsets;
    let mut out: Vec<u64> = Vec::new();
    while rest.len() > 0
        invariant
            forall|i: int, j: int| 0 <= i < j < out@.len() ==> out@[i] <= out@[j],
            forall|i: int, j: int|
                0 <= i < out@.len() && 0 <= j < rest@.len() ==> out@[i] <= rest@[j],
            out@.to_multiset().add(rest@.to_multiset()) == orig.to_multiset(),
            out@.len() + rest@.len() == orig.len(),
        decreases rest@.len(),
    {
        let mut m: usize = 0;
        let mut i: usize = 1;
        while i < rest.len()
            invariant
                m < rest@.len(),
                i <= rest@.len(),
                forall|j: int| 0 <= j < i ==> rest@[m as int] <= rest@[j],
            decreases rest@.len() - i,
        {
            if rest[i] < rest[m] {
                m = i;
            }
            i = i + 1;
        }
        let ghost pre_out = out@;
        let ghost pre_rest = rest@;
        let x = rest.remove(m);
        out.push(x);
        proof {
            broadcast use vstd::seq_lib::group_to_multiset_ensures;

            assert(out@ == pre_out.push(x));
            assert(rest@ == pre_rest.remove(m as int));
            assert(pre_rest[m as int] == x);
            assert(pre_out.push(x).to_multiset() =~= pre_out.to_multiset().insert(x));
            assert(pre_rest.remove(m as int).to_multiset() =~= pre_rest.to_multiset().remove(
                pre_rest[m as int],
            ));
            assert(out@.to_multiset() =~= pre_out.to_multiset().insert(x));
            assert(rest@.to_multiset() =~= pre_rest.to_multiset().remove(x));
            assert(out@.to_multiset().add(rest@.to_multiset()) =~= orig.to_multiset());
            assert forall|a: int, b: int|
                0 <= a < out@.len() && 0 <= b < rest@.len() implies out@[a] <= rest@[b] by {
                if a < pre_out.len() {
                    assert(pre_rest.to_multiset().contains(rest@[b]));
                    let w = choose|w: int| 0 <= w < pre_rest.len() && pre_rest[w] == rest@[b];
                    assert(pre_out[a] <= pre_rest[w]);
                } else {
                    if b < m {
                        assert(rest@[b] == pre_rest[b]);
                    } else {
                        assert(rest@[b] == pre_rest[b + 1]);
                    }
                }
            }
        }
    }
    out
}

impl Log {
    /// How many segments the log currently holds.
    pub fn segment_count(&self) -> (r: usize)
        ensures
            r == self.seg_count(),
    {
        self.segments.len()
    }

    /// The base offset of the oldest segment: the lowest offset the log can
    /// hold a record at.
    pub fn lowest_offset(&self) -> (r: Result<u64, LogError>)
        requires
            self.seg_count() >= 1,
        ensures
            r matches Ok(v) && v == self.spec_lowest(),
    {
        Ok(self.segments[0].base_offset)
    }

    /// The offset of the newest record, or `0` when the log holds no
    /// segments.
    pub fn highest_offset(&self) -> (r: Result<u64, LogError>)
        requires
            self.seg_count() == 0 || self.spec_next() > 0,
        ensures
            r matches Ok(v) && v == (if self.seg_count() == 0 {
                0
            } else {
                (self.spec_next() - 1) as u64
            }),
    {
        if self.segments.len() == 0 {
            return Ok(0);
        }
        let last = self.segments.len() - 1;
        Ok(self.segments[last].next_offset - 1)
    }

    /// Appends `record` to the active segment, rolling a new segment over
    /// when that segment is full: reactively — retrying the same record on
    /// a fresh segment — when the store rejects it, and proactively after a
    /// success that leaves the segment maxed. Returns the absolute offset
    /// assigned; successive successful appends return consecutive offsets.
    ///
    /// Rejects a value longer than `max_record_size_kb` (a byte count,
    /// despite the name) with `RecordTooLarge`, before touching any state.
    /// Succeeds exactly when the value is within that cap and the encoded
    /// record passes the capacity check of the active segment (whose index
    /// must then also have room) or, failing that, of a fresh one.
    #[verifier::rlimit(100)]
    pub fn append(&mut self, record: Record) -> (r: Result<u64, LogError>)
        requires
            old(self).wf(),
            old(self).seg_count() >= 1,
            old(self).spec_next() < u64::MAX,
            old(self).segments@.last().store.data@.len() + record.value@.len() + 30 <= usize::MAX,
        ensures
            final(self).wf(),
            final(self).seg_count() >= 1,
            final(self).config == old(self).config,
            final(self).spec_lowest() == old(self).spec_lowest(),
            ({
                let assigned = spec_assigned(record@, old(self).spec_next());
                let rv = RecordView { value: record.value@, offset: assigned };
                let enc_len = spec_encode_record(rv).len();
                let active = old(self).segments@.last();
                let fits_active = active.store.data@.len() + enc_len + 8 < old(
                    self,
                ).config.max_store_bytes;
                let fits_fresh = enc_len + 8 < old(self).config.max_store_bytes;
                let active_room = active.index.data@.len() >= active.index.size + 12;
                let fresh_room = old(self).config.max_index_bytes >= 12;
                let rel_fits = active.index.entries().len() <= u32::MAX;
                let too_large = record.value@.len() > old(self).config.max_record_size_kb;
                let enc = spec_encode_record(rv);
                let n = old(self).seg_count();
                let maxed_after = active.store.data@.len() + enc_len + 8 >= old(
                    self,
                ).config.max_store_bytes || active.index.size + 12 >= old(
                    self,
                ).config.max_index_bytes;
                &&& (r is Ok <==> !too_large && ((fits_active && active_room && rel_fits) || (
                !fits_active && fits_fresh && fresh_room)))
                &&& match r {
                    Ok(off) => {
                        &&& off == old(self).spec_next()
                        &&& final(self).spec_next() == old(self).spec_next() + 1
                        &&& final(self).spec_read(off) == Some(rv)
                        &&& forall|o: u64|
                            o != off ==> final(self).spec_read(o) == old(self).spec_read(o)
                        &&& forall|i: int|
                            0 <= i < n - 1 ==> final(self).segments@[i] == old(self).segments@[i]
                        &&& (fits_active ==> {
                            let upd = final(self).segments@[n - 1];
                            &&& upd.base_offset == active.base_offset
                            &&& upd.next_offset == old(self).spec_next() + 1
                            &&& upd.store.data@ == active.store.data@ + spec_frame(enc)
                            &&& upd.index.size == active.index.size + 12
                            &&& upd.index.data@.len() == active.index.data@.len()
                            &&& upd.index.entries() == active.index.entries().push(
                                IndexEntry {
                                    record_offset: active.index.entries().len() as u32,
                                    position: active.store.data@.len() as u64,
                                },
                            )
                            &&& upd.records() == active.records().push(rv)
                        })
                        &&& (fits_active && !maxed_after ==> final(self).seg_count() == n)
                        &&& (fits_active && maxed_after ==> final(self).seg_count() == n + 1 && {
                            let fresh = final(self).segments@.last();
                            &&& fresh.base_offset == old(self).spec_next() + 1
                            &&& fresh.next_offset == old(self).spec_next() + 1
                            &&& fresh.store.data@.len() == 0
                            &&& fresh.index.size == 0
                            &&& fresh.index.data@.len() == old(self).config.max_index_bytes
                            &&& fresh.records().len() == 0
                        })
                        &&& (!fits_active ==> final(self).seg_count() == n + 1 && seg_state_eq(
                            final(self).segments@[n - 1],
                            active,
                        ) && {
                            let fresh = final(self).segments@.last();
                            &&& fresh.base_offset == old(self).spec_next()
                            &&& fresh.next_offset == old(self).spec_next() + 1
                            &&& fresh.store.data@ == spec_frame(enc)
                            &&& fresh.index.size == 12
                            &&& fresh.index.data@.len() == old(self).config.max_index_bytes
                            &&& fresh.records() == seq![rv]
                        })
                    },
                    Err(e) => {
                        &&& forall|o: u64| final(self).spec_read(o) == old(self).spec_read(o)
                        &&& final(self).spec_next() == old(self).spec_next()
                        &&& (e is RecordTooLarge <==> too_large)
                        &&& (too_large ==> final(self).segments@ == old(self).segments@)
                        &&& (!too_large && fits_active ==> final(self).seg_count() == n && (
                        forall|i: int|
                            0 <= i < n - 1 ==> final(self).segments@[i] == old(self).segments@[i])
                            && {
                            let upd = final(self).segments@[n - 1];
                            &&& upd.base_offset == active.base_offset
                            &&& upd.next_offset == active.next_offset
                            &&& upd.records() == active.records()
                            &&& upd.index.data@ == active.index.data@
                            &&& upd.index.size == active.index.size
                            &&& upd.store.data@ == (if rel_fits {
                                active.store.data@ + spec_frame(enc)
                            } else {
                                active.store.data@
                            })
                        })
                        &&& (!too_large && !fits_active ==> final(self).seg_count() == n + 1 && (
                        forall|i: int|
                            0 <= i < n - 1 ==> final(self).segments@[i] == old(self).segments@[i])
                            && seg_state_eq(final(self).segments@[n - 1], active) && {
                            let fresh = final(self).segments@.last();
                            &&& fresh.base_offset == old(self).spec_next()
                            &&& fresh.next_offset == old(self).spec_next()
                            &&& fresh.records().len() == 0
                            &&& fresh.index.size == 0
                            &&& fresh.index.data@.len() == old(self).config.max_index_bytes
                            &&& fresh.store.data@ == (if fits_fresh {
                                spec_frame(enc)
                            } else {
                                Seq::<u8>::empty()
                            })
                        })
                    },
                }
            }),
    {
        if record.value.len() > self.config.max_record_size_kb as usize {
            return Err(LogError::RecordTooLarge);
        }
        proof {
            self.lemma_wf_sorted();
        }
        let ghost pre = *self;
        let ghost assigned = spec_assigned(record@, pre.spec_next());
        let ghost rv = RecordView { value: record.value@, offset: assigned };
        let mut active = self.segments.pop().unwrap();
        let ghost restored = pre.segments@.subrange(0, pre.segments@.len() - 1);
        match active.append(record) {
            Ok(offset) => {
                let ghost active2 = active;
                let maxed = active.is_maxed();
                self.segments.push(active);
                proof {
                    assert(self.segments@ =~= pre.segments@.update(
                        pre.segments@.len() - 1,
                        active2,
                    ));
                    assert forall|o: u64|
                        self.spec_read(o) == (if o == offset {
                            Some(rv)
                        } else {
                            pre.spec_read(o)
                        }) by {
                        lemma_find_append_last(pre.segments@, active2, rv, o);
                    }
                    assert forall|i: int, j: int|
                        0 <= i < j < self.segments@.len() implies (
                    #[trigger] self.segments@[i]).next_offset <= (
                    #[trigger] self.segments@[j]).base_offset by {
                        if j < self.segments@.len() - 1 {
                            assert(pre.segments@[i].next_offset <= pre.segments@[j].base_offset);
                        } else {
                            assert(pre.segments@[i].next_offset
                                <= pre.segments@[j].base_offset);
                        }
                    }
                }
                if maxed {
                    let noff = offset + 1;
                    self.new_segment(noff);
                }
                Ok(offset)
            },
            Err(e) => {
                let ghost active2 = active;
                match e {
                    SegmentError::StoreFull(rec) => {
                        let noff = active.next_offset;
                        self.segments.push(active);
                        proof {
                            assert forall|o: u64| self.spec_read(o) == pre.spec_read(o) by {
                                lemma_find_equiv(self.segments@, pre.segments@, o);
                            }
                            assert forall|i: int, j: int|
                                0 <= i < j < self.segments@.len() implies (
                            #[trigger] self.segments@[i]).next_offset <= (
                            #[trigger] self.segments@[j]).base_offset by {
                                assert(pre.segments@[i].next_offset
                                    <= pre.segments@[j].base_offset);
                            }
                        }
                        let ghost mid = *self;
                        self.new_segment(noff);
                        let mut fresh = self.segments.pop().unwrap();
                        let ghost fresh0 = fresh;
                        let ghost kept = mid.segments@;
                        assert(self.segments@ =~= kept);
                        let r2 = fresh.append(rec);
                        let ghost fresh2 = fresh;
                        self.segments.push(fresh);
                        proof {
                            assert forall|i: int|
                                0 <= i < kept.len() implies (#[trigger] kept[i]).next_offset
                                <= fresh2.base_offset by {
                                if i < kept.len() - 1 {
                                    assert(kept[i].next_offset <= kept[kept.len()
                                        - 1].base_offset);
                                    assert(kept[kept.len() - 1].wf());
                                } else {
                                }
                            }
                        }
                        match r2 {
                            Ok(off2) => {
                                proof {
                                    assert forall|o: u64|
                                        self.spec_read(o) == (if o == off2 {
                                            Some(rv)
                                        } else {
                                            pre.spec_read(o)
                                        }) by {
                                        lemma_find_push_above(kept, fresh2, o);
                                        lemma_find_equiv(kept, pre.segments@, o);
                                        if o == off2 {
                                            assert(fresh2.records()[0] == rv);
                                        }
                                    }
                                }
                                Ok(off2)
                            },
                            Err(e2) => {
                                proof {
                                    assert(fresh2.base_offset == fresh2.next_offset);
                                    assert forall|o: u64|
                                        self.spec_read(o) == pre.spec_read(o) by {
                                        lemma_find_push_empty(kept, fresh2, o);
                                        lemma_find_equiv(kept, pre.segments@, o);
                                    }
                                }
                                Err(LogError::SegmentErrors(e2))
                            },
                        }
                    },
                    other => {
                        self.segments.push(active);
                        proof {
                            assert forall|o: u64| self.spec_read(o) == pre.spec_read(o) by {
                                lemma_find_equiv(self.segments@, pre.segments@, o);
                            }
                            assert forall|i: int, j: int|
                                0 <= i < j < self.segments@.len() implies (
                            #[trigger] self.segments@[i]).next_offset <= (
                            #[trigger] self.segments@[j]).base_offset by {
                                assert(pre.segments@[i].next_offset
                                    <= pre.segments@[j].base_offset);
                            }
                        }
                        Err(LogError::SegmentErrors(other))
                    },
                }
            },
        }
    }

    /// Reads the record at absolute offset `offset` from the segment whose
    /// range contains it. An offset no segment holds fails with
    /// `IndexEntryNotFound`, carrying the offset relative to the oldest
    /// segment (or zero, for an offset below the log's lowest).
    pub fn read(&self, offset: u64) -> (r: Result<Record, LogError>)
        requires
            self.wf(),
            self.seg_count() >= 1,
        ensures
            match r {
                Ok(rec) => self.spec_read(offset) == Some(rec@),
                Err(e) => self.spec_read(offset) is None && e == LogError::SegmentErrors(
                    SegmentError::IndexErrors(
                        IndexError::IndexEntryNotFound(
                            if offset >= self.spec_lowest() {
                                (offset - self.spec_lowest()) as u32
                            } else {
                                0u32
                            },
                        ),
                    ),
                ),
            },
    {
        let n = self.segments.len();
        proof {
            assert(self.segments@.skip(0) =~= self.segments@);
        }
        let mut i: usize = 0;
        while i < n
            invariant
                self.wf(),
                n == self.segments@.len(),
                i <= n,
                spec_find(self.segments@, offset) == spec_find(
                    self.segments@.skip(i as int),
                    offset,
                ),
            decreases n - i,
        {
            let seg = &self.segments[i];
            if seg.base_offset <= offset && offset < seg.next_offset {
                let ghost tail = self.segments@.skip(i as int);
                assert(tail[0] == self.segments@[i as int]);
                match seg.read(offset) {
                    Ok(rec) => {
                        return Ok(rec);
                    },
                    Err(_) => {
                        proof {
                            assert(false);
                        }
                        return Err(LogError::RecordTooLarge);
                    },
                }
            }
            proof {
                let tail = self.segments@.skip(i as int);
                assert(tail[0] == self.segments@[i as int]);
                assert(tail.skip(1) =~= self.segments@.skip(i as int + 1));
            }
            i = i + 1;
        }
        proof {
            assert(self.segments@.skip(n as int) =~= Seq::<Segment>::empty());
        }
        let lowest = self.segments[0].base_offset;
        if offset >= lowest {
            let rel = offset - lowest;
            Err(
                LogError::SegmentErrors(
                    SegmentError::IndexErrors(IndexError::IndexEntryNotFound(rel as u32)),
                ),
            )
        } else {
            Err(
                LogError::SegmentErrors(
                    SegmentError::IndexErrors(IndexError::IndexEntryNotFound(0)),
                ),
            )
        }
    }

    /// Drops every segment whose whole range lies at or below `lowest`:
    /// each one is closed and its files are left for the host to unlink.
    /// Every remaining segment reaches past `lowest + 1`, and every record
    /// above `lowest` stays readable.
    #[verifier::rlimit(100)]
    pub fn truncate(&mut self, lowest: u64)
        requires
            old(self).wf(),
            lowest < u64::MAX,
        ensures
            final(self).wf(),
            final(self).config == old(self).config,
            forall|i: int|
                0 <= i < final(self).seg_count()
                    ==> (#[trigger] final(self).segments@[i]).next_offset > lowest + 1,
            exists|k: int|
                0 <= k <= old(self).seg_count()
                    && final(self).segments@ == old(self).segments@.skip(k) && (forall|i: int|
                    0 <= i < k ==> (#[trigger] old(self).segments@[i]).next_offset <= lowest
                        + 1),
            forall|o: u64|
                o > lowest ==> final(self).spec_read(o) == old(self).spec_read(o),
    {
        proof {
            self.lemma_wf_sorted();
        }
        let ghost orig = old(self).segments@;
        let ghost mut k: int = 0;
        while self.segments.len() > 0 && self.segments[0].next_offset <= lowest + 1
            invariant
                old(self).wf(),
                lowest < u64::MAX,
                self.config == old(self).config,
                0 <= k <= orig.len(),
                orig == old(self).segments@,
                self.segments@ == orig.skip(k),
                forall|i: int| 0 <= i < k ==> (#[trigger] orig[i]).next_offset <= lowest + 1,
                forall|o: u64|
                    o > lowest ==> spec_find(orig, o) == spec_find(self.segments@, o),
            decreases self.segments@.len(),
        {
            let ghost curr = self.segments@;
            let mut s = self.segments.remove(0);
            proof {
                assert(curr[0] == orig[k]);
                assert(orig[k].wf());
            }
            s.remove();
            proof {
                assert(self.segments@ =~= curr.skip(1));
                assert(self.segments@ =~= orig.skip(k + 1));
                assert forall|o: u64|
                    o > lowest implies spec_find(orig, o) == spec_find(self.segments@, o) by {
                    lemma_find_drop_low_head(curr, lowest, o);
                }
                k = k + 1;
            }
        }
        proof {
            assert forall|i: int|
                0 <= i < self.segments@.len() implies (
            #[trigger] self.segments@[i]).next_offset > lowest + 1 by {
                assert(self.segments@[i] == orig[k + i]);
                assert(self.segments@[0] == orig[k]);
                if i > 0 {
                    assert(orig[k].next_offset <= orig[k + i].base_offset);
                    assert(orig[k + i].wf());
                }
            }
            assert forall|i: int, j: int|
                0 <= i < j < self.segments@.len() implies (
            #[trigger] self.segments@[i]).next_offset <= (
            #[trigger] self.segments@[j]).base_offset by {
                assert(self.segments@[i] == orig[k + i]);
                assert(self.segments@[j] == orig[k + j]);
                assert(orig[k + i].next_offset <= orig[k + j].base_offset);
            }
            assert forall|i: int|
                0 <= i < self.segments@.len() implies (#[trigger] self.segments@[i]).wf() && (
            #[trigger] self.segments@[i]).config == self.config by {
                assert(self.segments@[i] == orig[k + i]);
                assert(orig[k + i].wf());
            }
            assert forall|i: int|
                0 <= i < self.segments@.len() - 1 implies (
            #[trigger] self.segments@[i]).next_offset == self.segments@[i + 1].base_offset by {
                assert(self.segments@[i] == orig[k + i]);
                assert(self.segments@[i + 1] == orig[k + i + 1]);
                assert(orig[k + i].next_offset == orig[k + i + 1].base_offset);
            }
        }
    }

    /// Closes every segment, trimming each index file to its logical size
    /// so the host can flush and persist them. Offsets, records and reads
    /// are unchanged.
    pub fn close(&mut self)
        requires
            old(self).wf(),
        ensures
            final(self).wf(),
            final(self).config == old(self).config,
            final(self).seg_count() == old(self).seg_count(),
            forall|i: int|
                0 <= i < old(self).seg_count() ==> {
                    let pre = old(self).segments@[i];
                    let post = #[trigger] final(self).segments@[i];
                    &&& post.base_offset == pre.base_offset
                    &&& post.next_offset == pre.next_offset
                    &&& post.records() == pre.records()
                    &&& post.store == pre.store
                    &&& post.index.size == pre.index.size
                    &&& post.index.data@ == pre.index.data@.subrange(0, pre.index.size as int)
                },
            forall|o: u64| final(self).spec_read(o) == old(self).spec_read(o),
    {
        let ghost orig = old(self).segments@;
        let mut closed: Vec<Segment> = Vec::new();
        while self.segments.len() > 0
            invariant
                old(self).wf(),
                orig == old(self).segments@,
                self.config == old(self).config,
                closed@.len() + self.segments@.len() == orig.len(),
                forall|j: int|
                    0 <= j < self.segments@.len() ==> #[trigger] self.segments@[j] == orig[j
                        + closed@.len()],
                forall|i: int|
                    0 <= i < closed@.len() ==> {
                        let pre = orig[i];
                        let post = #[trigger] closed@[i];
                        &&& post.wf()
                        &&& post.config == self.config
                        &&& post.base_offset == pre.base_offset
                        &&& post.next_offset == pre.next_offset
                        &&& post.records() == pre.records()
                        &&& post.store == pre.store
                        &&& post.index.size == pre.index.size
                        &&& post.index.data@ == pre.index.data@.subrange(
                            0,
                            pre.index.size as int,
                        )
                    },
            decreases self.segments@.len(),
        {
            let ghost t = closed@.len() as int;
            let mut s = self.segments.remove(0);
            proof {
                assert(s == orig[t]);
                assert(orig[t].wf());
            }
            s.close();
            closed.push(s);
            proof {
                assert forall|j: int|
                    0 <= j < self.segments@.len() implies #[trigger] self.segments@[j] == orig[j
                        + closed@.len()] by {
                }
            }
        }
        self.segments = closed;
        proof {
            assert forall|i: int, j: int|
                0 <= i < j < self.segments@.len() implies (
            #[trigger] self.segments@[i]).next_offset <= (
            #[trigger] self.segments@[j]).base_offset by {
                assert(orig[i].next_offset <= orig[j].base_offset);
            }
            assert forall|o: u64| self.spec_read(o) == old(self).spec_read(o) by {
                lemma_find_equiv(self.segments@, orig, o);
            }
        }
    }

    /// Closes every segment and forgets them all; the host then removes
    /// the directory tree.
    pub fn remove(&mut self)
        requires
            old(self).wf(),
        ensures
            final(self).wf(),
            final(self).config == old(self).config,
            final(self).seg_count() == 0,
    {
        while self.segments.len() > 0
            invariant
                self.config == old(self).config,
                self.config.max_index_bytes <= usize::MAX,
                forall|i: int|
                    0 <= i < self.segments@.len() ==> (#[trigger] self.segments@[i]).wf(),
            decreases self.segments@.len(),
        {
            let ghost curr = self.segments@;
            let mut s = self.segments.remove(0);
            proof {
                assert(s == curr[0]);
                assert forall|i: int|
                    0 <= i < self.segments@.len() implies (
                #[trigger] self.segments@[i]).wf() by {
                    assert(self.segments@[i] == curr[i + 1]);
                }
            }
            s.remove();
        }
    }

    /// Removes everything and starts over: one fresh, empty segment at the
    /// configured initial offset. Reopening after a removal yields an
    /// empty log.
    pub fn reset(&mut self)
        requires
            old(self).wf(),
        ensures
            final(self).wf(),
            final(self).config == old(self).config,
            final(self).seg_count() == 1,
            final(self).spec_lowest() == old(self).config.initial_offset,
            final(self).spec_next() == old(self).config.initial_offset,
            forall|o: u64| final(self).spec_read(o) is None,
    {
        self.remove();
        let offset = self.config.initial_offset;
        self.new_segment(offset);
        proof {
            assert(self.segments@.last() == self.segments@[0]);
            assert forall|o: u64| self.spec_read(o) is None by {
                assert(self.segments@.skip(1) =~= Seq::<Segment>::empty());
            }
        }
    }
}

/// True of a decimal digit.
pub open spec fn spec_digit(c: char) -> bool {
    '0' <= c && c <= '9'
}

/// The digits of a base-offset name: an optional leading plus sign is
/// dropped, as `u64` parsing does.
pub open spec fn spec_offset_digits(s: Seq<char>) -> Seq<char> {
    if s.len() >= 1 && s[0] == '+' {
        s.skip(1)
    } else {
        s
    }
}

/// The value of a most-significant-first digit string.
pub open spec fn spec_decimal(s: Seq<char>) -> int
    decreases s.len(),
{
    if s.len() == 0 {
        0
    } else {
        spec_decimal(s.drop_last()) * 10 + (s.last() as int - '0' as int)
    }
}

/// A name denotes a base offset: at least one digit (after an optional
/// plus sign), nothing else, and a value that fits a `u64`.
pub open spec fn spec_valid_offset_name(s: Seq<char>) -> bool {
    let d = spec_offset_digits(s);
    &&& d.len() > 0
    &&& forall|i: int| 0 <= i < d.len() ==> spec_digit(#[trigger] d[i])
    &&& spec_decimal(d) <= u64::MAX
}

/// A digit string's value is at least zero.
proof fn lemma_decimal_nonneg(s: Seq<char>)
    requires
        forall|i: int| 0 <= i < s.len() ==> spec_digit(#[trigger] s[i]),
    ensures
        spec_decimal(s) >= 0,
    decreases s.len(),
{
    if s.len() > 0 {
        lemma_decimal_nonneg(s.drop_last());
    }
}

/// A digit string's value only grows as digits are appended.
proof fn lemma_decimal_prefix(s: Seq<char>, i: int)
    requires
        forall|k: int| 0 <= k < s.len() ==> spec_digit(#[trigger] s[k]),
        0 <= i <= s.len(),
    ensures
        spec_decimal(s.take(i)) <= spec_decimal(s),
    decreases s.len() - i,
{
    if i < s.len() {
        lemma_decimal_prefix(s, i + 1);
        let t = s.take(i + 1);
        assert(t.drop_last() =~= s.take(i));
        assert(forall|k: int| 0 <= k < t.len() ==> spec_digit(#[trigger] t[k]));
        lemma_decimal_nonneg(s.take(i));
        assert(spec_decimal(t) == spec_decimal(s.take(i)) * 10 + (t.last() as int - '0' as int));
    } else {
        assert(s.take(i) =~= s);
    }
}

/// Parses a segment subdirectory's name as a decimal base offset, exactly
/// as `u64` parsing reads it; any other name fails with
/// [`LogError::ParseIntError`].
pub fn parse_base_offset(name: &str) -> (r: Result<u64, LogError>)
    ensures
        match r {
            Ok(v) => spec_valid_offset_name(name@) && v == spec_decimal(
                spec_offset_digits(name@),
            ),
            Err(e) => !spec_valid_offset_name(name@) && e is ParseIntError,
        },
{
    broadcast use vstd::string::is_ascii_spec_bytes;

    if !name.is_ascii() {
        proof {
            let cs = name@;
            let w = choose|w: int| 0 <= w < cs.len() && !('\0' <= #[trigger] cs[w] <= '\u{7f}');
            let d = spec_offset_digits(cs);
            if cs.len() >= 1 && cs[0] == '+' {
                assert(w >= 1);
                assert(d[w - 1] == cs[w]);
            } else {
                assert(d[w] == cs[w]);
            }
        }
        return Err(LogError::ParseIntError);
    }
    let bytes = name.as_bytes();
    let ghost cs = name@;
    let ghost d = spec_offset_digits(cs);
    let n = bytes.len();
    assert(bytes@.len() == cs.len());
    let start: usize = if n >= 1 && bytes[0] == 43 {
        1
    } else {
        0
    };
    proof {
        assert(('+' as u8) == 43);
        if n >= 1 {
            assert(bytes@[0] == cs[0] as u8);
        }
        assert(d.len() == cs.len() - start);
        assert(forall|k: int| 0 <= k < d.len() ==> d[k] == cs[k + start]);
    }
    if start == n {
        return Err(LogError::ParseIntError);
    }
    let mut acc: u64 = 0;
    let mut i: usize = start;
    while i < n
        invariant
            start <= i <= n,
            n == bytes@.len(),
            cs == name@,
            bytes@.len() == cs.len(),
            forall|k: int| 0 <= k < cs.len() ==> bytes@[k] == cs[k] as u8,
            forall|k: int| 0 <= k < cs.len() ==> '\0' <= #[trigger] cs[k] <= '\u{7f}',
            d == spec_offset_digits(cs),
            d.len() == cs.len() - start,
            forall|k: int| 0 <= k < d.len() ==> d[k] == cs[k + start],
            forall|k: int| 0 <= k < i - start ==> spec_digit(#[trigger] d[k]),
            acc == spec_decimal(d.take(i - start)),
        decreases n - i,
    {
        let b = bytes[i];
        proof {
            assert(bytes@[i as int] == cs[i as int] as u8);
            assert(cs[i as int] == d[i - start]);
            let c = cs[i as int];
            assert('\0' <= c <= '\u{7f}');
            assert(0 <= c as int <= 127);
            assert((c as u8) as int == c as int);
            assert('0' as int == 48 && '9' as int == 57 && '+' as int == 43);
        }
        if b < 48 || b > 57 {
            proof {
                assert(!spec_digit(d[i - start]));
                assert(0 <= i - start < d.len());
                assert(!spec_valid_offset_name(cs));
            }
            return Err(LogError::ParseIntError);
        }
        let dig = (b - 48) as u64;
        proof {
            assert(spec_digit(d[i - start]));
            assert(dig == d[i - start] as int - '0' as int);
        }
        if acc > (u64::MAX - dig) / 10 {
            proof {
                assert(acc * 10 + dig > u64::MAX) by (nonlinear_arith)
                    requires
                        acc > (u64::MAX - dig) / 10,
                        dig <= 9,
                ;
                let t = d.take(i - start + 1);
                assert(t.drop_last() =~= d.take(i - start));
                assert(t.last() == d[i - start]);
                assert(spec_decimal(t) > u64::MAX);
                if spec_valid_offset_name(cs) {
                    lemma_decimal_prefix(d, i - start + 1);
                }
            }
            return Err(LogError::ParseIntError);
        }
        proof {
            assert(acc * 10 + dig <= u64::MAX) by (nonlinear_arith)
                requires
                    acc <= (u64::MAX - dig) / 10,
                    dig <= 9,
            ;
            let t = d.take(i - start + 1);
            assert(t.drop_last() =~= d.take(i - start));
            assert(t.last() == d[i - start]);
        }
        acc = acc * 10 + dig;
        i = i + 1;
    }
    proof {
        assert(d.take(n - start) =~= d);
    }
    Ok(acc)
}

/// Reconstruction inverts a clean close, log-wide: the per-segment file
/// images a well-formed log leaves behind after `close` — its segments'
/// store bytes and trimmed index bytes, under their base offsets, in
/// segment order — satisfy the reconstruction precondition.
pub proof fn lemma_log_reopen(pre: Log, files: Seq<SegmentFiles>)
    requires
        pre.wf(),
        forall|i: int, j: int|
            0 <= i < j < pre.seg_count() ==> (#[trigger] pre.segments@[i]).base_offset < (
            #[trigger] pre.segments@[j]).base_offset,
        files.len() == pre.seg_count(),
        forall|i: int|
            0 <= i < files.len() ==> {
                let f = #[trigger] files[i];
                let seg = pre.segments@[i];
                &&& f.base_offset == seg.base_offset
                &&& f.store_bytes@ == seg.store.data@
                &&& f.index_bytes@ == seg.index.data@.subrange(0, seg.index.size as int)
            },
    ensures
        spec_log_files_ok(files, pre.config),
        forall|i: int|
            0 <= i < files.len() ==> seg_matches_file(
                #[trigger] pre.segments@[i],
                files[i],
                pre.config,
            ),
{
    assert forall|i: int| 0 <= i < files.len() implies #[trigger] spec_files_ok(
        files[i].store_bytes@,
        files[i].index_bytes@,
        files[i].base_offset,
        pre.config,
    ) by {
        let seg = pre.segments@[i];
        assert(seg.wf());
        crate::segment::lemma_reopen(seg);
    }
    assert forall|i: int| 0 <= i < files.len() implies seg_matches_file(
        #[trigger] pre.segments@[i],
        files[i],
        pre.config,
    ) by {
        let seg = pre.segments@[i];
        assert(seg.wf());
        crate::segment::lemma_reopen(seg);
        reveal(seg_matches_file);
        assert(files[i].index_bytes@ == seg.index.data@.subrange(0, seg.index.size as int));
        assert(seg.index.entries() == spec_entries(
            files[i].index_bytes@,
            files[i].index_bytes@.len() as int,
        ));
    }
    assert forall|i: int, j: int|
        0 <= i < j < files.len() implies #[trigger] spec_file_next(files[i]) <= (
    #[trigger] files[j]).base_offset by {
        reveal(seg_matches_file);
        assert(seg_matches_file(pre.segments@[i], files[i], pre.config));
        assert(pre.segments@[i].next_offset <= pre.segments@[j].base_offset);
    }
}

/// Reconstruction on the same directory preserves the log: a log rebuilt
/// over the file images of a cleanly closed, well-formed log answers the
/// same lowest and highest offsets, and reads every offset to the same
/// record.
pub proof fn lemma_reconstruction_preserves(pre: Log, post: Log, files: Seq<SegmentFiles>)
    requires
        pre.wf(),
        pre.seg_count() >= 1,
        forall|i: int, j: int|
            0 <= i < j < pre.seg_count() ==> (#[trigger] pre.segments@[i]).base_offset < (
            #[trigger] pre.segments@[j]).base_offset,
        files.len() == pre.seg_count(),
        forall|i: int|
            0 <= i < files.len() ==> {
                let f = #[trigger] files[i];
                let seg = pre.segments@[i];
                &&& f.base_offset == seg.base_offset
                &&& f.store_bytes@ == seg.store.data@
                &&& f.index_bytes@ == seg.index.data@.subrange(0, seg.index.size as int)
            },
        post.config == pre.config,
        post.seg_count() == files.len(),
        forall|i: int|
            0 <= i < files.len() ==> seg_matches_file(
                #[trigger] post.segments@[i],
                files[i],
                post.config,
            ),
    ensures
        post.spec_lowest() == pre.spec_lowest(),
        post.spec_next() == pre.spec_next(),
        forall|o: u64| post.spec_read(o) == pre.spec_read(o),
{
    lemma_log_reopen(pre, files);
    assert forall|i: int|
        0 <= i < files.len() implies (#[trigger] post.segments@[i]).base_offset
        == pre.segments@[i].base_offset && post.segments@[i].next_offset
        == pre.segments@[i].next_offset && post.segments@[i].records()
        == pre.segments@[i].records() by {
        reveal(seg_matches_file);
        assert(seg_matches_file(post.segments@[i], files[i], post.config));
        assert(seg_matches_file(pre.segments@[i], files[i], pre.config));
    }
    assert forall|o: u64| post.spec_read(o) == pre.spec_read(o) by {
        lemma_find_equiv(post.segments@, pre.segments@, o);
    }
}


/// Adjacent ordering facts chain: when every segment file starts exactly
/// where the one below it ends and bases strictly rise step by step, every
/// pair of files is ordered and disjoint.
proof fn lemma_files_chain(files: Seq<SegmentFiles>, i: int, j: int)
    requires
        forall|k: int|
            0 <= k < files.len() - 1 ==> #[trigger] spec_file_next(files[k]) == files[k
                + 1].base_offset,
        forall|k: int|
            0 <= k < files.len() - 1 ==> (#[trigger] files[k]).base_offset < files[k
                + 1].base_offset,
        0 <= i < j < files.len(),
    ensures
        files[i].base_offset < files[j].base_offset,
        spec_file_next(files[i]) <= files[j].base_offset,
    decreases j - i,
{
    if j == i + 1 {
        assert(spec_file_next(files[i]) == files[j].base_offset);
        assert(files[i].base_offset < files[j].base_offset);
    } else {
        lemma_files_chain(files, i, j - 1);
        assert(spec_file_next(files[j - 1]) == files[j].base_offset);
        assert(files[j - 1].base_offset < files[j].base_offset);
        assert(spec_file_next(files[j - 1]) >= 0 + files[j - 1].base_offset);
    }
}

/// Decides [`spec_log_files_ok`] for a directory's worth of segment file
/// images, so that a host can validate what it read off disk before
/// reconstructing a log over it.
pub fn check_log_files(files: &Vec<SegmentFiles>, config: &Config) -> (r: bool)
    ensures
        r == spec_log_files_ok(files@, *config),
{
    if config.max_index_bytes > (usize::MAX as u64) {
        return false;
    }
    let n = files.len();
    let mut i: usize = 0;
    while i < n
        invariant
            n == files@.len(),
            i <= n,
            config.max_index_bytes <= usize::MAX,
            forall|k: int|
                0 <= k < i ==> #[trigger] spec_files_ok(
                    files@[k].store_bytes@,
                    files@[k].index_bytes@,
                    files@[k].base_offset,
                    *config,
                ),
            forall|k: int|
                0 <= k < i - 1 ==> #[trigger] spec_file_next(files@[k]) == files@[k
                    + 1].base_offset,
            forall|k: int|
                0 <= k < i - 1 ==> (#[trigger] files@[k]).base_offset < files@[k
                    + 1].base_offset,
        decreases n - i,
    {
        let f = &files[i];
        if !crate::segment::check_segment_files(
            &f.store_bytes,
            &f.index_bytes,
            f.base_offset,
            config,
        ) {
            return false;
        }
        if i > 0 {
            let prev = &files[i - 1];
            proof {
                assert(spec_files_ok(
                    prev.store_bytes@,
                    prev.index_bytes@,
                    prev.base_offset,
                    *config,
                ));
                assert(12 * ((prev.index_bytes@.len() as int) / 12) == prev.index_bytes@.len());
            }
            let prev_count = (prev.index_bytes.len() / 12) as u64;
            proof {
                assert(spec_entries(
                    prev.index_bytes@,
                    prev.index_bytes@.len() as int,
                ).len() == prev_count);
            }
            let prev_next = prev.base_offset + prev_count;
            proof {
                assert(spec_file_next(files@[i - 1]) == prev_next);
            }
            if prev_next != f.base_offset {
                proof {
                    assert(spec_file_next(files@[i - 1]) != files@[i - 1 + 1].base_offset);
                }
                return false;
            }
            if prev.base_offset >= f.base_offset {
                proof {
                    assert(!((files@[i - 1]).base_offset < files@[i - 1 + 1].base_offset));
                }
                return false;
            }
        }
        i = i + 1;
    }
    proof {
        assert forall|a: int, b: int|
            0 <= a < b < files@.len() implies (#[trigger] files@[a]).base_offset < (
        #[trigger] files@[b]).base_offset by {
            lemma_files_chain(files@, a, b);
        }
        assert forall|a: int, b: int|
            0 <= a < b < files@.len() implies #[trigger] spec_file_next(files@[a]) <= (
        #[trigger] files@[b]).base_offset by {
            lemma_files_chain(files@, a, b);
        }
    }
    true
}

/// One successful append, as [`Log::append`]'s contract describes it at
/// the reading level: the call returned `off`, the next offset advanced by
/// one, the appended record reads back at `off`, and every other offset
/// reads as before.
pub open spec fn spec_append_step(pre: Log, post: Log, rv: RecordView, off: u64) -> bool {
    &&& off == pre.spec_next()
    &&& post.spec_next() == pre.spec_next() + 1
    &&& post.spec_read(off) == Some(rv)
    &&& forall|o: u64| o != off ==> post.spec_read(o) == pre.spec_read(o)
}

/// Over a run of successful appends, the next offset advances by exactly
/// one per append.
proof fn lemma_run_next(logs: Seq<Log>, rvs: Seq<RecordView>, offs: Seq<u64>, k: int)
    requires
        logs.len() == offs.len() + 1,
        rvs.len() == offs.len(),
        forall|j: int|
            0 <= j < offs.len() ==> spec_append_step(logs[j], logs[j + 1], rvs[j], #[trigger] offs[j]),
        0 <= k <= offs.len(),
    ensures
        logs[k].spec_next() == logs[0].spec_next() + k,
    decreases k,
{
    if k > 0 {
        lemma_run_next(logs, rvs, offs, k - 1);
        assert(spec_append_step(logs[k - 1], logs[k], rvs[k - 1], offs[k - 1]));
    }
}

/// Offsets of a run of successful appends are dense: starting from a log
/// whose next offset is `B` — as a log constructed on an empty directory
/// with `initial_offset == B` is — the appends return exactly `B`, `B + 1`,
/// and so on, gap-free across segment rollovers.
pub proof fn lemma_run_offsets_dense(logs: Seq<Log>, rvs: Seq<RecordView>, offs: Seq<u64>, k: int)
    requires
        logs.len() == offs.len() + 1,
        rvs.len() == offs.len(),
        forall|j: int|
            0 <= j < offs.len() ==> spec_append_step(logs[j], logs[j + 1], rvs[j], #[trigger] offs[j]),
        0 <= k < offs.len(),
    ensures
        offs[k] == logs[0].spec_next() + k,
{
    lemma_run_next(logs, rvs, offs, k);
    assert(spec_append_step(logs[k], logs[k + 1], rvs[k], offs[k]));
}

/// Every record appended in a run of successful appends reads back, at the
/// offset its append returned, in every later state of the run.
pub proof fn lemma_run_reads_back(logs: Seq<Log>, rvs: Seq<RecordView>, offs: Seq<u64>, k: int, m: int)
    requires
        logs.len() == offs.len() + 1,
        rvs.len() == offs.len(),
        forall|j: int|
            0 <= j < offs.len() ==> spec_append_step(logs[j], logs[j + 1], rvs[j], #[trigger] offs[j]),
        0 <= k < offs.len(),
        k < m <= offs.len(),
    ensures
        logs[m].spec_read(offs[k]) == Some(rvs[k]),
    decreases m,
{
    assert(spec_append_step(logs[k], logs[k + 1], rvs[k], offs[k]));
    if m == k + 1 {
    } else {
        lemma_run_reads_back(logs, rvs, offs, k, m - 1);
        lemma_run_offsets_dense(logs, rvs, offs, k);
        lemma_run_offsets_dense(logs, rvs, offs, m - 1);
        assert(spec_append_step(logs[m - 1], logs[m], rvs[m - 1], offs[m - 1]));
        assert(offs[m - 1] != offs[k]);
    }
}

} // verus!
