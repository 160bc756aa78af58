//! A minimal in-memory log: an append-only sequence of records addressed
//! by ordinal position. It is the single-segment, non-durable counterpart
//! of the segmented log.

use vstd::prelude::*;

use crate::record::Record;
use crate::record::RecordView;
use crate::record::copy_range;

verus! {

/// An append-only in-memory sequence of records.
pub struct Log {
    pub records: Vec<Record>,
}

impl Log {
    /// The records held, in append order, each stamped with its position.
    pub open spec fn records(&self) -> Seq<RecordView> {
        Seq::new(self.records@.len(), |i: int| self.records@[i]@)
    }

    /// An empty log.
    pub fn new() -> (r: Log)
        ensures
            r.records().len() == 0,
    {
        Log { records: Vec::new() }
    }

    /// Appends `record`, stamping it with the offset it lands at, and
    /// returns that offset.
    pub fn append(&mut self, record: Record) -> (offset: usize)
        ensures
            offset == old(self).records().len(),
            final(self).records() == old(self).records().push(
                RecordView { value: record.value@, offset: Some(offset as u64) },
            ),
    {
        let offset = self.records.len();
        let mut record = record;
        record.offset = Some(offset as u64);
        self.records.push(record);
        proof {
            assert(self.records() =~= old(self).records().push(
                RecordView { value: record.value@, offset: Some(offset as u64) },
            ));
        }
        offset
    }

    /// Returns a copy of the record at `offset`, or `None` past the end.
    pub fn read(&self, offset: usize) -> (r: Option<Record>)
        ensures
            match r {
                Some(rec) => offset < self.records().len() && rec@ == self.records()[
                    offset as int
                ],
                None => offset >= self.records().len(),
            },
    {
        if offset >= self.records.len() {
            return None;
        }
        let rec = &self.records[offset];
        let value = copy_range(&rec.value, 0, rec.value.len());
        proof {
            assert(value@ =~= rec.value@);
        }
        Some(Record { value, offset: rec.offset })
    }
}

} // verus!
