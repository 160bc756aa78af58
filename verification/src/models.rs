//! Client-facing request and response envelopes. A host that speaks to
//! clients serializes copies of these; the library only defines the shapes.

use vstd::prelude::*;

use crate::record::Record;

verus! {

/// A request to append one record to the log.
pub struct ProduceRequest {
    pub record: Record,
}

/// The offset an appended record received.
pub struct ProduceResponse {
    pub offset: usize,
}

/// A request to read the record at an offset.
pub struct ConsumeRequest {
    pub offset: usize,
}

/// The record a read returned.
pub struct ConsumeResponse {
    pub record: Record,
}

} // verus!
