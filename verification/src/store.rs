//! The store: an append-only byte file of length-prefixed frames.
//!
//! A store file is a concatenation of frames laid out from byte 0, each
//! frame an 8-byte big-endian payload length followed by the payload. The
//! struct works on the in-memory image of the file; a host persists the
//! bytes. Durable appends flush to the OS on the host's side after each
//! call.

use vstd::prelude::*;

use crate::config::Config;
use crate::record::copy_range;
use crate::wire::lemma_u64_be_round_trip;
use crate::wire::push_u64_be;
use crate::wire::read_u64_be;
use crate::wire::spec_be_u64;
use crate::wire::spec_u64_be;

verus! {

/// What can go wrong inside a store.
#[derive(Debug)]
pub enum StoreError {
    /// The store cannot take the record.
    StoreFullError,
    /// No full frame lies at the requested position.
    StoreEntryNotFound(u64),
}

/// The frame of a payload: its length, big-endian in eight bytes, then the
/// payload itself.
pub open spec fn spec_frame(payload: Seq<u8>) -> Seq<u8>
    recommends
        payload.len() <= u64::MAX,
{
    spec_u64_be(payload.len() as u64) + payload
}

/// The payload of the frame at byte position `pos` of a store file, or
/// `None` when no full frame lies there.
pub open spec fn spec_frame_at(data: Seq<u8>, pos: int) -> Option<Seq<u8>> {
    if 0 <= pos && pos + 8 <= data.len() {
        let l = spec_be_u64(data.subrange(pos, pos + 8)) as int;
        if pos + 8 + l <= data.len() {
            Some(data.subrange(pos + 8, pos + 8 + l))
        } else {
            None
        }
    } else {
        None
    }
}

/// An append-only byte store over one file.
pub struct Store {
    /// The bytes of the store file.
    pub data: Vec<u8>,
    pub config: Config,
}

impl Store {
    /// Opens a store over the current bytes of its file.
    pub fn new(file_bytes: Vec<u8>, config: Config) -> (r: Store)
        ensures
            r.data@ == file_bytes@,
            r.config == config,
    {
        Store { data: file_bytes, config }
    }

    /// The store file's length in bytes.
    pub fn size(&self) -> (r: usize)
        ensures
            r == self.data@.len(),
    {
        self.data.len()
    }

    /// True exactly when a record of `record_len` encoded bytes still fits:
    /// `size + record_len + 8 < max_store_bytes`, strictly.
    pub fn can_store_record(&self, record_len: usize) -> (r: bool)
        ensures
            r == (self.data@.len() + record_len + 8 < self.config.max_store_bytes),
    {
        let s = self.data.len() as u64;
        let l = record_len as u64;
        if s >= self.config.max_store_bytes {
            false
        } else {
            let room = self.config.max_store_bytes - s;
            if room <= 8 {
                false
            } else {
                l < room - 8
            }
        }
    }

    /// Appends a frame holding `value` at the end of the file. Returns the
    /// number of bytes written (the payload plus its 8-byte length prefix)
    /// and the byte position of the frame's length prefix.
    pub fn append(&mut self, value: Vec<u8>) -> (r: Result<(usize, usize), StoreError>)
        requires
            old(self).data@.len() + 8 + value@.len() <= usize::MAX,
        ensures
            final(self).data@ == old(self).data@ + spec_frame(value@),
            final(self).config == old(self).config,
            r matches Ok(wp) && wp.0 == 8 + value@.len() && wp.1 == old(self).data@.len(),
    {
        let position = self.data.len();
        let len = value.len();
        let mut v = value;
        push_u64_be(&mut self.data, len as u64);
        self.data.append(&mut v);
        Ok((len + 8, position))
    }

    /// Reads back the payload of the frame at `position`, or fails with
    /// [`StoreError::StoreEntryNotFound`] when no full frame lies there.
    pub fn read(&self, position: u64) -> (r: Result<Vec<u8>, StoreError>)
        ensures
            match r {
                Ok(p) => spec_frame_at(self.data@, position as int) == Some(p@),
                Err(e) => spec_frame_at(self.data@, position as int) is None && e
                    == StoreError::StoreEntryNotFound(position),
            },
    {
        let len = self.data.len();
        if position >= len as u64 || (len as u64) - position < 8 {
            return Err(StoreError::StoreEntryNotFound(position));
        }
        let pos = position as usize;
        let l = read_u64_be(&self.data, pos);
        if l > (len - pos - 8) as u64 {
            return Err(StoreError::StoreEntryNotFound(position));
        }
        let lu = l as usize;
        Ok(copy_range(&self.data, pos + 8, pos + 8 + lu))
    }
}

/// Reading at the position returned by an append yields the payload that
/// was appended there.
pub proof fn lemma_frame_read_back(data: Seq<u8>, payload: Seq<u8>)
    requires
        payload.len() <= u64::MAX,
    ensures
        spec_frame_at(data + spec_frame(payload), data.len() as int) == Some(payload),
{
    let d = data + spec_frame(payload);
    let p = data.len() as int;
    assert(d.subrange(p, p + 8) =~= spec_u64_be(payload.len() as u64));
    lemma_u64_be_round_trip(payload.len() as u64);
    assert(d.subrange(p + 8, p + 8 + payload.len()) =~= payload);
}

/// A frame already present in a store file is untouched by whatever is
/// appended after it.
pub proof fn lemma_frame_at_append(data: Seq<u8>, ext: Seq<u8>, pos: int)
    requires
        spec_frame_at(data, pos) is Some,
    ensures
        spec_frame_at(data + ext, pos) == spec_frame_at(data, pos),
{
    let d = data + ext;
    assert(d.subrange(pos, pos + 8) =~= data.subrange(pos, pos + 8));
    let l = spec_be_u64(data.subrange(pos, pos + 8)) as int;
    assert(d.subrange(pos + 8, pos + 8 + l) =~= data.subrange(pos + 8, pos + 8 + l));
}

} // verus!
