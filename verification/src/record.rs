//! Records and their wire schema.
//!
//! A record is an opaque byte value plus an optional absolute offset. On
//! disk it is serialized with a fixed, self-describing, deterministic
//! tag-length-value schema: a `0x0a` tag, a varint length and the value
//! bytes (omitted when the value is empty), followed by a `0x10` tag and a
//! varint offset (omitted when the offset is unset). Decoding an encoded
//! record yields the record back; see [`lemma_record_round_trip`].

use vstd::prelude::*;

use crate::segment::SegmentError;
use crate::wire::lemma_varint_len;
use crate::wire::lemma_varint_round_trip;
use crate::wire::spec_varint;
use crate::wire::spec_varint_parse;

verus! {

/// The tag byte that precedes the value field.
pub const VALUE_TAG: u8 = 0x0a;

/// The tag byte that precedes the offset field.
pub const OFFSET_TAG: u8 = 0x10;

/// One entry of the log: an opaque byte value and, once the log has
/// assigned one, its absolute offset.
#[derive(Clone, Debug)]
pub struct Record {
    pub value: Vec<u8>,
    pub offset: Option<u64>,
}

/// The mathematical image of a [`Record`].
pub struct RecordView {
    pub value: Seq<u8>,
    pub offset: Option<u64>,
}

impl View for Record {
    type V = RecordView;

    open spec fn view(&self) -> RecordView {
        RecordView { value: self.value@, offset: self.offset }
    }
}

/// The wire bytes of a record: the value field when the value is non-empty,
/// then the offset field when the offset is set.
pub open spec fn spec_encode_record(r: RecordView) -> Seq<u8>
    recommends
        r.value.len() <= u64::MAX,
{
    (if r.value.len() > 0 {
        seq![VALUE_TAG] + spec_varint(r.value.len() as u64) + r.value
    } else {
        Seq::<u8>::empty()
    }) + (match r.offset {
        Some(o) => seq![OFFSET_TAG] + spec_varint(o),
        None => Seq::<u8>::empty(),
    })
}

/// Parses the fields remaining in `s`, given the fields decoded so far.
/// A later occurrence of a field overrides an earlier one. `None` means the
/// bytes do not follow the schema.
pub open spec fn spec_decode_fields(s: Seq<u8>, value: Seq<u8>, offset: Option<u64>) -> Option<
    RecordView,
>
    decreases s.len(),
{
    if s.len() == 0 {
        Some(RecordView { value, offset })
    } else if s[0] == VALUE_TAG {
        match spec_varint_parse(s.subrange(1, s.len() as int)) {
            None => None,
            Some((l, n)) => if 0 <= n && 1 + n + l <= s.len() {
                spec_decode_fields(
                    s.subrange(1 + n + l, s.len() as int),
                    s.subrange(1 + n, 1 + n + l),
                    offset,
                )
            } else {
                None
            },
        }
    } else if s[0] == OFFSET_TAG {
        match spec_varint_parse(s.subrange(1, s.len() as int)) {
            None => None,
            Some((o, n)) => if 0 <= n && 1 + n <= s.len() {
                spec_decode_fields(s.subrange(1 + n, s.len() as int), value, Some(o))
            } else {
                None
            },
        }
    } else {
        None
    }
}

/// The record described by the wire bytes `s`, or `None` when `s` does not
/// follow the schema.
pub open spec fn spec_decode_record(s: Seq<u8>) -> Option<RecordView> {
    spec_decode_fields(s, Seq::<u8>::empty(), None)
}

/// Round trip of the wire schema: decoding the encoding of any record
/// (whose value fits on a real machine) yields that record back.
pub proof fn lemma_record_round_trip(r: RecordView)
    requires
        r.value.len() <= u64::MAX,
    ensures
        spec_decode_record(spec_encode_record(r)) == Some(r),
{
    let s = spec_encode_record(r);
    let tail = match r.offset {
        Some(o) => seq![OFFSET_TAG] + spec_varint(o),
        None => Seq::<u8>::empty(),
    };
    lemma_decode_offset_tail(tail, r.value, r.offset);
    if r.value.len() > 0 {
        let l = r.value.len() as u64;
        let lv = spec_varint(l);
        let n = lv.len() as int;
        assert(s =~= seq![VALUE_TAG] + lv + r.value + tail);
        assert(s.subrange(1, s.len() as int) =~= lv + (r.value + tail));
        lemma_varint_round_trip(l, r.value + tail);
        assert(spec_varint_parse(s.subrange(1, s.len() as int)) == Some::<(u64, int)>((l, n)));
        assert(1 + n + l <= s.len());
        assert(s.subrange(1 + n, 1 + n + l as int) =~= r.value);
        assert(s.subrange(1 + n + l as int, s.len() as int) =~= tail);
        assert(spec_decode_fields(s, Seq::<u8>::empty(), None) == spec_decode_fields(
            tail,
            r.value,
            None,
        ));
    } else {
        assert(s =~= tail);
        assert(r.value =~= Seq::<u8>::empty());
    }
}

/// Decoding the offset-field tail finishes the record.
proof fn lemma_decode_offset_tail(tail: Seq<u8>, value: Seq<u8>, offset: Option<u64>)
    requires
        tail == (match offset {
            Some(o) => seq![OFFSET_TAG] + spec_varint(o),
            None => Seq::<u8>::empty(),
        }),
    ensures
        spec_decode_fields(tail, value, None) == Some(RecordView { value, offset }),
{
    match offset {
        None => {
            assert(tail.len() == 0);
            assert(spec_decode_fields(tail, value, None) == Some(RecordView { value, offset }));
        },
        Some(o) => {
            let n = spec_varint(o).len() as int;
            assert(tail[0] == OFFSET_TAG);
            assert(tail.subrange(1, tail.len() as int) =~= spec_varint(o) + Seq::<u8>::empty());
            lemma_varint_round_trip(o, Seq::<u8>::empty());
            assert(spec_varint_parse(tail.subrange(1, tail.len() as int)) == Some::<(u64, int)>(
                (o, n),
            ));
            assert(tail.subrange(1 + n, tail.len() as int) =~= Seq::<u8>::empty());
            assert(spec_decode_fields(Seq::<u8>::empty(), value, Some(o)) == Some(
                RecordView { value, offset },
            ));
        },
    }
}

/// Serializes `record` with the wire schema. The result is at most 22 bytes
/// longer than the value.
pub fn encode_record(record: &Record) -> (out: Vec<u8>)
    ensures
        out@ == spec_encode_record(record@),
        out@.len() <= record.value@.len() + 22,
{
    let mut out: Vec<u8> = Vec::new();
    if record.value.len() > 0 {
        out.push(VALUE_TAG);
        push_varint(&mut out, record.value.len() as u64);
        push_bytes(&mut out, &record.value);
    }
    if let Some(o) = record.offset {
        out.push(OFFSET_TAG);
        push_varint(&mut out, o);
    }
    proof {
        lemma_varint_len(record.value.len() as u64);
        match record.offset {
            Some(o) => lemma_varint_len(o),
            None => {},
        }
        assert(out@ =~= spec_encode_record(record@));
    }
    out
}

/// Appends the varint encoding of `x` to `out`.
fn push_varint(out: &mut Vec<u8>, x: u64)
    ensures
        final(out)@ == old(out)@ + spec_varint(x),
    decreases x,
{
    if x < 128 {
        out.push(x as u8);
        assert(out@ =~= old(out)@ + spec_varint(x));
    } else {
        out.push(((x % 128) + 128) as u8);
        push_varint(out, x / 128);
        assert(out@ =~= old(out)@ + spec_varint(x));
    }
}

/// Appends a copy of `src` to `out`.
pub fn push_bytes(out: &mut Vec<u8>, src: &Vec<u8>)
    ensures
        final(out)@ == old(out)@ + src@,
{
    let mut i: usize = 0;
    while i < src.len()
        invariant
            i <= src.len(),
            out@ == old(out)@ + src@.subrange(0, i as int),
        decreases src.len() - i,
    {
        out.push(src[i]);
        i = i + 1;
        assert(out@ =~= old(out)@ + src@.subrange(0, i as int));
    }
    assert(out@ =~= old(out)@ + src@);
}

/// Copies `src[a..b]` into a fresh vector.
pub fn copy_range(src: &Vec<u8>, a: usize, b: usize) -> (r: Vec<u8>)
    requires
        a <= b <= src.len(),
    ensures
        r@ == src@.subrange(a as int, b as int),
{
    let mut r: Vec<u8> = Vec::new();
    let mut i: usize = a;
    while i < b
        invariant
            a <= i <= b <= src.len(),
            r@ == src@.subrange(a as int, i as int),
        decreases b - i,
    {
        r.push(src[i]);
        i = i + 1;
        assert(r@ =~= src@.subrange(a as int, i as int));
    }
    r
}

/// Deserializes wire bytes into a record, or fails with
/// [`SegmentError::DecodeError`] when the bytes do not follow the schema.
pub fn decode_record(bytes: &Vec<u8>) -> (r: Result<Record, SegmentError>)
    ensures
        match r {
            Ok(rec) => spec_decode_record(bytes@) == Some(rec@),
            Err(e) => spec_decode_record(bytes@) is None && e is DecodeError,
        },
{
    let ghost full = bytes@;
    proof {
        assert(bytes@.subrange(0, bytes@.len() as int) =~= bytes@);
    }
    let mut pos: usize = 0;
    let mut value: Vec<u8> = Vec::new();
    let mut offset: Option<u64> = None;
    loop
        invariant
            pos <= bytes.len(),
            full == bytes@,
            spec_decode_record(full) == spec_decode_fields(
                bytes@.subrange(pos as int, bytes@.len() as int),
                value@,
                offset,
            ),
        decreases bytes.len() - pos,
    {
        let ghost s = bytes@.subrange(pos as int, bytes@.len() as int);
        if pos == bytes.len() {
            return Ok(Record { value, offset });
        }
        let tag = bytes[pos];
        assert(s[0] == tag);
        proof {
            assert(s.subrange(1, s.len() as int) =~= bytes@.subrange(
                pos as int + 1,
                bytes@.len() as int,
            ));
        }
        if tag == VALUE_TAG {
            match read_varint(bytes, pos + 1) {
                None => {
                    return Err(SegmentError::DecodeError);
                },
                Some((l, n)) => {
                    let rest: usize = bytes.len() - (pos + 1 + n);
                    if l > rest as u64 {
                        return Err(SegmentError::DecodeError);
                    }
                    let lu: usize = l as usize;
                    value = copy_range(bytes, pos + 1 + n, pos + 1 + n + lu);
                    proof {
                        assert(s.subrange(1 + n, 1 + n + l as int) =~= bytes@.subrange(
                            pos as int + 1 + n,
                            pos as int + 1 + n + l as int,
                        ));
                        assert(s.subrange(1 + n + l as int, s.len() as int) =~= bytes@.subrange(
                            pos as int + 1 + n + l as int,
                            bytes@.len() as int,
                        ));
                    }
                    pos = pos + 1 + n + lu;
                },
            }
        } else if tag == OFFSET_TAG {
            match read_varint(bytes, pos + 1) {
                None => {
                    return Err(SegmentError::DecodeError);
                },
                Some((o, n)) => {
                    offset = Some(o);
                    proof {
                        assert(s.subrange(1 + n, s.len() as int) =~= bytes@.subrange(
                            pos as int + 1 + n,
                            bytes@.len() as int,
                        ));
                    }
                    pos = pos + 1 + n;
                },
            }
        } else {
            return Err(SegmentError::DecodeError);
        }
    }
}

/// Parses a varint from `bytes` at position `p`; `None` when the bytes run
/// out or the value overflows a `u64`.
fn read_varint(bytes: &Vec<u8>, p: usize) -> (r: Option<(u64, usize)>)
    requires
        p <= bytes.len(),
    ensures
        match r {
            Some((v, n)) => {
                &&& spec_varint_parse(bytes@.subrange(p as int, bytes@.len() as int))
                    == Some::<(u64, int)>((v, n as int))
                &&& p + n <= bytes.len()
                &&& n >= 1
            },
            None => spec_varint_parse(bytes@.subrange(p as int, bytes@.len() as int)) is None,
        },
    decreases bytes.len() - p,
{
    let ghost s = bytes@.subrange(p as int, bytes@.len() as int);
    if p == bytes.len() {
        return None;
    }
    let b = bytes[p];
    assert(s[0] == b);
    if b < 128 {
        return Some((b as u64, 1));
    }
    proof {
        assert(s.subrange(1, s.len() as int) =~= bytes@.subrange(
            p as int + 1,
            bytes@.len() as int,
        ));
    }
    match read_varint(bytes, p + 1) {
        None => None,
        Some((v, n)) => {
            let low = (b - 128) as u64;
            if v <= (u64::MAX - low) / 128 {
                assert(v * 128 + low <= u64::MAX) by (nonlinear_arith)
                    requires
                        v <= (u64::MAX - low) / 128,
                        low <= 127,
                ;
                Some((v * 128 + low, n + 1))
            } else {
                assert(v * 128 + low > u64::MAX) by (nonlinear_arith)
                    requires
                        v > (u64::MAX - low) / 128,
                        low <= 127,
                ;
                None
            }
        },
    }
}

} // verus!
