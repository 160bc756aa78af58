//! Big-endian integer framing and base-128 varints.
//!
//! These are the primitive encodings shared by the store file format (8-byte
//! big-endian length prefixes), the index file format (4-byte relative
//! offsets and 8-byte positions) and the record wire schema (varints).

use vstd::prelude::*;

verus! {

/// The eight bytes of `x` in big-endian order.
pub open spec fn spec_u64_be(x: u64) -> Seq<u8> {
    seq![
        (x >> 56) as u8,
        (x >> 48) as u8,
        (x >> 40) as u8,
        (x >> 32) as u8,
        (x >> 24) as u8,
        (x >> 16) as u8,
        (x >> 8) as u8,
        x as u8,
    ]
}

/// The four bytes of `x` in big-endian order.
pub open spec fn spec_u32_be(x: u32) -> Seq<u8> {
    seq![(x >> 24) as u8, (x >> 16) as u8, (x >> 8) as u8, x as u8]
}

/// The value read big-endian from the first eight bytes of `s`.
pub open spec fn spec_be_u64(s: Seq<u8>) -> u64
    recommends
        s.len() == 8,
{
    ((s[0] as u64) << 56) | ((s[1] as u64) << 48) | ((s[2] as u64) << 40) | ((s[3] as u64) << 32)
        | ((s[4] as u64) << 24) | ((s[5] as u64) << 16) | ((s[6] as u64) << 8) | (s[7] as u64)
}

/// The value read big-endian from the first four bytes of `s`.
pub open spec fn spec_be_u32(s: Seq<u8>) -> u32
    recommends
        s.len() == 4,
{
    ((s[0] as u32) << 24) | ((s[1] as u32) << 16) | ((s[2] as u32) << 8) | (s[3] as u32)
}

/// Reading back the eight big-endian bytes of a value yields the value.
pub proof fn lemma_u64_be_round_trip(x: u64)
    ensures
        spec_be_u64(spec_u64_be(x)) == x,
{
    assert((((((x >> 56) as u8) as u64) << 56) | ((((x >> 48) as u8) as u64) << 48) | ((((x >> 40)
        as u8) as u64) << 40) | ((((x >> 32) as u8) as u64) << 32) | ((((x >> 24) as u8) as u64)
        << 24) | ((((x >> 16) as u8) as u64) << 16) | ((((x >> 8) as u8) as u64) << 8) | ((x
        as u8) as u64)) == x) by (bit_vector);
}

/// Reading back the four big-endian bytes of a value yields the value.
pub proof fn lemma_u32_be_round_trip(x: u32)
    ensures
        spec_be_u32(spec_u32_be(x)) == x,
{
    assert((((((x >> 24) as u8) as u32) << 24) | ((((x >> 16) as u8) as u32) << 16) | ((((x >> 8)
        as u8) as u32) << 8) | ((x as u8) as u32)) == x) by (bit_vector);
}

/// Appends the eight big-endian bytes of `x` to `out`.
pub fn push_u64_be(out: &mut Vec<u8>, x: u64)
    ensures
        final(out)@ == old(out)@ + spec_u64_be(x),
{
    out.push((x >> 56) as u8);
    out.push((x >> 48) as u8);
    out.push((x >> 40) as u8);
    out.push((x >> 32) as u8);
    out.push((x >> 24) as u8);
    out.push((x >> 16) as u8);
    out.push((x >> 8) as u8);
    out.push(x as u8);
    
}

/// Reads a big-endian `u64` from `bytes` at position `p`.
pub fn read_u64_be(bytes: &Vec<u8>, p: usize) -> (r: u64)
    requires
        p + 8 <= bytes.len(),
    ensures
        r == spec_be_u64(bytes@.subrange(p as int, p as int + 8)),
{
    let r = ((bytes[p] as u64) << 56) | ((bytes[p + 1] as u64) << 48) | ((bytes[p + 2] as u64)
        << 40) | ((bytes[p + 3] as u64) << 32) | ((bytes[p + 4] as u64) << 24) | ((bytes[p + 5]
        as u64) << 16) | ((bytes[p + 6] as u64) << 8) | (bytes[p + 7] as u64);
    proof {
        let s = bytes@.subrange(p as int, p as int + 8);
        assert(s[0] == bytes@[p as int] && s[1] == bytes@[p as int + 1] && s[2] == bytes@[p as int
            + 2] && s[3] == bytes@[p as int + 3] && s[4] == bytes@[p as int + 4] && s[5]
            == bytes@[p as int + 5] && s[6] == bytes@[p as int + 6] && s[7] == bytes@[p as int
            + 7]);
    }
    r
}

/// Reads a big-endian `u32` from `bytes` at position `p`.
pub fn read_u32_be(bytes: &Vec<u8>, p: usize) -> (r: u32)
    requires
        p + 4 <= bytes.len(),
    ensures
        r == spec_be_u32(bytes@.subrange(p as int, p as int + 4)),
{
    let r = ((bytes[p] as u32) << 24) | ((bytes[p + 1] as u32) << 16) | ((bytes[p + 2] as u32)
        << 8) | (bytes[p + 3] as u32);
    proof {
        let s = bytes@.subrange(p as int, p as int + 4);
        assert(s[0] == bytes@[p as int] && s[1] == bytes@[p as int + 1] && s[2] == bytes@[p as int
            + 2] && s[3] == bytes@[p as int + 3]);
    }
    r
}

/// The base-128 varint encoding of `x`: seven value bits per byte, least
/// significant group first, the high bit set on every byte but the last.
pub open spec fn spec_varint(x: u64) -> Seq<u8>
    decreases x,
{
    if x < 128 {
        seq![x as u8]
    } else {
        seq![((x % 128) + 128) as u8] + spec_varint(x / 128)
    }
}

/// The value and byte length parsed from the front of `s` as a varint, or
/// `None` when `s` ends inside the varint or the value overflows a `u64`.
pub open spec fn spec_varint_parse(s: Seq<u8>) -> Option<(u64, int)>
    decreases s.len(),
{
    if s.len() == 0 {
        None
    } else if s[0] < 128 {
        Some((s[0] as u64, 1))
    } else {
        match spec_varint_parse(s.subrange(1, s.len() as int)) {
            None => None,
            Some((v, n)) => {
                let low = s[0] - 128;
                if v * 128 + low <= u64::MAX {
                    Some(((v * 128 + low) as u64, n + 1))
                } else {
                    None
                }
            },
        }
    }
}

/// A varint is between one and ten bytes long.
pub proof fn lemma_varint_len(x: u64)
    ensures
        1 <= spec_varint(x).len() <= 10,
{
    lemma_u64_lt_pow128_10(x);
    lemma_varint_len_bounded(x, 10);
}

proof fn lemma_varint_len_bounded(x: u64, k: nat)
    requires
        k >= 1,
        (x as nat) < pow128(k),
    ensures
        1 <= spec_varint(x).len() <= k,
    decreases x,
{
    if x >= 128 {
        assert(pow128(k) == 128 * pow128((k - 1) as nat));
        assert(((x / 128) as nat) < pow128((k - 1) as nat));
        assert(k >= 2) by {
            if k == 1 {
                assert(pow128(1nat) == 128 * pow128(0nat));
            }
        }
        lemma_varint_len_bounded(x / 128, (k - 1) as nat);
    }
}

spec fn pow128(k: nat) -> nat
    decreases k,
{
    if k == 0 {
        1
    } else {
        128 * pow128((k - 1) as nat)
    }
}

proof fn lemma_u64_lt_pow128_10(x: u64)
    ensures
        (x as nat) < pow128(10),
{
    reveal_with_fuel(pow128, 11);
    assert(pow128(10) == 1180591620717411303424);
}

/// Parsing a varint back from its own encoding (followed by anything)
/// yields the encoded value and consumes exactly the encoding.
pub proof fn lemma_varint_round_trip(x: u64, rest: Seq<u8>)
    ensures
        spec_varint_parse(spec_varint(x) + rest) == Some::<(u64, int)>(
            (x, spec_varint(x).len() as int),
        ),
    decreases x,
{
    let s = spec_varint(x) + rest;
    if x < 128 {
        assert(s[0] == x as u8);
    } else {
        let b: u8 = ((x % 128) + 128) as u8;
        assert(s[0] == b);
        assert(b >= 128);
        lemma_varint_round_trip(x / 128, rest);
        assert(s.subrange(1, s.len() as int) =~= spec_varint(x / 128) + rest);
        assert(b - 128 == x % 128);
        assert((x / 128) * 128 + x % 128 == x) by (nonlinear_arith);
    }
}

} // verus!
