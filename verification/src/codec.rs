//! Byte-level primitives for the two binary catalog formats: big-endian
//! integer fields and the length-prefixed record-count header shared by the
//! spatial-index file and the per-cell payload files.

use vstd::prelude::*;

verus! {

/// Big-endian 16-bit value starting at `i`.
pub open spec fn be16_at(b: Seq<u8>, i: int) -> u16 {
    (b[i] * 0x100 + b[i + 1]) as u16
}

/// Big-endian 32-bit value starting at `i`.
pub open spec fn be32_at(b: Seq<u8>, i: int) -> u32 {
    (b[i] * 0x100_0000 + b[i + 1] * 0x1_0000 + b[i + 2] * 0x100 + b[i + 3]) as u32
}

/// Big-endian 64-bit value starting at `i`.
pub open spec fn be64_at(b: Seq<u8>, i: int) -> u64 {
    (b[i] * 0x100_0000_0000_0000 + b[i + 1] * 0x1_0000_0000_0000 + b[i + 2] * 0x100_0000_0000
        + b[i + 3] * 0x1_0000_0000 + b[i + 4] * 0x100_0000 + b[i + 5] * 0x1_0000 + b[i + 6] * 0x100
        + b[i + 7]) as u64
}

/// The signed 32-bit value whose two's-complement bits are `x`.
pub open spec fn i32_from_bits(x: u32) -> i32 {
    if x < 0x8000_0000 {
        x as i32
    } else {
        (x - 0x1_0000_0000) as i32
    }
}

/// The signed 64-bit value whose two's-complement bits are `x`.
pub open spec fn i64_from_bits(x: u64) -> i64 {
    if x < 0x8000_0000_0000_0000 {
        x as i64
    } else {
        (x - 0x1_0000_0000_0000_0000) as i64
    }
}

/// The unsigned bit pattern of a signed 64-bit value; inverse of
/// `i64_from_bits`.
pub open spec fn i64_to_bits(x: i64) -> u64 {
    if x >= 0 {
        x as u64
    } else {
        (x + 0x1_0000_0000_0000_0000) as u64
    }
}

/// The unsigned bit pattern of a signed 32-bit value; inverse of
/// `i32_from_bits`.
pub open spec fn i32_to_bits(x: i32) -> u32 {
    if x >= 0 {
        x as u32
    } else {
        (x + 0x1_0000_0000) as u32
    }
}

pub fn read_u16_be(b: &Vec<u8>, pos: usize) -> (r: u16)
    requires
        pos + 2 <= b.len(),
    ensures
        r == be16_at(b@, pos as int),
{
    b[pos] as u16 * 0x100 + b[pos + 1] as u16
}

pub fn read_u32_be(b: &Vec<u8>, pos: usize) -> (r: u32)
    requires
        pos + 4 <= b.len(),
    ensures
        r == be32_at(b@, pos as int),
{
    b[pos] as u32 * 0x100_0000 + b[pos + 1] as u32 * 0x1_0000 + b[pos + 2] as u32 * 0x100 + b[pos
        + 3] as u32
}

pub fn read_u64_be(b: &Vec<u8>, pos: usize) -> (r: u64)
    requires
        pos + 8 <= b.len(),
    ensures
        r == be64_at(b@, pos as int),
{
    b[pos] as u64 * 0x100_0000_0000_0000 + b[pos + 1] as u64 * 0x1_0000_0000_0000 + b[pos
        + 2] as u64 * 0x100_0000_0000 + b[pos + 3] as u64 * 0x1_0000_0000 + b[pos + 4] as u64
        * 0x100_0000 + b[pos + 5] as u64 * 0x1_0000 + b[pos + 6] as u64 * 0x100 + b[pos + 7] as u64
}

pub fn read_i32_be(b: &Vec<u8>, pos: usize) -> (r: i32)
    requires
        pos + 4 <= b.len(),
    ensures
        r == i32_from_bits(be32_at(b@, pos as int)),
{
    let x = read_u32_be(b, pos);
    if x < 0x8000_0000 {
        x as i32
    } else {
        ((x as i64) - 0x1_0000_0000) as i32
    }
}

pub fn read_i64_be(b: &Vec<u8>, pos: usize) -> (r: i64)
    requires
        pos + 8 <= b.len(),
    ensures
        r == i64_from_bits(be64_at(b@, pos as int)),
{
    let x = read_u64_be(b, pos);
    if x < 0x8000_0000_0000_0000 {
        x as i64
    } else {
        ((x as i128) - 0x1_0000_0000_0000_0000) as i64
    }
}

/// Big-endian encoding of a 32-bit value.
pub open spec fn be32_bytes(x: u32) -> Seq<u8> {
    seq![
        (x / 0x100_0000) as u8,
        ((x / 0x1_0000) % 0x100) as u8,
        ((x / 0x100) % 0x100) as u8,
        (x % 0x100) as u8,
    ]
}

/// Big-endian encoding of a 64-bit value.
pub open spec fn be64_bytes(x: u64) -> Seq<u8> {
    seq![
        (x / 0x100_0000_0000_0000) as u8,
        ((x / 0x1_0000_0000_0000) % 0x100) as u8,
        ((x / 0x100_0000_0000) % 0x100) as u8,
        ((x / 0x1_0000_0000) % 0x100) as u8,
        ((x / 0x100_0000) % 0x100) as u8,
        ((x / 0x1_0000) % 0x100) as u8,
        ((x / 0x100) % 0x100) as u8,
        (x % 0x100) as u8,
    ]
}

/// Reading four encoded bytes back gives the encoded value.
pub proof fn lemma_be32_at_bytes(b: Seq<u8>, i: int, x: u32)
    requires
        0 <= i,
        i + 4 <= b.len(),
        forall|k: int| 0 <= k < 4 ==> b[i + k] == be32_bytes(x)[k],
    ensures
        be32_at(b, i) == x,
{
    assert(b[i + 0] == be32_bytes(x)[0]);
    assert(b[i + 1] == be32_bytes(x)[1]);
    assert(b[i + 2] == be32_bytes(x)[2]);
    assert(b[i + 3] == be32_bytes(x)[3]);
    assert(x / 0x100_0000 < 0x100 && (x / 0x1_0000) % 0x100 < 0x100 && (x / 0x100) % 0x100 < 0x100
        && x % 0x100 < 0x100 && (x / 0x100_0000) * 0x100_0000 + ((x / 0x1_0000) % 0x100) * 0x1_0000
        + ((x / 0x100) % 0x100) * 0x100 + x % 0x100 == x) by (bit_vector);
}

/// Reading eight encoded bytes back gives the encoded value.
pub proof fn lemma_be64_at_bytes(b: Seq<u8>, i: int, x: u64)
    requires
        0 <= i,
        i + 8 <= b.len(),
        forall|k: int| 0 <= k < 8 ==> b[i + k] == be64_bytes(x)[k],
    ensures
        be64_at(b, i) == x,
{
    assert(b[i + 0] == be64_bytes(x)[0]);
    assert(b[i + 1] == be64_bytes(x)[1]);
    assert(b[i + 2] == be64_bytes(x)[2]);
    assert(b[i + 3] == be64_bytes(x)[3]);
    assert(b[i + 4] == be64_bytes(x)[4]);
    assert(b[i + 5] == be64_bytes(x)[5]);
    assert(b[i + 6] == be64_bytes(x)[6]);
    assert(b[i + 7] == be64_bytes(x)[7]);
    assert(x / 0x100_0000_0000_0000 < 0x100 && (x / 0x1_0000_0000_0000) % 0x100 < 0x100 && (x
        / 0x100_0000_0000) % 0x100 < 0x100 && (x / 0x1_0000_0000) % 0x100 < 0x100 && (x
        / 0x100_0000) % 0x100 < 0x100 && (x / 0x1_0000) % 0x100 < 0x100 && (x / 0x100) % 0x100
        < 0x100 && x % 0x100 < 0x100 && (x / 0x100_0000_0000_0000) * 0x100_0000_0000_0000 + ((x
        / 0x1_0000_0000_0000) % 0x100) * 0x1_0000_0000_0000 + ((x / 0x100_0000_0000) % 0x100)
        * 0x100_0000_0000 + ((x / 0x1_0000_0000) % 0x100) * 0x1_0000_0000 + ((x / 0x100_0000)
        % 0x100) * 0x100_0000 + ((x / 0x1_0000) % 0x100) * 0x1_0000 + ((x / 0x100) % 0x100) * 0x100
        + x % 0x100 == x) by (bit_vector);
}

/// Append the big-endian bytes of `x`.
pub fn push_u32_be(v: &mut Vec<u8>, x: u32)
    ensures
        final(v)@ == old(v)@ + be32_bytes(x),
{
    proof {
        assert(x / 0x100_0000 < 0x100 && (x / 0x1_0000) % 0x100 < 0x100 && (x / 0x100) % 0x100
            < 0x100 && x % 0x100 < 0x100) by (bit_vector);
    }
    v.push((x / 0x100_0000) as u8);
    v.push(((x / 0x1_0000) % 0x100) as u8);
    v.push(((x / 0x100) % 0x100) as u8);
    v.push((x % 0x100) as u8);
    proof {
        assert(v@ =~= old(v)@ + be32_bytes(x));
    }
}

/// Append the big-endian bytes of `x`.
pub fn push_u64_be(v: &mut Vec<u8>, x: u64)
    ensures
        final(v)@ == old(v)@ + be64_bytes(x),
{
    proof {
        assert(x / 0x100_0000_0000_0000 < 0x100 && (x / 0x1_0000_0000_0000) % 0x100 < 0x100 && (x
            / 0x100_0000_0000) % 0x100 < 0x100 && (x / 0x1_0000_0000) % 0x100 < 0x100 && (x
            / 0x100_0000) % 0x100 < 0x100 && (x / 0x1_0000) % 0x100 < 0x100 && (x / 0x100) % 0x100
            < 0x100 && x % 0x100 < 0x100) by (bit_vector);
    }
    v.push((x / 0x100_0000_0000_0000) as u8);
    v.push(((x / 0x1_0000_0000_0000) % 0x100) as u8);
    v.push(((x / 0x100_0000_0000) % 0x100) as u8);
    v.push(((x / 0x1_0000_0000) % 0x100) as u8);
    v.push(((x / 0x100_0000) % 0x100) as u8);
    v.push(((x / 0x1_0000) % 0x100) as u8);
    v.push(((x / 0x100) % 0x100) as u8);
    v.push((x % 0x100) as u8);
    proof {
        assert(v@ =~= old(v)@ + be64_bytes(x));
    }
}

/// The bit pattern of a signed 32-bit value.
pub fn i32_bits(x: i32) -> (r: u32)
    ensures
        r == i32_to_bits(x),
        i32_from_bits(r) == x,
{
    if x >= 0 {
        x as u32
    } else {
        ((x as i64) + 0x1_0000_0000) as u32
    }
}

/// The bit pattern of a signed 64-bit value.
pub fn i64_bits(x: i64) -> (r: u64)
    ensures
        r == i64_to_bits(x),
        i64_from_bits(r) == x,
{
    if x >= 0 {
        x as u64
    } else {
        ((x as i128) + 0x1_0000_0000_0000_0000) as u64
    }
}

/// The record-count header that begins both binary formats.  A negative
/// first word is a sentinel for the extended form, where an explicit
/// version and the count follow; otherwise the first word is the count
/// itself and the version is zero.
#[derive(Clone, Copy, Debug, PartialEq, Eq, Structural)]
pub struct FileHeader {
    pub token: i32,
    pub version: i32,
    pub size: i32,
}

/// Header decoded from the front of `b`, with the offset of the first
/// record; `None` when the bytes end before the header is complete.
pub open spec fn spec_file_header(b: Seq<u8>) -> Option<(FileHeader, int)> {
    if b.len() < 4 {
        None
    } else {
        let token = i32_from_bits(be32_at(b, 0));
        if token < 0 {
            if b.len() < 12 {
                None
            } else {
                Some(
                    (
                        FileHeader {
                            token,
                            version: i32_from_bits(be32_at(b, 4)),
                            size: i32_from_bits(be32_at(b, 8)),
                        },
                        12,
                    ),
                )
            }
        } else {
            Some((FileHeader { token, version: 0, size: token }, 4))
        }
    }
}

impl FileHeader {
    /// Decode the header; the second component is the offset at which the
    /// records start.
    pub fn from_reader(b: &Vec<u8>) -> (r: Option<(FileHeader, usize)>)
        ensures
            match r {
                Some((h, off)) => spec_file_header(b@) == Some((h, off as int)),
                None => spec_file_header(b@) is None,
            },
    {
        if b.len() < 4 {
            return None;
        }
        let token = read_i32_be(b, 0);
        if token < 0 {
            if b.len() < 12 {
                return None;
            }
            let version = read_i32_be(b, 4);
            let size = read_i32_be(b, 8);
            Some((FileHeader { token, version, size }, 12))
        } else {
            Some((FileHeader { token, version: 0, size: token }, 4))
        }
    }
}

} // verus!
