//! Fixed-width scalars on the wire: each message declares its own byte
//! order, and every multi-byte scalar is read and written under it.

use vstd::prelude::*;

verus! {

/// Byte order of an encoded message, as its byte-order marker declares it.
#[derive(Clone, Copy, Debug, PartialEq, Eq, Structural)]
pub enum Endian {
    Little,
    Big,
}

pub open spec fn u16_bytes(e: Endian, x: u16) -> Seq<u8> {
    match e {
        Endian::Little => seq![(x & 0xFF) as u8, ((x >> 8) & 0xFF) as u8],
        Endian::Big => seq![((x >> 8) & 0xFF) as u8, (x & 0xFF) as u8],
    }
}

pub open spec fn u16_of(e: Endian, s: Seq<u8>) -> u16 {
    match e {
        Endian::Little => (s[0] as u16) | ((s[1] as u16) << 8),
        Endian::Big => (s[1] as u16) | ((s[0] as u16) << 8),
    }
}

pub open spec fn u32_bytes(e: Endian, x: u32) -> Seq<u8> {
    match e {
        Endian::Little => seq![
            (x & 0xFF) as u8,
            ((x >> 8) & 0xFF) as u8,
            ((x >> 16) & 0xFF) as u8,
            ((x >> 24) & 0xFF) as u8,
        ],
        Endian::Big => seq![
            ((x >> 24) & 0xFF) as u8,
            ((x >> 16) & 0xFF) as u8,
            ((x >> 8) & 0xFF) as u8,
            (x & 0xFF) as u8,
        ],
    }
}

pub open spec fn u32_of(e: Endian, s: Seq<u8>) -> u32 {
    match e {
        Endian::Little => (s[0] as u32) | ((s[1] as u32) << 8) | ((s[2] as u32) << 16)
            | ((s[3] as u32) << 24),
        Endian::Big => (s[3] as u32) | ((s[2] as u32) << 8) | ((s[1] as u32) << 16)
            | ((s[0] as u32) << 24),
    }
}

pub open spec fn u64_bytes(e: Endian, x: u64) -> Seq<u8> {
    match e {
        Endian::Little => seq![
            (x & 0xFF) as u8,
            ((x >> 8) & 0xFF) as u8,
            ((x >> 16) & 0xFF) as u8,
            ((x >> 24) & 0xFF) as u8,
            ((x >> 32) & 0xFF) as u8,
            ((x >> 40) & 0xFF) as u8,
            ((x >> 48) & 0xFF) as u8,
            ((x >> 56) & 0xFF) as u8,
        ],
        Endian::Big => seq![
            ((x >> 56) & 0xFF) as u8,
            ((x >> 48) & 0xFF) as u8,
            ((x >> 40) & 0xFF) as u8,
            ((x >> 32) & 0xFF) as u8,
            ((x >> 24) & 0xFF) as u8,
            ((x >> 16) & 0xFF) as u8,
            ((x >> 8) & 0xFF) as u8,
            (x & 0xFF) as u8,
        ],
    }
}

pub open spec fn u64_of(e: Endian, s: Seq<u8>) -> u64 {
    match e {
        Endian::Little => (s[0] as u64) | ((s[1] as u64) << 8) | ((s[2] as u64) << 16)
            | ((s[3] as u64) << 24) | ((s[4] as u64) << 32) | ((s[5] as u64) << 40)
            | ((s[6] as u64) << 48) | ((s[7] as u64) << 56),
        Endian::Big => (s[7] as u64) | ((s[6] as u64) << 8) | ((s[5] as u64) << 16)
            | ((s[4] as u64) << 24) | ((s[3] as u64) << 32) | ((s[2] as u64) << 40)
            | ((s[1] as u64) << 48) | ((s[0] as u64) << 56),
    }
}

/// Reading back the bytes of a 16-bit scalar yields the scalar.
pub proof fn lemma_u16_roundtrip(e: Endian, x: u16)
    ensures
        u16_of(e, u16_bytes(e, x)) == x,
{
    assert((((x & 0xFF) as u8) as u16) | (((((x >> 8) & 0xFF) as u8) as u16) << 8) == x)
        by (bit_vector);
}

/// Reading back the bytes of a 32-bit scalar yields the scalar.
pub proof fn lemma_u32_roundtrip(e: Endian, x: u32)
    ensures
        u32_of(e, u32_bytes(e, x)) == x,
{
    assert((((x & 0xFF) as u8) as u32) | (((((x >> 8) & 0xFF) as u8) as u32) << 8)
        | (((((x >> 16) & 0xFF) as u8) as u32) << 16)
        | (((((x >> 24) & 0xFF) as u8) as u32) << 24) == x) by (bit_vector);
}

/// Reading back the bytes of a 64-bit scalar yields the scalar.
pub proof fn lemma_u64_roundtrip(e: Endian, x: u64)
    ensures
        u64_of(e, u64_bytes(e, x)) == x,
{
    assert((((x & 0xFF) as u8) as u64) | (((((x >> 8) & 0xFF) as u8) as u64) << 8)
        | (((((x >> 16) & 0xFF) as u8) as u64) << 16)
        | (((((x >> 24) & 0xFF) as u8) as u64) << 24)
        | (((((x >> 32) & 0xFF) as u8) as u64) << 32)
        | (((((x >> 40) & 0xFF) as u8) as u64) << 40)
        | (((((x >> 48) & 0xFF) as u8) as u64) << 48)
        | (((((x >> 56) & 0xFF) as u8) as u64) << 56) == x) by (bit_vector);
}

/// A signed 16-bit value survives the trip through its unsigned carrier.
pub proof fn lemma_i16_roundtrip(x: i16)
    ensures
        ((x as u16) as i16) == x,
{
    assert(((x as u16) as i16) == x) by (bit_vector);
}

/// A signed 32-bit value survives the trip through its unsigned carrier.
pub proof fn lemma_i32_roundtrip(x: i32)
    ensures
        ((x as u32) as i32) == x,
{
    assert(((x as u32) as i32) == x) by (bit_vector);
}

/// A signed 64-bit value survives the trip through its unsigned carrier.
pub proof fn lemma_i64_roundtrip(x: i64)
    ensures
        ((x as u64) as i64) == x,
{
    assert(((x as u64) as i64) == x) by (bit_vector);
}

/// Appends the bytes of `x` under byte order `e`.
pub fn put_u16(buf: &mut Vec<u8>, e: Endian, x: u16)
    ensures
        final(buf)@ == old(buf)@ + u16_bytes(e, x),
{
    match e {
        Endian::Little => {
            buf.push((x & 0xFF) as u8);
            buf.push(((x >> 8) & 0xFF) as u8);
        },
        Endian::Big => {
            buf.push(((x >> 8) & 0xFF) as u8);
            buf.push((x & 0xFF) as u8);
        },
    }
    proof {
        assert(buf@ =~= old(buf)@ + u16_bytes(e, x));
    }
}

/// Appends the bytes of `x` under byte order `e`.
pub fn put_u32(buf: &mut Vec<u8>, e: Endian, x: u32)
    ensures
        final(buf)@ == old(buf)@ + u32_bytes(e, x),
{
    match e {
        Endian::Little => {
            buf.push((x & 0xFF) as u8);
            buf.push(((x >> 8) & 0xFF) as u8);
            buf.push(((x >> 16) & 0xFF) as u8);
            buf.push(((x >> 24) & 0xFF) as u8);
        },
        Endian::Big => {
            buf.push(((x >> 24) & 0xFF) as u8);
            buf.push(((x >> 16) & 0xFF) as u8);
            buf.push(((x >> 8) & 0xFF) as u8);
            buf.push((x & 0xFF) as u8);
        },
    }
    proof {
        assert(buf@ =~= old(buf)@ + u32_bytes(e, x));
    }
}

/// Appends the bytes of `x` under byte order `e`.
pub fn put_u64(buf: &mut Vec<u8>, e: Endian, x: u64)
    ensures
        final(buf)@ == old(buf)@ + u64_bytes(e, x),
{
    match e {
        Endian::Little => {
            buf.push((x & 0xFF) as u8);
            buf.push(((x >> 8) & 0xFF) as u8);
            buf.push(((x >> 16) & 0xFF) as u8);
            buf.push(((x >> 24) & 0xFF) as u8);
            buf.push(((x >> 32) & 0xFF) as u8);
            buf.push(((x >> 40) & 0xFF) as u8);
            buf.push(((x >> 48) & 0xFF) as u8);
            buf.push(((x >> 56) & 0xFF) as u8);
        },
        Endian::Big => {
            buf.push(((x >> 56) & 0xFF) as u8);
            buf.push(((x >> 48) & 0xFF) as u8);
            buf.push(((x >> 40) & 0xFF) as u8);
            buf.push(((x >> 32) & 0xFF) as u8);
            buf.push(((x >> 24) & 0xFF) as u8);
            buf.push(((x >> 16) & 0xFF) as u8);
            buf.push(((x >> 8) & 0xFF) as u8);
            buf.push((x & 0xFF) as u8);
        },
    }
    proof {
        assert(buf@ =~= old(buf)@ + u64_bytes(e, x));
    }
}

/// Reads the 16-bit scalar whose bytes start at `pos`, under byte order `e`.
pub fn get_u16(data: &Vec<u8>, pos: usize, e: Endian) -> (r: u16)
    requires
        pos + 2 <= data@.len(),
    ensures
        r == u16_of(e, data@.subrange(pos as int, pos + 2)),
{
    let dlen = data.len();
    assert(pos + 2 <= dlen);
    let b0 = data[pos];
    let b1 = data[pos + 1];
    proof {
        assert(data@.subrange(pos as int, pos + 2)[0] == b0);
        assert(data@.subrange(pos as int, pos + 2)[1] == b1);
    }
    match e {
        Endian::Little => (b0 as u16) | ((b1 as u16) << 8),
        Endian::Big => (b1 as u16) | ((b0 as u16) << 8),
    }
}

/// Reads the 32-bit scalar whose bytes start at `pos`, under byte order `e`.
pub fn get_u32(data: &Vec<u8>, pos: usize, e: Endian) -> (r: u32)
    requires
        pos + 4 <= data@.len(),
    ensures
        r == u32_of(e, data@.subrange(pos as int, pos + 4)),
{
    let dlen = data.len();
    assert(pos + 4 <= dlen);
    let b0 = data[pos];
    let b1 = data[pos + 1];
    let b2 = data[pos + 2];
    let b3 = data[pos + 3];
    proof {
        assert(data@.subrange(pos as int, pos + 4)[0] == b0);
        assert(data@.subrange(pos as int, pos + 4)[1] == b1);
        assert(data@.subrange(pos as int, pos + 4)[2] == b2);
        assert(data@.subrange(pos as int, pos + 4)[3] == b3);
    }
    match e {
        Endian::Little => (b0 as u32) | ((b1 as u32) << 8) | ((b2 as u32) << 16)
            | ((b3 as u32) << 24),
        Endian::Big => (b3 as u32) | ((b2 as u32) << 8) | ((b1 as u32) << 16)
            | ((b0 as u32) << 24),
    }
}

/// Reads the 64-bit scalar whose bytes start at `pos`, under byte order `e`.
pub fn get_u64(data: &Vec<u8>, pos: usize, e: Endian) -> (r: u64)
    requires
        pos + 8 <= data@.len(),
    ensures
        r == u64_of(e, data@.subrange(pos as int, pos + 8)),
{
    let dlen = data.len();
    assert(pos + 8 <= dlen);
    let b0 = data[pos];
    let b1 = data[pos + 1];
    let b2 = data[pos + 2];
    let b3 = data[pos + 3];
    let b4 = data[pos + 4];
    let b5 = data[pos + 5];
    let b6 = data[pos + 6];
    let b7 = data[pos + 7];
    proof {
        assert(data@.subrange(pos as int, pos + 8)[0] == b0);
        assert(data@.subrange(pos as int, pos + 8)[1] == b1);
        assert(data@.subrange(pos as int, pos + 8)[2] == b2);
        assert(data@.subrange(pos as int, pos + 8)[3] == b3);
        assert(data@.subrange(pos as int, pos + 8)[4] == b4);
        assert(data@.subrange(pos as int, pos + 8)[5] == b5);
        assert(data@.subrange(pos as int, pos + 8)[6] == b6);
        assert(data@.subrange(pos as int, pos + 8)[7] == b7);
    }
    match e {
        Endian::Little => (b0 as u64) | ((b1 as u64) << 8) | ((b2 as u64) << 16)
            | ((b3 as u64) << 24) | ((b4 as u64) << 32) | ((b5 as u64) << 40)
            | ((b6 as u64) << 48) | ((b7 as u64) << 56),
        Endian::Big => (b7 as u64) | ((b6 as u64) << 8) | ((b5 as u64) << 16)
            | ((b4 as u64) << 24) | ((b3 as u64) << 32) | ((b2 as u64) << 40)
            | ((b1 as u64) << 48) | ((b0 as u64) << 56),
    }
}

} // verus!
