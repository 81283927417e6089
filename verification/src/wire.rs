//! Big-endian byte images of the fixed-width integers used on the wire.
//!
//! Every multi-byte integer of the packet format is written most significant
//! byte first. The spec functions below are the mathematical byte images; the
//! executable functions are proved to produce and consume exactly those.

use vstd::prelude::*;

verus! {

/// The 8-byte big-endian image of a 64-bit integer.
pub open spec fn be64(x: u64) -> Seq<u8> {
    seq![
        ((x >> 56) & 0xff) as u8,
        ((x >> 48) & 0xff) as u8,
        ((x >> 40) & 0xff) as u8,
        ((x >> 32) & 0xff) as u8,
        ((x >> 24) & 0xff) as u8,
        ((x >> 16) & 0xff) as u8,
        ((x >> 8) & 0xff) as u8,
        (x & 0xff) as u8,
    ]
}

/// The 64-bit integer read from an 8-byte big-endian image.
pub open spec fn be64_value(s: Seq<u8>) -> u64
    recommends
        s.len() == 8,
{
    (((s[0] as u64) << 56) | ((s[1] as u64) << 48) | ((s[2] as u64) << 40) | ((s[3] as u64) << 32)
        | ((s[4] as u64) << 24) | ((s[5] as u64) << 16) | ((s[6] as u64) << 8) | (s[7] as u64))
}

/// The 4-byte big-endian image of a 32-bit integer.
pub open spec fn be32(x: u32) -> Seq<u8> {
    seq![
        ((x >> 24) & 0xff) as u8,
        ((x >> 16) & 0xff) as u8,
        ((x >> 8) & 0xff) as u8,
        (x & 0xff) as u8,
    ]
}

/// The 32-bit integer read from a 4-byte big-endian image.
pub open spec fn be32_value(s: Seq<u8>) -> u32
    recommends
        s.len() == 4,
{
    (((s[0] as u32) << 24) | ((s[1] as u32) << 16) | ((s[2] as u32) << 8) | (s[3] as u32))
}

/// Reading back the big-endian image of a 64-bit integer yields the integer.
pub proof fn lemma_be64_value_of_be64(x: u64)
    ensures
        be64(x).len() == 8,
        be64_value(be64(x)) == x,
{
    let s = be64(x);
    let b0 = ((x >> 56) & 0xff) as u8;
    let b1 = ((x >> 48) & 0xff) as u8;
    let b2 = ((x >> 40) & 0xff) as u8;
    let b3 = ((x >> 32) & 0xff) as u8;
    let b4 = ((x >> 24) & 0xff) as u8;
    let b5 = ((x >> 16) & 0xff) as u8;
    let b6 = ((x >> 8) & 0xff) as u8;
    let b7 = (x & 0xff) as u8;
    assert((((b0 as u64) << 56) | ((b1 as u64) << 48) | ((b2 as u64) << 40) | ((b3 as u64) << 32)
        | ((b4 as u64) << 24) | ((b5 as u64) << 16) | ((b6 as u64) << 8) | (b7 as u64)) == x)
        by (bit_vector)
        requires
            b0 == ((x >> 56) & 0xff) as u8,
            b1 == ((x >> 48) & 0xff) as u8,
            b2 == ((x >> 40) & 0xff) as u8,
            b3 == ((x >> 32) & 0xff) as u8,
            b4 == ((x >> 24) & 0xff) as u8,
            b5 == ((x >> 16) & 0xff) as u8,
            b6 == ((x >> 8) & 0xff) as u8,
            b7 == (x & 0xff) as u8,
    ;
}

/// Reading back the big-endian image of a 32-bit integer yields the integer.
pub proof fn lemma_be32_value_of_be32(x: u32)
    ensures
        be32(x).len() == 4,
        be32_value(be32(x)) == x,
{
    let b0 = ((x >> 24) & 0xff) as u8;
    let b1 = ((x >> 16) & 0xff) as u8;
    let b2 = ((x >> 8) & 0xff) as u8;
    let b3 = (x & 0xff) as u8;
    assert((((b0 as u32) << 24) | ((b1 as u32) << 16) | ((b2 as u32) << 8) | (b3 as u32)) == x)
        by (bit_vector)
        requires
            b0 == ((x >> 24) & 0xff) as u8,
            b1 == ((x >> 16) & 0xff) as u8,
            b2 == ((x >> 8) & 0xff) as u8,
            b3 == (x & 0xff) as u8,
    ;
}

/// Round trip of a signed 64-bit integer through its unsigned bit image.
pub proof fn lemma_i64_u64_round_trip(x: i64)
    ensures
        ((x as u64) as i64) == x,
{
    assert(((x as u64) as i64) == x) by (bit_vector);
}

/// Appends the big-endian image of a 64-bit integer to a byte vector.
pub fn push_u64_be(out: &mut Vec<u8>, x: u64)
    ensures
        final(out)@ =~= old(out)@ + be64(x),
{
    proof {
        assert(((x >> 56) & 0xff) < 256 && ((x >> 48) & 0xff) < 256 && ((x >> 40) & 0xff) < 256
            && ((x >> 32) & 0xff) < 256 && ((x >> 24) & 0xff) < 256 && ((x >> 16) & 0xff) < 256
            && ((x >> 8) & 0xff) < 256 && (x & 0xff) < 256) by (bit_vector);
    }
    out.push(((x >> 56) & 0xff) as u8);
    out.push(((x >> 48) & 0xff) as u8);
    out.push(((x >> 40) & 0xff) as u8);
    out.push(((x >> 32) & 0xff) as u8);
    out.push(((x >> 24) & 0xff) as u8);
    out.push(((x >> 16) & 0xff) as u8);
    out.push(((x >> 8) & 0xff) as u8);
    out.push((x & 0xff) as u8);
}

/// Appends the big-endian image of a 32-bit integer to a byte vector.
pub fn push_u32_be(out: &mut Vec<u8>, x: u32)
    ensures
        final(out)@ =~= old(out)@ + be32(x),
{
    proof {
        assert(((x >> 24) & 0xff) < 256 && ((x >> 16) & 0xff) < 256 && ((x >> 8) & 0xff) < 256 && (
        x & 0xff) < 256) by (bit_vector);
    }
    out.push(((x >> 24) & 0xff) as u8);
    out.push(((x >> 16) & 0xff) as u8);
    out.push(((x >> 8) & 0xff) as u8);
    out.push((x & 0xff) as u8);
}

/// Reads the 64-bit big-endian integer stored at position `i` of `data`.
pub fn read_u64_be(data: &[u8], i: usize) -> (r: u64)
    requires
        i + 8 <= data@.len(),
    ensures
        r == be64_value(data@.subrange(i as int, i as int + 8)),
{
    let r: u64 = ((data[i] as u64) << 56) | ((data[i + 1] as u64) << 48) | ((data[i + 2] as u64)
        << 40) | ((data[i + 3] as u64) << 32) | ((data[i + 4] as u64) << 24) | ((data[i + 5] as u64)
        << 16) | ((data[i + 6] as u64) << 8) | (data[i + 7] as u64);
    proof {
        let s = data@.subrange(i as int, i as int + 8);
        assert(s[0] == data@[i as int] && s[1] == data@[i as int + 1] && s[2] == data@[i as int + 2]
            && s[3] == data@[i as int + 3] && s[4] == data@[i as int + 4] && s[5] == data@[i as int
            + 5] && s[6] == data@[i as int + 6] && s[7] == data@[i as int + 7]);
    }
    r
}

/// Reads the 32-bit big-endian integer stored at position `i` of `data`.
pub fn read_u32_be(data: &[u8], i: usize) -> (r: u32)
    requires
        i + 4 <= data@.len(),
    ensures
        r == be32_value(data@.subrange(i as int, i as int + 4)),
{
    let r: u32 = ((data[i] as u32) << 24) | ((data[i + 1] as u32) << 16) | ((data[i + 2] as u32)
        << 8) | (data[i + 3] as u32);
    proof {
        let s = data@.subrange(i as int, i as int + 4);
        assert(s[0] == data@[i as int] && s[1] == data@[i as int + 1] && s[2] == data@[i as int + 2]
            && s[3] == data@[i as int + 3]);
    }
    r
}

} // verus!
