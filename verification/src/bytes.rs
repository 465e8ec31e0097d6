//! Big-endian integer fields of byte buffers, as used by the compressed
//! payload and the container layouts.

use vstd::prelude::*;

verus! {

/// The 16-bit big-endian value of the first two bytes of `s`.
pub open spec fn be16(s: Seq<u8>) -> int {
    s[0] * 0x100 + s[1]
}

/// The 24-bit big-endian value of the first three bytes of `s`.
pub open spec fn be24(s: Seq<u8>) -> int {
    s[0] * 0x10000 + s[1] * 0x100 + s[2]
}

/// The 32-bit big-endian value of the first four bytes of `s`.
pub open spec fn be32(s: Seq<u8>) -> int {
    s[0] * 0x1000000 + s[1] * 0x10000 + s[2] * 0x100 + s[3]
}

/// Appends `x` to `out` as two big-endian bytes.
pub fn push_be16(out: &mut Vec<u8>, x: u16)
    requires
        old(out)@.len() + 2 <= usize::MAX,
    ensures
        final(out)@.len() == old(out)@.len() + 2,
        final(out)@.subrange(0, old(out)@.len() as int) == old(out)@,
        be16(final(out)@.skip(old(out)@.len() as int)) == x,
{
    let b0: u8 = (x >> 8) as u8;
    let b1: u8 = x as u8;
    proof {
        assert(x == ((x >> 8) as u8) as u16 * 0x100 + (x as u8) as u16) by (bit_vector);
    }
    out.push(b0);
    out.push(b1);
    proof {
        assert(out@.subrange(0, old(out)@.len() as int) =~= old(out)@);
    }
}

/// Appends `x` to `out` as four big-endian bytes.
pub fn push_be32(out: &mut Vec<u8>, x: u32)
    requires
        old(out)@.len() + 4 <= usize::MAX,
    ensures
        final(out)@.len() == old(out)@.len() + 4,
        final(out)@.subrange(0, old(out)@.len() as int) == old(out)@,
        be32(final(out)@.skip(old(out)@.len() as int)) == x,
{
    let b0: u8 = (x >> 24) as u8;
    let b1: u8 = (x >> 16) as u8;
    let b2: u8 = (x >> 8) as u8;
    let b3: u8 = x as u8;
    proof {
        assert(x == ((x >> 24) as u8) as u32 * 0x1000000 + ((x >> 16) as u8) as u32 * 0x10000 + ((x
            >> 8) as u8) as u32 * 0x100 + (x as u8) as u32) by (bit_vector);
    }
    out.push(b0);
    out.push(b1);
    out.push(b2);
    out.push(b3);
    proof {
        assert(out@.subrange(0, old(out)@.len() as int) =~= old(out)@);
    }
}

/// Appends the low 24 bits of `x` to `out` as three big-endian bytes.
pub fn push_be24(out: &mut Vec<u8>, x: u32)
    requires
        x < 0x1000000,
        old(out)@.len() + 3 <= usize::MAX,
    ensures
        final(out)@.len() == old(out)@.len() + 3,
        final(out)@.subrange(0, old(out)@.len() as int) == old(out)@,
        be24(final(out)@.skip(old(out)@.len() as int)) == x,
{
    let b0: u8 = (x >> 16) as u8;
    let b1: u8 = (x >> 8) as u8;
    let b2: u8 = x as u8;
    proof {
        assert(x < 0x1000000 ==> x == ((x >> 16) as u8) as u32 * 0x10000 + ((x >> 8) as u8) as u32
            * 0x100 + (x as u8) as u32) by (bit_vector);
    }
    out.push(b0);
    out.push(b1);
    out.push(b2);
    proof {
        assert(out@.subrange(0, old(out)@.len() as int) =~= old(out)@);
    }
}

/// Reads the 16-bit big-endian value formed by two bytes.
pub fn read_be16(b0: u8, b1: u8) -> (r: u16)
    ensures
        r == b0 as int * 0x100 + b1 as int,
        r == be16(seq![b0, b1]),
{
    let r = ((b0 as u16) << 8) | (b1 as u16);
    proof {
        assert(((b0 as u16) << 8) | (b1 as u16) == (b0 as u16) * 0x100 + (b1 as u16)) by (bit_vector);
    }
    r
}

/// Reads the 24-bit big-endian value formed by three bytes.
pub fn read_be24(b0: u8, b1: u8, b2: u8) -> (r: u32)
    ensures
        r == b0 as int * 0x10000 + b1 as int * 0x100 + b2 as int,
        r == be24(seq![b0, b1, b2]),
{
    let r = ((b0 as u32) << 16) | ((b1 as u32) << 8) | (b2 as u32);
    proof {
        assert(((b0 as u32) << 16) | ((b1 as u32) << 8) | (b2 as u32) == (b0 as u32) * 0x10000 + (
        b1 as u32) * 0x100 + (b2 as u32)) by (bit_vector);
    }
    r
}

/// Reads the 32-bit big-endian value formed by four bytes.
pub fn read_be32(b0: u8, b1: u8, b2: u8, b3: u8) -> (r: u32)
    ensures
        r == b0 as int * 0x1000000 + b1 as int * 0x10000 + b2 as int * 0x100 + b3 as int,
        r == be32(seq![b0, b1, b2, b3]),
{
    let r = ((b0 as u32) << 24) | ((b1 as u32) << 16) | ((b2 as u32) << 8) | (b3 as u32);
    proof {
        assert(((b0 as u32) << 24) | ((b1 as u32) << 16) | ((b2 as u32) << 8) | (b3 as u32) == (
        b0 as u32) * 0x1000000 + (b1 as u32) * 0x10000 + (b2 as u32) * 0x100 + (b3 as u32))
            by (bit_vector);
    }
    r
}

} // verus!
