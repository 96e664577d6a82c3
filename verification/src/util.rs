//! Big-endian byte helpers shared by the row and node codecs.

use vstd::prelude::*;

verus! {

/// The value carried by four big-endian bytes.
pub open spec fn spec_u32_from_be(b: Seq<u8>) -> u32
    recommends
        b.len() >= 4,
{
    ((b[0] as u32) << 24) | ((b[1] as u32) << 16) | ((b[2] as u32) << 8) | (b[3] as u32)
}

/// The four big-endian bytes of a value.
pub open spec fn spec_u32_to_be(x: u32) -> Seq<u8> {
    seq![(x >> 24) as u8, (x >> 16) as u8, (x >> 8) as u8, x as u8]
}

/// Writing a value big-endian and reading it back yields the value.
pub proof fn lemma_u32_be_round_trip(x: u32)
    ensures
        spec_u32_from_be(spec_u32_to_be(x)) == x,
{
    assert((((((x >> 24) as u8) as u32) << 24) | ((((x >> 16) as u8) as u32) << 16) | ((((x
        >> 8) as u8) as u32) << 8) | ((x as u8) as u32)) == x) by (bit_vector);
}

/// Reads the first byte of a slice.
pub fn read_u8(source: &[u8]) -> (r: u8)
    requires
        source@.len() >= 1,
    ensures
        r == source@[0],
{
    source[0]
}

/// Reads a big-endian 32-bit value from the first four bytes of a slice.
pub fn read_u32(source: &[u8]) -> (r: u32)
    requires
        source@.len() >= 4,
    ensures
        r == spec_u32_from_be(source@),
{
    let b0: u32 = source[0] as u32;
    let b1: u32 = source[1] as u32;
    let b2: u32 = source[2] as u32;
    let b3: u32 = source[3] as u32;
    (b0 << 24) | (b1 << 16) | (b2 << 8) | b3
}

/// Appends the four big-endian bytes of a value to a buffer.
pub fn write_u32_be(out: &mut Vec<u8>, x: u32)
    ensures
        final(out)@ == old(out)@ + spec_u32_to_be(x),
{
    out.push(#[verifier::truncate] ((x >> 24) as u8));
    out.push(#[verifier::truncate] ((x >> 16) as u8));
    out.push(#[verifier::truncate] ((x >> 8) as u8));
    out.push(#[verifier::truncate] (x as u8));
    assert(out@ =~= old(out)@ + spec_u32_to_be(x));
}

} // verus!
