//! The 32-bit cyclic redundancy check that guards each record: the reflected
//! polynomial 0xEDB88320, all ones at the start, all bits flipped at the end.

use vstd::prelude::*;

verus! {

/// The generator polynomial, bits reflected.
pub const POLYNOMIAL: u32 = 0xEDB8_8320;

/// The register before any byte is read.
pub const INITIAL: u32 = 0xFFFF_FFFF;

/// One bit of division: shift right, and subtract the polynomial if a one
/// fell out.
pub open spec fn spec_shift(c: u32) -> u32 {
    if c & 1 == 1 {
        (c >> 1) ^ POLYNOMIAL
    } else {
        c >> 1
    }
}

/// The register after the byte `b` went through it.
pub open spec fn spec_feed(c: u32, b: u8) -> u32 {
    spec_shift(
        spec_shift(
            spec_shift(
                spec_shift(spec_shift(spec_shift(spec_shift(spec_shift(c ^ (b as u32)))))),
            ),
        ),
    )
}

/// The register after all of `s` went through it.
pub open spec fn spec_register(s: Seq<u8>) -> u32
    decreases s.len(),
{
    if s.len() == 0 {
        INITIAL
    } else {
        spec_feed(spec_register(s.drop_last()), s.last())
    }
}

/// The checksum of `s`.
pub open spec fn spec_crc32(s: Seq<u8>) -> u32 {
    spec_register(s) ^ INITIAL
}

fn shift(c: u32) -> (r: u32)
    ensures
        r == spec_shift(c),
{
    if c & 1 == 1 {
        (c >> 1) ^ POLYNOMIAL
    } else {
        c >> 1
    }
}

fn feed(c: u32, b: u8) -> (r: u32)
    ensures
        r == spec_feed(c, b),
{
    let mut r: u32 = c ^ (b as u32);
    r = shift(r);
    r = shift(r);
    r = shift(r);
    r = shift(r);
    r = shift(r);
    r = shift(r);
    r = shift(r);
    shift(r)
}

/// Computes the checksum of `data`.
pub fn crc32(data: &[u8]) -> (c: u32)
    ensures
        c == spec_crc32(data@),
{
    let mut register: u32 = INITIAL;
    let mut i: usize = 0;
    while i < data.len()
        invariant
            i <= data.len(),
            register == spec_register(data@.take(i as int)),
        decreases data.len() - i,
    {
        proof {
            let next = data@.take(i + 1);
            assert(next.drop_last() =~= data@.take(i as int));
            assert(next.last() == data@[i as int]);
        }
        register = feed(register, data[i]);
        i = i + 1;
    }
    proof {
        assert(data@.take(i as int) =~= data@);
    }
    register ^ INITIAL
}

} // verus!
