//! Keys and values come in and go out as `bytes::Bytes`. The engine works on
//! byte vectors; here is how the two are turned into each other.

use bytes::Bytes;
use vstd::prelude::*;

verus! {

/// A cheaply cloneable, immutable byte buffer of the `bytes` crate.
#[verifier::external_type_specification]
#[verifier::external_body]
pub struct ExBytes(Bytes);

/// The bytes that a buffer holds.
pub uninterp spec fn spec_bytes(buffer: Bytes) -> Seq<u8>;

/// `Bytes::is_empty` says whether the buffer holds no byte.
pub assume_specification[ Bytes::is_empty ](buffer: &Bytes) -> (empty: bool)
    ensures
        empty == (spec_bytes(*buffer).len() == 0),
;

/// Copies the bytes of a buffer into a vector, with `to_vec` on the slice
/// that `Bytes` dereferences to.
#[verifier::external_body]
pub(crate) fn bytes_to_vec(buffer: &Bytes) -> (bytes: Vec<u8>)
    ensures
        bytes@ == spec_bytes(*buffer),
{
    buffer.to_vec()
}

/// Makes a buffer that holds the bytes of a vector, with `Bytes::from`.
#[verifier::external_body]
pub(crate) fn bytes_from_vec(bytes: Vec<u8>) -> (buffer: Bytes)
    ensures
        spec_bytes(buffer) == bytes@,
{
    Bytes::from(bytes)
}

} // verus!
