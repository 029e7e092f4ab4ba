//! The bridge to the `bytes` crate: decoders take `Bytes` values, encoders
//! return them. The contents of a `Bytes` value are named here, and every
//! operation the codec needs is a thin trusted wrapper over the crate.

use vstd::prelude::*;

use crate::error::Error;

verus! {

#[verifier::external_type_specification]
#[verifier::external_body]
pub struct ExBytes(bytes::Bytes);

/// The bytes a `bytes::Bytes` value holds.
pub uninterp spec fn bytes_view(b: bytes::Bytes) -> Seq<u8>;

/// Relies on `bytes::Bytes::len`: the number of bytes held.
#[verifier::external_body]
pub fn bytes_len(b: &bytes::Bytes) -> (r: usize)
    ensures
        r == bytes_view(*b).len(),
{
    b.len()
}

/// Relies on `bytes::Bytes` dereferencing to a slice of its contents.
#[verifier::external_body]
pub fn bytes_slice(b: &bytes::Bytes) -> (r: &[u8])
    ensures
        r@ == bytes_view(*b),
{
    &b[..]
}

/// Relies on `bytes::Bytes::split_to`: the first `at` bytes are split off
/// and returned, the rest stay behind. `split_to` panics beyond the
/// length, so that case is excluded.
#[verifier::external_body]
fn bytes_split_to_unchecked(b: &mut bytes::Bytes, at: usize) -> (r: bytes::Bytes)
    requires
        at <= bytes_view(*old(b)).len(),
    ensures
        bytes_view(r) == bytes_view(*old(b)).take(at as int),
        bytes_view(*final(b)) == bytes_view(*old(b)).skip(at as int),
{
    b.split_to(at)
}

/// Relies on `bytes::Bytes::from`: wraps the vector's bytes unchanged.
#[verifier::external_body]
pub fn bytes_from_vec(v: Vec<u8>) -> (r: bytes::Bytes)
    ensures
        bytes_view(r) == v@,
{
    bytes::Bytes::from(v)
}

/// Split the first `at` bytes off `b`, or report `Bounds` (leaving `b`
/// untouched) when fewer are held.
pub fn bytes_split_to(b: &mut bytes::Bytes, at: usize) -> (r: Result<bytes::Bytes, Error>)
    ensures
        at <= bytes_view(*old(b)).len() ==> (r matches Ok(p) && bytes_view(p) == bytes_view(
            *old(b),
        ).take(at as int) && bytes_view(*final(b)) == bytes_view(*old(b)).skip(at as int)),
        at > bytes_view(*old(b)).len() ==> (r matches Err(e) && e is Bounds && *final(b) == *old(
            b,
        )),
{
    if bytes_len(b) < at {
        return Err(Error::Bounds("split_to out of bounds".to_owned()));
    }
    Ok(bytes_split_to_unchecked(b, at))
}

} // verus!
