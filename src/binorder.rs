//! Fixed-width integers read from byte slices.

use std::array::TryFromSliceError;
use vstd::prelude::*;

verus! {

#[verifier::external_type_specification]
#[verifier::external_body]
pub struct ExTryFromSliceError(TryFromSliceError);

/// The big-endian value of two bytes.
pub open spec fn be_u16(b: Seq<u8>) -> int {
    b[0] as int * 256 + b[1] as int
}

/// The big-endian value of four bytes.
pub open spec fn be_u32(b: Seq<u8>) -> int {
    b[0] as int * 16777216 + b[1] as int * 65536 + b[2] as int * 256 + b[3] as int
}

/// The little-endian value of four bytes.
pub open spec fn le_u32(b: Seq<u8>) -> int {
    b[3] as int * 16777216 + b[2] as int * 65536 + b[1] as int * 256 + b[0] as int
}

/// Relies on `<[u8; 2]>::try_from(&[u8])`: it succeeds exactly when the
/// slice holds two bytes, and then copies them.
#[verifier::external_body]
fn array2_of(b: &[u8]) -> (r: Result<[u8; 2], TryFromSliceError>)
    ensures
        r is Ok <==> b@.len() == 2,
        r matches Ok(a) ==> a@ == b@,
{
    <[u8; 2]>::try_from(b)
}

/// Relies on `<[u8; 4]>::try_from(&[u8])`: it succeeds exactly when the
/// slice holds four bytes, and then copies them.
#[verifier::external_body]
fn array4_of(b: &[u8]) -> (r: Result<[u8; 4], TryFromSliceError>)
    ensures
        r is Ok <==> b@.len() == 4,
        r matches Ok(a) ==> a@ == b@,
{
    <[u8; 4]>::try_from(b)
}

/// Reads a big-endian `u16` from a slice of exactly two bytes.
pub fn to_be_u16(payload: &[u8]) -> (r: Result<u16, TryFromSliceError>)
    ensures
        r is Ok <==> payload@.len() == 2,
        r matches Ok(v) ==> v as int == be_u16(payload@),
{
    match array2_of(payload) {
        Ok(a) => Ok((a[0] as u16) * 256 + (a[1] as u16)),
        Err(e) => Err(e),
    }
}

/// Reads a big-endian `u32` from a slice of exactly four bytes.
pub fn to_be_u32(payload: &[u8]) -> (r: Result<u32, TryFromSliceError>)
    ensures
        r is Ok <==> payload@.len() == 4,
        r matches Ok(v) ==> v as int == be_u32(payload@),
{
    match array4_of(payload) {
        Ok(a) => Ok((a[0] as u32) * 16777216 + (a[1] as u32) * 65536 + (a[2] as u32) * 256 + (
        a[3] as u32)),
        Err(e) => Err(e),
    }
}

/// Reads a little-endian `u32` from a slice of exactly four bytes.
pub fn to_le_u32(payload: &[u8]) -> (r: Result<u32, TryFromSliceError>)
    ensures
        r is Ok <==> payload@.len() == 4,
        r matches Ok(v) ==> v as int == le_u32(payload@),
{
    match array4_of(payload) {
        Ok(a) => Ok((a[3] as u32) * 16777216 + (a[2] as u32) * 65536 + (a[1] as u32) * 256 + (
        a[0] as u32)),
        Err(e) => Err(e),
    }
}

} // verus!
