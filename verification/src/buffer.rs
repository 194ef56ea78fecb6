//! Byte access to buffers, done by the `scroll` crate.
//!
//! Nothing in this file is proved: the contracts below restate what
//! `scroll` does for a single byte, and the rest of the library is verified
//! against them.

use scroll::{Endian, Pread, Pwrite};
use vstd::prelude::*;

verus! {

/// `scroll::Error`, the error type of every buffer access. The library
/// hands such errors on and never looks inside one.
#[verifier::external_type_specification]
#[verifier::external_body]
pub struct ExScrollError(scroll::Error);

/// The error that `scroll::Pread::gread_with::<u8>` returns when it cannot
/// read a byte of `src` at `offset`. It depends on nothing but the slice and
/// the offset.
pub uninterp spec fn gread_failure(src: Seq<u8>, offset: usize) -> scroll::Error;

/// The error that `scroll::Pwrite::pwrite_with::<u8>` returns when it cannot
/// store `byte` in `dst` at `offset`. It depends on nothing but the slice,
/// the byte and the offset.
pub uninterp spec fn pwrite_failure(dst: Seq<u8>, byte: u8, offset: usize) -> scroll::Error;

/// Reads one byte through `scroll::Pread::gread_with::<u8>` on a byte slice.
///
/// Claimed of `scroll`: when the offset lies inside the slice, the call
/// returns the byte at that offset and advances the offset by one; when the
/// offset is at or past the end, it returns an error, the same for the same
/// slice and offset, and leaves the offset as it was. The call never panics.
#[verifier::external_body]
pub(crate) fn gread_u8(src: &[u8], offset: &mut usize) -> (r: Result<u8, scroll::Error>)
    ensures
        match r {
            Ok(byte) => {
                &&& *old(offset) < src@.len()
                &&& byte == src@[*old(offset) as int]
                &&& *final(offset) == *old(offset) + 1
            },
            Err(e) => {
                &&& *old(offset) >= src@.len()
                &&& e == gread_failure(src@, *old(offset))
                &&& *final(offset) == *old(offset)
            },
        },
{
    src.gread_with::<u8>(offset, Endian::Little)
}

/// Writes one byte through `scroll::Pwrite::pwrite_with::<u8>` on a byte
/// slice.
///
/// Claimed of `scroll`: when the offset lies inside the slice, the call
/// stores the byte at that offset, changes no other byte, and returns the
/// number of bytes written, which is one; when the offset is at or past the
/// end, it returns an error, the same for the same slice, byte and offset,
/// and changes nothing. The call never panics.
#[verifier::external_body]
pub(crate) fn pwrite_u8(dst: &mut [u8], byte: u8, offset: usize) -> (r: Result<
    usize,
    scroll::Error,
>)
    ensures
        match r {
            Ok(written) => {
                &&& offset < old(dst)@.len()
                &&& written == 1
                &&& final(dst)@ == old(dst)@.update(offset as int, byte)
            },
            Err(e) => {
                &&& offset >= old(dst)@.len()
                &&& e == pwrite_failure(old(dst)@, byte, offset)
                &&& final(dst)@ == old(dst)@
            },
        },
{
    dst.pwrite_with::<u8>(byte, offset, Endian::Little)
}

} // verus!
