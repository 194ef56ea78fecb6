//! The errors of the variable-length integer codec.

use vstd::prelude::*;

verus! {

/// Why decoding or encoding a variable-length integer failed.
#[derive(Debug)]
pub enum CodecError {
    /// The input kept asking for more bytes after the integer's width was
    /// used up. `size` is the value gathered up to that point, converted to
    /// `usize` as a signed integer of the target width; `len` is the number of
    /// input bytes that were available from the starting offset.
    SizeExceeded { size: usize, len: usize },
    /// The buffer ended before the next byte could be read or written. The
    /// payload is the error that the buffer access reported, handed on as it
    /// came.
    BufferUnderrun(scroll::Error),
}

} // verus!
