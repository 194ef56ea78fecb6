//! Binary codecs for compact integers and block coordinates.
//!
//! Two independent codecs live under `datatypes`. `datatypes::var` holds the
//! variable-length encoding of signed 32-bit and 64-bit integers (seven
//! payload bits per byte, the high bit marking that more bytes follow), built
//! on the unsigned groups of `groups`. `datatypes::position` holds the fixed
//! 64-bit packing of a signed three-dimensional coordinate.
//!
//! Both codecs are pure transforms between bytes and values. Buffers are
//! read and written through the `scroll` crate; `buffer` holds the two calls
//! into it.

pub mod buffer;
pub mod datatypes;
pub mod error;
pub mod groups;
