//! Variable-length encoding of signed 32-bit and 64-bit integers.
//!
//! An integer is written as the groups of its two's-complement bit pattern,
//! read as an unsigned number: a 32-bit integer takes one to five bytes, a
//! 64-bit integer one to ten. Negative integers have their high bits set and
//! therefore always take the full length.

use crate::buffer::gread_failure;
use crate::error::CodecError;
use crate::groups::{
    continuation_run, group_weight, groups_limit, groups_of, groups_round_trip, groups_value,
    is_canonical_run, lemma_groups_of_len, lemma_groups_of_len_monotonic, lemma_groups_of_shape,
    lemma_groups_value_bound, overlong_is_refused, overwrite, parse_groups, read_groups,
    write_groups, write_outcome, Parsed, Scan,
};
use vstd::prelude::*;

verus! {

/// Width of a `VarInt` in bits.
pub const VARINT_WIDTH: u32 = 32;

/// Width of a `VarLong` in bits.
pub const VARLONG_WIDTH: u32 = 64;

/// Largest number of bytes that a `VarInt` takes.
pub const VARINT_MAX_BYTES: usize = 5;

/// Largest number of bytes that a `VarLong` takes.
pub const VARLONG_MAX_BYTES: usize = 10;

/// A signed 32-bit integer in the variable-length format.
#[derive(Debug, Clone, Copy, PartialEq, Eq, Structural)]
pub struct VarInt(pub i32);

/// A signed 64-bit integer in the variable-length format.
#[derive(Debug, Clone, Copy, PartialEq, Eq, Structural)]
pub struct VarLong(pub i64);

/// The two's-complement bit pattern of a 32-bit integer, as a number.
pub open spec fn bits_of_i32(v: i32) -> nat {
    if v >= 0 {
        v as nat
    } else {
        (v + 0x1_0000_0000) as nat
    }
}

/// The 32-bit integer whose bit pattern is the low 32 bits of `bits`.
pub open spec fn i32_of_bits(bits: nat) -> i32 {
    let low = bits % 0x1_0000_0000;
    if low < 0x8000_0000 {
        low as i32
    } else {
        (low - 0x1_0000_0000) as i32
    }
}

/// The two's-complement bit pattern of a 64-bit integer, as a number.
pub open spec fn bits_of_i64(v: i64) -> nat {
    if v >= 0 {
        v as nat
    } else {
        (v + 0x1_0000_0000_0000_0000) as nat
    }
}

/// The 64-bit integer whose bit pattern is the low 64 bits of `bits`.
pub open spec fn i64_of_bits(bits: nat) -> i64 {
    let low = bits % 0x1_0000_0000_0000_0000;
    if low < 0x8000_0000_0000_0000 {
        low as i64
    } else {
        (low - 0x1_0000_0000_0000_0000) as i64
    }
}

/// The bytes that encode a 32-bit integer.
pub open spec fn varint_encoding(v: i32) -> Seq<u8> {
    groups_of(bits_of_i32(v))
}

/// The bytes that encode a 64-bit integer.
pub open spec fn varlong_encoding(v: i64) -> Seq<u8> {
    groups_of(bits_of_i64(v))
}

/// What decoding a 32-bit integer at `offset` of `s` returns.
///
/// The integer of the run's low 32 bits and the length of the run, when the
/// run ends within five bytes. `SizeExceeded` when five bytes in a row ask
/// for another byte: `size` is then the integer gathered from those five
/// bytes, converted to `usize` as a signed number, and `len` the number of
/// bytes from `offset` to the end. `BufferUnderrun` when `s` ends before the
/// run does, with the error of the read that found no byte.
pub open spec fn varint_decoding(s: Seq<u8>, offset: usize) -> Result<(i32, usize), CodecError> {
    match parse_groups(s, offset as nat, groups_limit(VARINT_WIDTH as nat)) {
        Parsed::Value { bits, consumed } => Ok((i32_of_bits(bits), consumed as usize)),
        Parsed::Overlong { partial, len } => Err(
            CodecError::SizeExceeded { size: i32_of_bits(partial) as usize, len: len as usize },
        ),
        Parsed::Exhausted { at } => Err(CodecError::BufferUnderrun(gread_failure(s, at as usize))),
    }
}

/// What decoding a 64-bit integer at `offset` of `s` returns.
///
/// The integer of the run's low 64 bits and the length of the run, when the
/// run ends within ten bytes. `SizeExceeded` when ten bytes in a row ask for
/// another byte: `size` is then the integer gathered from those ten bytes,
/// converted to `usize` as a signed number, and `len` the number of bytes
/// from `offset` to the end. `BufferUnderrun` when `s` ends before the run
/// does, with the error of the read that found no byte.
pub open spec fn varlong_decoding(s: Seq<u8>, offset: usize) -> Result<(i64, usize), CodecError> {
    match parse_groups(s, offset as nat, groups_limit(VARLONG_WIDTH as nat)) {
        Parsed::Value { bits, consumed } => Ok((i64_of_bits(bits), consumed as usize)),
        Parsed::Overlong { partial, len } => Err(
            CodecError::SizeExceeded { size: i64_of_bits(partial) as usize, len: len as usize },
        ),
        Parsed::Exhausted { at } => Err(CodecError::BufferUnderrun(gread_failure(s, at as usize))),
    }
}

/// Decodes a 32-bit integer from `buffer`, starting at `offset`. Returns the
/// integer and the number of bytes it took.
///
/// Fails with `SizeExceeded` when five bytes in a row ask for another byte,
/// and with `BufferUnderrun` when the buffer ends before the integer does.
/// Payload bits of the fifth byte that lie above bit 31 are ignored.
pub fn decode_varint(buffer: &[u8], offset: usize) -> (r: Result<(i32, usize), CodecError>)
    ensures
        r == varint_decoding(buffer@, offset),
        r matches Ok(pair) ==> 1 <= pair.1 <= VARINT_MAX_BYTES && offset + pair.1
            <= buffer@.len(),
{
    match read_groups(buffer, offset, VARINT_WIDTH) {
        Scan::Value { bits, consumed } => {
            let value: i32 = #[verifier::truncate] (bits as i32);
            proof {
                lemma_low_bits_as_i32(bits);
            }
            Ok((value, consumed))
        },
        Scan::Overlong { partial, len } => {
            let value: i32 = #[verifier::truncate] (partial as i32);
            proof {
                lemma_low_bits_as_i32(partial);
            }
            Err(CodecError::SizeExceeded { size: #[verifier::truncate] (value as usize), len })
        },
        Scan::Failed(e) => Err(CodecError::BufferUnderrun(e)),
    }
}

/// Decodes a 64-bit integer from `buffer`, starting at `offset`. Returns the
/// integer and the number of bytes it took.
///
/// Fails with `SizeExceeded` when ten bytes in a row ask for another byte,
/// and with `BufferUnderrun` when the buffer ends before the integer does.
/// Payload bits of the tenth byte that lie above bit 63 are ignored.
pub fn decode_varlong(buffer: &[u8], offset: usize) -> (r: Result<(i64, usize), CodecError>)
    ensures
        r == varlong_decoding(buffer@, offset),
        r matches Ok(pair) ==> 1 <= pair.1 <= VARLONG_MAX_BYTES && offset + pair.1
            <= buffer@.len(),
{
    match read_groups(buffer, offset, VARLONG_WIDTH) {
        Scan::Value { bits, consumed } => {
            let value: i64 = #[verifier::truncate] (bits as i64);
            proof {
                lemma_bits_as_i64(bits);
            }
            Ok((value, consumed))
        },
        Scan::Overlong { partial, len } => {
            let value: i64 = #[verifier::truncate] (partial as i64);
            proof {
                lemma_bits_as_i64(partial);
            }
            Err(CodecError::SizeExceeded { size: #[verifier::truncate] (value as usize), len })
        },
        Scan::Failed(e) => Err(CodecError::BufferUnderrun(e)),
    }
}

/// Encodes a 32-bit integer into `output`, starting at `offset`. Returns the
/// number of bytes written, one to five.
///
/// Succeeds exactly when the encoding fits between `offset` and the end of
/// the buffer, and fails with `BufferUnderrun` otherwise. The bytes that did
/// fit have then been written all the same.
pub fn encode_varint(value: i32, output: &mut [u8], offset: usize) -> (r: Result<
    usize,
    CodecError,
>)
    ensures
        final(output)@ == overwrite(old(output)@, offset as int, varint_encoding(value)),
        r == write_outcome(old(output)@, offset, varint_encoding(value)),
        r is Ok <==> offset + varint_encoding(value).len() <= old(output)@.len(),
        r matches Ok(written) ==> 1 <= written <= VARINT_MAX_BYTES,
{
    let bits: u32 = #[verifier::truncate] (value as u32);
    proof {
        lemma_i32_as_bits(value);
        varint_encoding_length(value);
    }
    write_groups(bits as u64, output, offset)
}

/// Encodes a 64-bit integer into `output`, starting at `offset`. Returns the
/// number of bytes written, one to ten.
///
/// Succeeds exactly when the encoding fits between `offset` and the end of
/// the buffer, and fails with `BufferUnderrun` otherwise. The bytes that did
/// fit have then been written all the same.
pub fn encode_varlong(value: i64, output: &mut [u8], offset: usize) -> (r: Result<
    usize,
    CodecError,
>)
    ensures
        final(output)@ == overwrite(old(output)@, offset as int, varlong_encoding(value)),
        r == write_outcome(old(output)@, offset, varlong_encoding(value)),
        r is Ok <==> offset + varlong_encoding(value).len() <= old(output)@.len(),
        r matches Ok(written) ==> 1 <= written <= VARLONG_MAX_BYTES,
{
    let bits: u64 = #[verifier::truncate] (value as u64);
    proof {
        lemma_i64_as_bits(value);
        varlong_encoding_length(value);
    }
    write_groups(bits, output, offset)
}

impl VarInt {
    /// What `try_from_ctx` returns for the bytes `s`: what decoding at the
    /// start of `s` returns, with the integer wrapped.
    pub open spec fn decoding(s: Seq<u8>) -> Result<(VarInt, usize), CodecError> {
        match varint_decoding(s, 0) {
            Ok((value, consumed)) => Ok((VarInt(value), consumed)),
            Err(e) => Err(e),
        }
    }

    /// Decodes a `VarInt` from the start of `src`. Returns it with the
    /// number of bytes it took.
    pub fn try_from_ctx(src: &[u8]) -> (r: Result<(VarInt, usize), CodecError>)
        ensures
            r == VarInt::decoding(src@),
            r matches Ok(pair) ==> 1 <= pair.1 <= VARINT_MAX_BYTES && pair.1 <= src@.len(),
    {
        match decode_varint(src, 0) {
            Ok((value, consumed)) => Ok((VarInt(value), consumed)),
            Err(e) => Err(e),
        }
    }

    /// Encodes the integer at the start of `output`. Returns the number of
    /// bytes written, one to five.
    pub fn try_into_ctx(self, output: &mut [u8]) -> (r: Result<usize, CodecError>)
        ensures
            final(output)@ == overwrite(old(output)@, 0, varint_encoding(self.0)),
            r == write_outcome(old(output)@, 0, varint_encoding(self.0)),
            r is Ok <==> varint_encoding(self.0).len() <= old(output)@.len(),
            r matches Ok(written) ==> 1 <= written <= VARINT_MAX_BYTES,
    {
        encode_varint(self.0, output, 0)
    }
}

impl VarLong {
    /// What `try_from_ctx` returns for the bytes `s`: what decoding at the
    /// start of `s` returns, with the integer wrapped.
    pub open spec fn decoding(s: Seq<u8>) -> Result<(VarLong, usize), CodecError> {
        match varlong_decoding(s, 0) {
            Ok((value, consumed)) => Ok((VarLong(value), consumed)),
            Err(e) => Err(e),
        }
    }

    /// Decodes a `VarLong` from the start of `src`. Returns it with the
    /// number of bytes it took.
    pub fn try_from_ctx(src: &[u8]) -> (r: Result<(VarLong, usize), CodecError>)
        ensures
            r == VarLong::decoding(src@),
            r matches Ok(pair) ==> 1 <= pair.1 <= VARLONG_MAX_BYTES && pair.1 <= src@.len(),
    {
        match decode_varlong(src, 0) {
            Ok((value, consumed)) => Ok((VarLong(value), consumed)),
            Err(e) => Err(e),
        }
    }

    /// Encodes the integer at the start of `output`. Returns the number of
    /// bytes written, one to ten.
    pub fn try_into_ctx(self, output: &mut [u8]) -> (r: Result<usize, CodecError>)
        ensures
            final(output)@ == overwrite(old(output)@, 0, varlong_encoding(self.0)),
            r == write_outcome(old(output)@, 0, varlong_encoding(self.0)),
            r is Ok <==> varlong_encoding(self.0).len() <= old(output)@.len(),
            r matches Ok(written) ==> 1 <= written <= VARLONG_MAX_BYTES,
    {
        encode_varlong(self.0, output, 0)
    }
}

/// Every 32-bit integer is the integer of its own bit pattern.
pub proof fn i32_bits_round_trip(v: i32)
    ensures
        bits_of_i32(v) < 0x1_0000_0000,
        i32_of_bits(bits_of_i32(v)) == v,
{
}

/// Every 64-bit integer is the integer of its own bit pattern.
pub proof fn i64_bits_round_trip(v: i64)
    ensures
        bits_of_i64(v) < 0x1_0000_0000_0000_0000,
        i64_of_bits(bits_of_i64(v)) == v,
{
}

/// The encoding of a 32-bit integer is in canonical form and has one to five
/// bytes.
pub proof fn varint_encoding_length(v: i32)
    ensures
        is_canonical_run(varint_encoding(v)),
        1 <= varint_encoding(v).len() <= VARINT_MAX_BYTES,
{
    lemma_groups_of_shape(bits_of_i32(v));
    lemma_groups_of_len(bits_of_i32(v), 5);
    assert(group_weight(5) == 0x8_0000_0000) by {
        reveal_with_fuel(group_weight, 6);
    }
}

/// The encoding of a 64-bit integer is in canonical form and has one to ten
/// bytes.
pub proof fn varlong_encoding_length(v: i64)
    ensures
        is_canonical_run(varlong_encoding(v)),
        1 <= varlong_encoding(v).len() <= VARLONG_MAX_BYTES,
{
    lemma_groups_of_shape(bits_of_i64(v));
    lemma_groups_of_len(bits_of_i64(v), 10);
    assert(group_weight(10) == 0x40_0000_0000_0000_0000) by {
        reveal_with_fuel(group_weight, 11);
    }
}

/// Decoding the encoding of an integer gives the integer back, and the
/// number of bytes of the encoding.
pub proof fn varint_round_trip(v: i32)
    ensures
        varint_decoding(varint_encoding(v), 0) == Ok::<(i32, usize), CodecError>(
            (v, varint_encoding(v).len() as usize),
        ),
{
    let bytes = varint_encoding(v);
    varint_round_trip_in_place(v, bytes, 0);
    assert(overwrite(bytes, 0, bytes) =~= bytes);
}

/// Decoding the encoding of an integer gives the integer back, and the
/// number of bytes of the encoding.
pub proof fn varlong_round_trip(v: i64)
    ensures
        varlong_decoding(varlong_encoding(v), 0) == Ok::<(i64, usize), CodecError>(
            (v, varlong_encoding(v).len() as usize),
        ),
{
    let bytes = varlong_encoding(v);
    varlong_round_trip_in_place(v, bytes, 0);
    assert(overwrite(bytes, 0, bytes) =~= bytes);
}

/// The round trip holds inside any buffer: once the encoding of `v` stands
/// whole at `offset` of a buffer, whatever surrounds it, decoding at `offset`
/// returns `v` and the number of bytes of the encoding.
pub proof fn varint_round_trip_in_place(v: i32, buf: Seq<u8>, offset: usize)
    requires
        offset + varint_encoding(v).len() <= buf.len(),
    ensures
        varint_decoding(overwrite(buf, offset as int, varint_encoding(v)), offset) == Ok::<
            (i32, usize),
            CodecError,
        >((v, varint_encoding(v).len() as usize)),
{
    varint_encoding_length(v);
    groups_round_trip(buf, offset as nat, bits_of_i32(v), groups_limit(VARINT_WIDTH as nat));
}

/// The round trip holds inside any buffer: once the encoding of `v` stands
/// whole at `offset` of a buffer, whatever surrounds it, decoding at `offset`
/// returns `v` and the number of bytes of the encoding.
pub proof fn varlong_round_trip_in_place(v: i64, buf: Seq<u8>, offset: usize)
    requires
        offset + varlong_encoding(v).len() <= buf.len(),
    ensures
        varlong_decoding(overwrite(buf, offset as int, varlong_encoding(v)), offset) == Ok::<
            (i64, usize),
            CodecError,
        >((v, varlong_encoding(v).len() as usize)),
{
    varlong_encoding_length(v);
    groups_round_trip(buf, offset as nat, bits_of_i64(v), groups_limit(VARLONG_WIDTH as nat));
}

/// The encoding is the shortest there is: whatever bytes decode to `v`, the
/// decoder consumed at least as many of them as the encoding of `v` has.
pub proof fn varint_encoding_is_shortest(v: i32, s: Seq<u8>, offset: usize)
    requires
        varint_decoding(s, offset) matches Ok(pair) && pair.0 == v,
    ensures
        varint_decoding(s, offset) matches Ok(pair) && varint_encoding(v).len() <= pair.1,
{
    let run = continuation_run(s, offset as nat);
    let consumed = s.subrange(offset as int, offset + run + 1);
    let spelled = groups_value(consumed);
    assert(bits_of_i32(v) == spelled % 0x1_0000_0000);
    lemma_groups_of_len_monotonic(bits_of_i32(v), spelled);
    lemma_groups_value_bound(consumed);
    lemma_groups_of_len(spelled, consumed.len());
}

/// The encoding is the shortest there is: whatever bytes decode to `v`, the
/// decoder consumed at least as many of them as the encoding of `v` has.
pub proof fn varlong_encoding_is_shortest(v: i64, s: Seq<u8>, offset: usize)
    requires
        varlong_decoding(s, offset) matches Ok(pair) && pair.0 == v,
    ensures
        varlong_decoding(s, offset) matches Ok(pair) && varlong_encoding(v).len() <= pair.1,
{
    let run = continuation_run(s, offset as nat);
    let consumed = s.subrange(offset as int, offset + run + 1);
    let spelled = groups_value(consumed);
    assert(bits_of_i64(v) == spelled % 0x1_0000_0000_0000_0000);
    lemma_groups_of_len_monotonic(bits_of_i64(v), spelled);
    lemma_groups_value_bound(consumed);
    lemma_groups_of_len(spelled, consumed.len());
}

/// Encoding, decoding and encoding again gives the bytes of the first
/// encoding.
pub proof fn varint_reencoding_is_stable(v: i32)
    ensures
        varint_decoding(varint_encoding(v), 0) matches Ok(pair) && varint_encoding(pair.0)
            == varint_encoding(v),
{
    varint_round_trip(v);
}

/// Encoding, decoding and encoding again gives the bytes of the first
/// encoding.
pub proof fn varlong_reencoding_is_stable(v: i64)
    ensures
        varlong_decoding(varlong_encoding(v), 0) matches Ok(pair) && varlong_encoding(pair.0)
            == varlong_encoding(v),
{
    varlong_round_trip(v);
}

/// Five bytes in a row that ask for another byte are refused as a 32-bit
/// integer, whatever follows them.
pub proof fn varint_overlong_is_refused(s: Seq<u8>, offset: usize)
    requires
        offset + VARINT_MAX_BYTES <= s.len(),
        forall|i: int| offset <= i < offset + VARINT_MAX_BYTES ==> s[i] >= 0x80,
    ensures
        varint_decoding(s, offset) matches Err(e) && e is SizeExceeded,
{
    overlong_is_refused(s, offset as nat, 5);
}

/// Ten bytes in a row that ask for another byte are refused as a 64-bit
/// integer, whatever follows them.
pub proof fn varlong_overlong_is_refused(s: Seq<u8>, offset: usize)
    requires
        offset + VARLONG_MAX_BYTES <= s.len(),
        forall|i: int| offset <= i < offset + VARLONG_MAX_BYTES ==> s[i] >= 0x80,
    ensures
        varlong_decoding(s, offset) matches Err(e) && e is SizeExceeded,
{
    overlong_is_refused(s, offset as nat, 10);
}

/// Reinterpreting a 32-bit integer as unsigned gives its bit pattern.
proof fn lemma_i32_as_bits(v: i32)
    ensures
        (v as u32) == bits_of_i32(v),
{
    assert((v as u32) as int == (if v >= 0 {
        v as int
    } else {
        v + 0x1_0000_0000
    })) by (bit_vector);
}

/// Reinterpreting a 64-bit integer as unsigned gives its bit pattern.
proof fn lemma_i64_as_bits(v: i64)
    ensures
        (v as u64) == bits_of_i64(v),
{
    assert((v as u64) as int == (if v >= 0 {
        v as int
    } else {
        v + 0x1_0000_0000_0000_0000
    })) by (bit_vector);
}

/// Keeping the low 32 bits of a word and reading them as signed gives the
/// integer of those bits, for every number that has the word as its low 64
/// bits.
proof fn lemma_low_bits_as_i32(word: u64)
    ensures
        forall|bits: nat|
            word == bits % 0x1_0000_0000_0000_0000 ==> (word as i32) == #[trigger] i32_of_bits(
                bits,
            ),
{
    assert((word as i32) as int == (if word % 0x1_0000_0000 < 0x8000_0000 {
        (word % 0x1_0000_0000) as int
    } else {
        word % 0x1_0000_0000 - 0x1_0000_0000
    })) by (bit_vector);
    assert forall|bits: nat| word == bits % 0x1_0000_0000_0000_0000 implies (word as i32)
        == #[trigger] i32_of_bits(bits) by {
        assert((bits % 0x1_0000_0000_0000_0000) % 0x1_0000_0000 == bits % 0x1_0000_0000);
    }
}

/// Reading a word as signed gives the integer of its bits, for every number
/// that has the word as its low 64 bits.
proof fn lemma_bits_as_i64(word: u64)
    ensures
        forall|bits: nat|
            word == bits % 0x1_0000_0000_0000_0000 ==> (word as i64) == #[trigger] i64_of_bits(
                bits,
            ),
{
    assert((word as i64) as int == (if word < 0x8000_0000_0000_0000 {
        word as int
    } else {
        word - 0x1_0000_0000_0000_0000
    })) by (bit_vector);
}

} // verus!
