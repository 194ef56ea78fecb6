//! A signed three-dimensional coordinate packed into one 64-bit word.
//!
//! Layout of the word, most significant bit first:
//!
//! ```text
//! bits 63..38 (26 bits): x
//! bits 37..12 (26 bits): z
//! bits 11..0  (12 bits): y
//! ```
//!
//! Each field holds the low bits of the two's-complement form of its
//! coordinate, so a coordinate survives the trip exactly when it lies in
//! `[-2^25, 2^25)` for x and z, and in `[-2^11, 2^11)` for y. Coordinates
//! outside these ranges are truncated without an error.

use vstd::prelude::*;

verus! {

/// Number of distinct values of a 26-bit field (x and z).
pub const WIDE_RANGE: u64 = 0x400_0000;

/// First value of a 26-bit field that stands for a negative coordinate.
pub const WIDE_SIGN: u64 = 0x200_0000;

/// Mask that keeps the low 26 bits.
pub const WIDE_MASK: u64 = 0x3FF_FFFF;

/// Number of distinct values of the 12-bit field (y).
pub const NARROW_RANGE: u64 = 0x1000;

/// First value of the 12-bit field that stands for a negative coordinate.
pub const NARROW_SIGN: u64 = 0x800;

/// Mask that keeps the low 12 bits.
pub const NARROW_MASK: u64 = 0xFFF;

/// Position of the lowest bit of the x field in the packed word.
pub const X_SHIFT: u64 = 38;

/// Position of the lowest bit of the z field in the packed word.
pub const Z_SHIFT: u64 = 12;

/// Weight of the lowest bit of the x field, `2^38`.
pub const X_UNIT: u64 = 0x40_0000_0000;

/// Weight of the lowest bit of the z field, `2^12`.
pub const Z_UNIT: u64 = 0x1000;

/// The field of `range` values that stores `v`: the low bits of the
/// two's-complement form of `v`, read as an unsigned number.
pub open spec fn field_of(v: int, range: int) -> int {
    v % range
}

/// The coordinate that a stored field stands for: values in the upper half
/// of the field's range are negative.
pub open spec fn sign_extend(field: int, range: int) -> int {
    if 2 * field >= range {
        field - range
    } else {
        field
    }
}

/// The x field of a packed word.
pub open spec fn x_field(val: u64) -> int {
    val as int / X_UNIT as int
}

/// The z field of a packed word.
pub open spec fn z_field(val: u64) -> int {
    (val as int / Z_UNIT as int) % WIDE_RANGE as int
}

/// The y field of a packed word.
pub open spec fn y_field(val: u64) -> int {
    val as int % NARROW_RANGE as int
}

/// A block coordinate.
#[derive(Debug, Clone, Copy, PartialEq, Eq, Structural)]
pub struct Position {
    pub x: i32,
    pub y: i32,
    pub z: i32,
}

impl Position {
    /// Whether every coordinate fits the field that stores it.
    pub open spec fn in_range(self) -> bool {
        &&& -(WIDE_SIGN as int) <= self.x < WIDE_SIGN as int
        &&& -(NARROW_SIGN as int) <= self.y < NARROW_SIGN as int
        &&& -(WIDE_SIGN as int) <= self.z < WIDE_SIGN as int
    }

    /// The packed word of a position: each coordinate's field at its place.
    pub open spec fn packed(self) -> u64 {
        (field_of(self.x as int, WIDE_RANGE as int) * X_UNIT as int
            + field_of(self.z as int, WIDE_RANGE as int) * Z_UNIT as int
            + field_of(self.y as int, NARROW_RANGE as int)) as u64
    }

    /// The position that a packed word stands for.
    pub open spec fn unpacked(val: u64) -> Position {
        Position {
            x: sign_extend(x_field(val), WIDE_RANGE as int) as i32,
            y: sign_extend(y_field(val), NARROW_RANGE as int) as i32,
            z: sign_extend(z_field(val), WIDE_RANGE as int) as i32,
        }
    }

    /// Unpacks a 64-bit word. Every word stands for some position, and that
    /// position is always in range.
    pub fn from_u64(val: u64) -> (p: Position)
        ensures
            p == Position::unpacked(val),
            p.in_range(),
    {
        let x_bits: u64 = val >> X_SHIFT;
        let z_bits: u64 = (val >> Z_SHIFT) & WIDE_MASK;
        let y_bits: u64 = val & NARROW_MASK;
        assert(x_bits == val / 0x40_0000_0000 && x_bits < 0x400_0000) by (bit_vector)
            requires
                x_bits == val >> 38,
        ;
        assert(z_bits == (val / 0x1000) % 0x400_0000 && z_bits < 0x400_0000) by (bit_vector)
            requires
                z_bits == (val >> 12) & 0x3FF_FFFF,
        ;
        assert(y_bits == val % 0x1000 && y_bits < 0x1000) by (bit_vector)
            requires
                y_bits == val & 0xFFF,
        ;
        let mut x: i32 = x_bits as i32;
        let mut y: i32 = y_bits as i32;
        let mut z: i32 = z_bits as i32;
        if x >= WIDE_SIGN as i32 {
            x -= WIDE_RANGE as i32;
        }
        if y >= NARROW_SIGN as i32 {
            y -= NARROW_RANGE as i32;
        }
        if z >= WIDE_SIGN as i32 {
            z -= WIDE_RANGE as i32;
        }
        Position { x, y, z }
    }

    /// Packs a position into a 64-bit word. A coordinate that does not fit
    /// its field is truncated to the field's width.
    pub fn to_u64(&self) -> (val: u64)
        ensures
            val == self.packed(),
    {
        let x_bits: u64 = (#[verifier::truncate] (self.x as u64)) & WIDE_MASK;
        let z_bits: u64 = (#[verifier::truncate] (self.z as u64)) & WIDE_MASK;
        let y_bits: u64 = (#[verifier::truncate] (self.y as u64)) & NARROW_MASK;
        proof {
            lemma_mask_is_field(self.x, 0x3FF_FFFF);
            lemma_mask_is_field(self.z, 0x3FF_FFFF);
            lemma_mask_is_field(self.y, 0xFFF);
        }
        let val: u64 = (x_bits << X_SHIFT) | (z_bits << Z_SHIFT) | y_bits;
        assert(val == x_bits * 0x40_0000_0000 + z_bits * 0x1000 + y_bits) by (bit_vector)
            requires
                val == (x_bits << 38) | (z_bits << 12) | y_bits,
                x_bits < 0x400_0000,
                z_bits < 0x400_0000,
                y_bits < 0x1000,
        ;
        val
    }
}

/// A position in range comes back unchanged from packing and unpacking,
/// whatever the signs of its coordinates.
pub proof fn round_trip_in_range(p: Position)
    requires
        p.in_range(),
    ensures
        Position::unpacked(p.packed()) == p,
{
}

/// Every 64-bit word is the packed form of the position it unpacks to, so
/// unpacking loses nothing.
pub proof fn unpack_then_pack(val: u64)
    ensures
        Position::unpacked(val).packed() == val,
        Position::unpacked(val).in_range(),
{
}

/// Packing, unpacking and packing again gives the word of the first packing,
/// for positions in range and out of range alike.
pub proof fn repacking_is_stable(p: Position)
    ensures
        Position::unpacked(p.packed()).packed() == p.packed(),
{
    unpack_then_pack(p.packed());
}

/// Each field of the packed word depends on its own coordinate alone: the
/// word of a position holds, at the place of each field, the low bits of that
/// coordinate and nothing of the other two.
pub proof fn fields_are_independent(p: Position)
    ensures
        x_field(p.packed()) == field_of(p.x as int, WIDE_RANGE as int),
        z_field(p.packed()) == field_of(p.z as int, WIDE_RANGE as int),
        y_field(p.packed()) == field_of(p.y as int, NARROW_RANGE as int),
{
}

/// A position out of range unpacks to the position in range whose
/// coordinates have the same low bits.
pub proof fn out_of_range_is_truncated(p: Position)
    ensures
        Position::unpacked(p.packed()).in_range(),
        field_of(Position::unpacked(p.packed()).x as int, WIDE_RANGE as int) == field_of(
            p.x as int,
            WIDE_RANGE as int,
        ),
        field_of(Position::unpacked(p.packed()).z as int, WIDE_RANGE as int) == field_of(
            p.z as int,
            WIDE_RANGE as int,
        ),
        field_of(Position::unpacked(p.packed()).y as int, NARROW_RANGE as int) == field_of(
            p.y as int,
            NARROW_RANGE as int,
        ),
{
    fields_are_independent(p);
}

/// Masking the sign-extended form of `v` with `2^k - 1` gives the field of
/// `2^k` values that stores `v`, for the two masks this format uses.
proof fn lemma_mask_is_field(v: i32, mask: u64)
    requires
        mask == WIDE_MASK || mask == NARROW_MASK,
    ensures
        ((v as u64) & mask) as int == field_of(v as int, mask + 1),
        ((v as u64) & mask) <= mask,
{
    let wide: u64 = v as u64;
    assert(wide == if v >= 0 {
        v as int
    } else {
        v + 0x1_0000_0000_0000_0000
    }) by (bit_vector)
        requires
            wide == v as u64,
    ;
    assert(wide & 0x3FF_FFFF == wide % 0x400_0000) by (bit_vector);
    assert(wide & 0xFFF == wide % 0x1000) by (bit_vector);
}

} // verus!
