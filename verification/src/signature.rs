//! The two fixed byte patterns that delimit a PNG stream.

use vstd::prelude::*;

verus! {

/// Standard PNG header.
pub const PNG_HEADER: [u8; 8] = [0x89, 0x50, 0x4E, 0x47, 0x0D, 0x0A, 0x1A, 0x0A];

/// PNGs end in 4 nulls, 'IEND', and a 4-byte CRC.
pub const PNG_FOOTER: [u8; 8] = [0, 0, 0, 0, 0x49, 0x45, 0x4E, 0x44];

/// The header pattern as a sequence.
pub open spec fn header() -> Seq<u8> {
    PNG_HEADER@
}

/// The footer pattern as a sequence.
pub open spec fn footer() -> Seq<u8> {
    PNG_FOOTER@
}

/// Whether `byte` is the header pattern's byte at position `i`.
pub fn matches_header(i: usize, byte: u8) -> (hit: bool)
    requires
        i < 8,
    ensures
        hit == (byte == header()[i as int]),
{
    PNG_HEADER[i] == byte
}

/// Whether `byte` is the footer pattern's byte at position `i`.
pub fn matches_footer(i: usize, byte: u8) -> (hit: bool)
    requires
        i < 8,
    ensures
        hit == (byte == footer()[i as int]),
{
    PNG_FOOTER[i] == byte
}

} // verus!
