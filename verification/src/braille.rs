//! The geometry of a Braille cell: which bit of a cell's mask stands for which
//! dot, and which character shows a mask.

use vstd::prelude::*;

verus! {

/// Dot bits of a cell, indexed by the dot's row (0 to 3), then by its column
/// (0 or 1).
pub const PIXEL_MAP: [[u8; 2]; 4] = [[0x01, 0x08], [0x02, 0x10], [0x04, 0x20], [0x40, 0x80]];

/// Code point of the Braille pattern with no dot raised; the pattern of a mask
/// `m` sits at this code point plus `m`.
pub const BRAILLE_BASE: u32 = 0x2800;

/// The bit that pixel `(x, y)` occupies in the mask of its cell.
pub open spec fn dot_mask(x: int, y: int) -> u8 {
    PIXEL_MAP[y % 4][x % 2]
}

/// Whether `d` is the bit of exactly one dot.
pub open spec fn is_dot(d: u8) -> bool {
    ||| d == 0x01
    ||| d == 0x02
    ||| d == 0x04
    ||| d == 0x08
    ||| d == 0x10
    ||| d == 0x20
    ||| d == 0x40
    ||| d == 0x80
}

/// The character that shows a cell with mask `mask`: a space for the empty
/// cell, otherwise the Braille pattern whose raised dots are the bits of
/// `mask`.
pub open spec fn glyph(mask: u8) -> char {
    if mask == 0 {
        ' '
    } else {
        (BRAILLE_BASE + mask) as char
    }
}

/// Whether `c` may stand in rendered text for a cell: a space, or a Braille
/// pattern with at least one dot raised.
pub open spec fn is_glyph(c: char) -> bool {
    c == ' ' || BRAILLE_BASE < c as int <= BRAILLE_BASE + 0xFF
}

/// The glyph of a mask is a space for the empty mask alone, and otherwise a
/// Braille pattern with at least one dot raised; different masks have
/// different glyphs.
pub proof fn lemma_glyph(mask: u8, other: u8)
    ensures
        is_glyph(glyph(mask)),
        glyph(mask) == ' ' <==> mask == 0,
        glyph(mask) == glyph(other) ==> mask == other,
{
}

/// Every pixel owns a single bit of its cell's mask.
pub proof fn lemma_dot_mask_is_dot(x: int, y: int)
    ensures
        is_dot(dot_mask(x, y)),
{
}

/// Two different pixels of one cell own different bits.
pub proof fn lemma_dot_mask_distinct(x1: int, y1: int, x2: int, y2: int)
    requires
        x1 / 2 == x2 / 2,
        y1 / 4 == y2 / 4,
        (x1, y1) != (x2, y2),
    ensures
        dot_mask(x1, y1) != dot_mask(x2, y2),
{
}

/// Raising a dot makes it read as raised and leaves every other dot alone.
pub proof fn lemma_raise(m: u8, d: u8, e: u8)
    by (bit_vector)
    requires
        is_dot(d),
        is_dot(e),
    ensures
        (m | d) & d != 0,
        d != e ==> (m | d) & e == m & e,
{
}

/// Lowering a dot makes it read as lowered and leaves every other dot alone.
pub proof fn lemma_lower(m: u8, d: u8, e: u8)
    by (bit_vector)
    requires
        is_dot(d),
        is_dot(e),
    ensures
        (m & !d) & d == 0,
        d != e ==> (m & !d) & e == m & e,
{
}

/// Flipping a dot inverts its reading and leaves every other dot alone;
/// flipping it twice restores the mask.
pub proof fn lemma_flip(m: u8, d: u8, e: u8)
    by (bit_vector)
    requires
        is_dot(d),
        is_dot(e),
    ensures
        ((m ^ d) & d != 0) <==> (m & d == 0),
        d != e ==> (m ^ d) & e == m & e,
        (m ^ d) ^ d == m,
{
}

/// The bit of pixel `(x, y)` in its cell's mask.
pub fn dot(x: usize, y: usize) -> (d: u8)
    ensures
        d == dot_mask(x as int, y as int),
{
    PIXEL_MAP[y % 4][x % 2]
}

/// `char::from_u32` returns the character with the given code point, for every
/// Unicode scalar value (the code points up to 0x10FFFF outside the surrogate
/// range 0xD800 to 0xDFFF), and `None` for any other number.
pub assume_specification[ char::from_u32 ](i: u32) -> (r: Option<char>)
    ensures
        r == (if i <= 0xD7FF || (0xE000 <= i && i <= 0x10FFFF) {
            Some(i as char)
        } else {
            None::<char>
        }),
;

/// The character that shows a cell with mask `mask`.
pub fn glyph_of(mask: u8) -> (c: char)
    ensures
        c == glyph(mask),
{
    if mask == 0 {
        ' '
    } else {
        let code: u32 = BRAILLE_BASE + mask as u32;
        char::from_u32(code).unwrap()
    }
}

} // verus!
