//! The glyph table: from an 8-bit dot pattern to a Unicode Braille character.
//!
//! A dot pattern numbers its dots by rows: bit `r` is row `r` of the left
//! column and bit `4 + r` is row `r` of the right column. Unicode numbers the
//! dots of a Braille cell differently (dots 1, 2, 3, 7 down the left column,
//! dots 4, 5, 6, 8 down the right one, dot `k` at bit `k - 1` of the offset
//! from U+2800), so the table is a permutation of the bits.
use vstd::prelude::*;

verus! {

/// The first code point of the Unicode Braille Patterns block (no dot raised).
pub const BRAILLE_BASE: u32 = 0x2800;

/// Bit `k` of a dot pattern, as 0 or 1.
pub open spec fn pattern_bit(pattern: u8, k: u8) -> nat {
    ((pattern >> k) & 1u8) as nat
}

/// The offset from U+2800 of the Braille cell that shows `pattern`.
pub open spec fn braille_offset(pattern: u8) -> nat {
    pattern_bit(pattern, 0)             // row 0, left: dot 1
    + 2 * pattern_bit(pattern, 1)       // row 1, left: dot 2
    + 4 * pattern_bit(pattern, 2)       // row 2, left: dot 3
    + 8 * pattern_bit(pattern, 4)       // row 0, right: dot 4
    + 16 * pattern_bit(pattern, 5)      // row 1, right: dot 5
    + 32 * pattern_bit(pattern, 6)      // row 2, right: dot 6
    + 64 * pattern_bit(pattern, 3)      // row 3, left: dot 7
    + 128 * pattern_bit(pattern, 7)     // row 3, right: dot 8
}

/// The code point of the Braille cell that shows `pattern`.
pub open spec fn braille_code(pattern: u8) -> nat {
    (BRAILLE_BASE + braille_offset(pattern)) as nat
}

/// A `char` holds exactly the code points below 0x110000 outside the surrogates.
pub assume_specification[ char::from_u32 ](i: u32) -> (r: Option<char>)
    ensures
        r is Some <==> (i < 0xD800 || (0xE000 <= i && i < 0x110000)),
        r is Some ==> r->0 as u32 == i,
;

proof fn lemma_offset_bits(p: u8)
    ensures
        ((p & 0x07u8) as u32 | (((p & 0x70u8) >> 1u8) as u32) | (((p & 0x08u8) as u32) << 3u32)
            | ((p & 0x80u8) as u32)) as nat == braille_offset(p),
        braille_offset(p) < 256,
{
    let o: u32 = (p & 0x07u8) as u32 | (((p & 0x70u8) >> 1u8) as u32) | (((p & 0x08u8) as u32)
        << 3u32) | ((p & 0x80u8) as u32);
    let b0 = (p >> 0u8) & 1u8;
    let b1 = (p >> 1u8) & 1u8;
    let b2 = (p >> 2u8) & 1u8;
    let b3 = (p >> 3u8) & 1u8;
    let b4 = (p >> 4u8) & 1u8;
    let b5 = (p >> 5u8) & 1u8;
    let b6 = (p >> 6u8) & 1u8;
    let b7 = (p >> 7u8) & 1u8;
    assert(o == b0 as u32 + 2 * (b1 as u32) + 4 * (b2 as u32) + 8 * (b4 as u32) + 16 * (b5 as u32)
        + 32 * (b6 as u32) + 64 * (b3 as u32) + 128 * (b7 as u32) && o < 256) by (bit_vector)
        requires
            o == (p & 0x07u8) as u32 | (((p & 0x70u8) >> 1u8) as u32) | (((p & 0x08u8) as u32)
                << 3u32) | ((p & 0x80u8) as u32),
            b0 == (p >> 0u8) & 1u8,
            b1 == (p >> 1u8) & 1u8,
            b2 == (p >> 2u8) & 1u8,
            b3 == (p >> 3u8) & 1u8,
            b4 == (p >> 4u8) & 1u8,
            b5 == (p >> 5u8) & 1u8,
            b6 == (p >> 6u8) & 1u8,
            b7 == (p >> 7u8) & 1u8,
    ;
}

/// The Braille character that shows `pattern`.
pub fn braille_glyph(pattern: u8) -> (c: char)
    ensures
        c as u32 == braille_code(pattern),
{
    let offset: u32 = (pattern & 0x07u8) as u32 | (((pattern & 0x70u8) >> 1u8) as u32) | (((
    pattern & 0x08u8) as u32) << 3u32) | ((pattern & 0x80u8) as u32);
    proof {
        lemma_offset_bits(pattern);
    }
    char::from_u32(BRAILLE_BASE + offset).unwrap()
}

} // verus!
