//! Glyphs of the 8x8 bitmap font.

use vstd::prelude::*;

verus! {

/// The eight rows of entry `index` of font8x8's `BASIC_LEGACY` table, the
/// glyphs of U+0000 to U+007F; bit `b` of a row is the pixel in column `b`.
pub uninterp spec fn basic_legacy_glyph(index: int) -> Seq<u8>;

/// Reads entry `index` of font8x8's `BASIC_LEGACY` table, a constant array
/// of 128 glyphs of 8 rows each. The contract claims that the entry is the
/// one named by `basic_legacy_glyph(index)`; what the rows hold is not stated.
#[verifier::external_body]
fn legacy_glyph(index: usize) -> (rows: [u8; 8])
    requires
        index < 128,
    ensures
        rows@ == basic_legacy_glyph(index as int),
{
    font8x8::legacy::BASIC_LEGACY[index]
}

/// The rows of the glyph drawn for `ch`: its basic-latin glyph, or a blank
/// glyph for any other character.
pub open spec fn glyph_of(ch: char) -> Seq<u8> {
    if (ch as u32) < 128 {
        basic_legacy_glyph(ch as int)
    } else {
        Seq::new(8, |i: int| 0u8)
    }
}

/// Row `row`, column `col` of glyph `rows` is inked.
pub open spec fn glyph_pixel(rows: Seq<u8>, row: int, col: int) -> bool {
    &&& 0 <= row < 8
    &&& 0 <= col < 8
    &&& rows[row] & (1u8 << (col as u8)) != 0
}

/// The glyph drawn for `ch`.
pub fn glyph_rows(ch: char) -> (rows: [u8; 8])
    ensures
        rows@ == glyph_of(ch),
{
    let code = ch as u32;
    if code < 128 {
        legacy_glyph(code as usize)
    } else {
        let rows = [0u8; 8];
        proof {
            assert(rows@ =~= Seq::new(8, |i: int| 0u8));
        }
        rows
    }
}

} // verus!
