//! The glyph table that `draw_char` and `draw_text` read, built from an
//! 8x8 font indexed by ASCII code whose rows keep the leftmost pixel in the
//! low bit.

use vstd::prelude::*;
use crate::pixels::{bit, glyph_index, lemma_bit_is_01};

verus! {

/// ASCII code of the character whose glyph is at position `i` of the table:
/// the digits, the lower-case letters, then `,`, `.`, `!` and `?`.
pub open spec fn glyph_code(i: int) -> int {
    if i < 10 {
        48 + i
    } else if i < 36 {
        97 + i - 10
    } else if i == 36 {
        44
    } else if i == 37 {
        46
    } else if i == 38 {
        33
    } else {
        63
    }
}

/// `r` is `b` with its bits in reverse order.
pub open spec fn mirrored(b: u8, r: u8) -> bool {
    forall|k: int| 0 <= k < 8 ==> bit(r, k) == bit(b, 7 - k)
}

/// Each character with a glyph sits at the position `glyph_code` names.
pub proof fn law_glyph_positions(c: char)
    requires
        0 <= glyph_index(c) < 40,
    ensures
        glyph_code(glyph_index(c)) == c as int,
{
}

proof fn lemma_mirror_bits(b: u8, k: u8)
    by (bit_vector)
    requires
        k < 8,
    ensures
        (((((b & 0x01u8) << 7u8) | ((b & 0x02u8) << 5u8) | ((b & 0x04u8) << 3u8) | ((b & 0x08u8)
            << 1u8) | ((b & 0x10u8) >> 1u8) | ((b & 0x20u8) >> 3u8) | ((b & 0x40u8) >> 5u8) | ((b
            & 0x80u8) >> 7u8)) >> k) & 1u8) == ((b >> ((7u8 - k) as u8)) & 1u8),
{
}

/// `b` with its bits in reverse order.
pub fn mirror_byte(b: u8) -> (r: u8)
    ensures
        mirrored(b, r),
{
    let r = ((b & 0x01) << 7) | ((b & 0x02) << 5) | ((b & 0x04) << 3) | ((b & 0x08) << 1) | ((b
        & 0x10) >> 1) | ((b & 0x20) >> 3) | ((b & 0x40) >> 5) | ((b & 0x80) >> 7);
    assert forall|k: int| 0 <= k < 8 implies bit(r, k) == bit(b, 7 - k) by {
        lemma_mirror_bits(b, k as u8);
        lemma_bit_is_01(r, k as u8);
        lemma_bit_is_01(b, (7 - k) as u8);
        assert((7u8 - (k as u8)) as u8 == (7 - k) as u8);
    }
    r
}

/// The glyph table: for each of the 40 characters in glyph order, its glyph
/// in `ascii` (a font indexed by ASCII code) with every row mirrored, so
/// that the leftmost pixel is in the high bit.
pub fn glyph_table(ascii: &[[u8; 8]]) -> (table: Vec<[u8; 8]>)
    requires
        ascii@.len() >= 128,
    ensures
        table@.len() == 40,
        forall|i: int, row: int|
            0 <= i < 40 && 0 <= row < 8 ==> mirrored(ascii@[glyph_code(i)][row], #[trigger] table@[i][row]),
{
    let mut table: Vec<[u8; 8]> = Vec::new();
    let mut i: usize = 0;
    while i < 40
        invariant
            0 <= i <= 40,
            ascii@.len() >= 128,
            table@.len() == i,
            forall|j: int, row: int|
                0 <= j < i && 0 <= row < 8 ==> mirrored(ascii@[glyph_code(j)][row], #[trigger] table@[j][row]),
        decreases 40 - i,
    {
        let code: usize = if i < 10 {
            48 + i
        } else if i < 36 {
            97 + i - 10
        } else if i == 36 {
            44
        } else if i == 37 {
            46
        } else if i == 38 {
            33
        } else {
            63
        };
        let g = ascii[code];
        let m: [u8; 8] = [
            mirror_byte(g[0]),
            mirror_byte(g[1]),
            mirror_byte(g[2]),
            mirror_byte(g[3]),
            mirror_byte(g[4]),
            mirror_byte(g[5]),
            mirror_byte(g[6]),
            mirror_byte(g[7]),
        ];
        table.push(m);
        assert forall|row: int| 0 <= row < 8 implies mirrored(ascii@[glyph_code(i as int)][row], #[trigger] table@[i as int][row]) by {
            assert(table@[i as int] == m);
        }
        i += 1;
    }
    table
}

} // verus!
