//! The pixel model of the frame buffer.
//!
//! The controller's memory holds 8 pages of 128 columns; each byte is one
//! column of one page, its bit `k` the pixel in row `8 * page + k`.

use vstd::prelude::*;

verus! {

/// Width of the panel in pixels.
pub const SSD1315_WIDTH: u8 = 128;

/// Height of the panel in pixels.
pub const SSD1315_HEIGHT: u8 = 64;

/// Size of the frame buffer in bytes: one bit per pixel.
pub const SSD1315_BUFFER_SIZE: usize = 1024;

/// Bit `k` (`k < 8`) of a byte.
pub open spec fn bit(b: u8, k: int) -> bool {
    ((b >> (k as u8)) & 1u8) == 1u8
}

/// Whether `(x, y)` lies on the panel.
pub open spec fn on_screen(x: int, y: int) -> bool {
    0 <= x < 128 && 0 <= y < 64
}

/// Index of the byte that holds pixel `(x, y)`.
pub open spec fn byte_index(x: int, y: int) -> int {
    x + (y / 8) * 128
}

/// Whether pixel `(x, y)` is lit in the buffer `buf`.
pub open spec fn pixel(buf: Seq<u8>, x: int, y: int) -> bool {
    bit(buf[byte_index(x, y)], y % 8)
}

/// A buffer in which every pixel is dark.
pub open spec fn blank() -> Seq<u8> {
    Seq::new(1024, |i: int| 0u8)
}

proof fn lemma_byte_from_bits(a: u8, b: u8)
    by (bit_vector)
    requires
        (a >> 0u8) & 1u8 == (b >> 0u8) & 1u8,
        (a >> 1u8) & 1u8 == (b >> 1u8) & 1u8,
        (a >> 2u8) & 1u8 == (b >> 2u8) & 1u8,
        (a >> 3u8) & 1u8 == (b >> 3u8) & 1u8,
        (a >> 4u8) & 1u8 == (b >> 4u8) & 1u8,
        (a >> 5u8) & 1u8 == (b >> 5u8) & 1u8,
        (a >> 6u8) & 1u8 == (b >> 6u8) & 1u8,
        (a >> 7u8) & 1u8 == (b >> 7u8) & 1u8,
    ensures
        a == b,
{
}

pub(crate) proof fn lemma_bit_is_01(b: u8, k: u8)
    by (bit_vector)
    ensures
        (b >> k) & 1u8 == 1u8 || (b >> k) & 1u8 == 0u8,
{
}

/// Two frame buffers that light the same pixels are the same buffer: the
/// pixel contracts of the drawing functions pin the buffer down.
pub proof fn law_pixels_determine_buffer(a: Seq<u8>, b: Seq<u8>)
    requires
        a.len() == 1024,
        b.len() == 1024,
        forall|x: int, y: int| on_screen(x, y) ==> pixel(a, x, y) == pixel(b, x, y),
    ensures
        a == b,
{
    assert forall|i: int| 0 <= i < 1024 implies a[i] == b[i] by {
        let x = i % 128;
        let page = i / 128;
        assert forall|k: int| 0 <= k < 8 implies bit(a[i], k) == bit(b[i], k) by {
            let y = page * 8 + k;
            assert(on_screen(x, y));
            assert(byte_index(x, y) == i);
            assert(y % 8 == k);
            assert(pixel(a, x, y) == pixel(b, x, y));
        }
        let ai = a[i];
        let bi = b[i];
        assert forall|k: u8| k < 8 implies (ai >> k) & 1u8 == (bi >> k) & 1u8 by {
            assert(bit(ai, k as int) == bit(bi, k as int));
            assert((k as int) as u8 == k);
            lemma_bit_is_01(ai, k);
            lemma_bit_is_01(bi, k);
        }
        assert((ai >> 0u8) & 1u8 == (bi >> 0u8) & 1u8);
        assert((ai >> 1u8) & 1u8 == (bi >> 1u8) & 1u8);
        assert((ai >> 2u8) & 1u8 == (bi >> 2u8) & 1u8);
        assert((ai >> 3u8) & 1u8 == (bi >> 3u8) & 1u8);
        assert((ai >> 4u8) & 1u8 == (bi >> 4u8) & 1u8);
        assert((ai >> 5u8) & 1u8 == (bi >> 5u8) & 1u8);
        assert((ai >> 6u8) & 1u8 == (bi >> 6u8) & 1u8);
        assert((ai >> 7u8) & 1u8 == (bi >> 7u8) & 1u8);
        lemma_byte_from_bits(ai, bi);
    }
    assert(a =~= b);
}


proof fn lemma_zero_bits(k: u8)
    by (bit_vector)
    ensures
        (0u8 >> k) & 1u8 == 0u8,
{
}

/// Every pixel of a blank buffer is dark.
pub proof fn law_blank_is_dark()
    ensures
        blank().len() == 1024,
        forall|x: int, y: int| on_screen(x, y) ==> !pixel(blank(), x, y),
{
    assert forall|x: int, y: int| on_screen(x, y) implies !pixel(blank(), x, y) by {
        lemma_zero_bits((y % 8) as u8);
    }
}

/// `buf` with pixel `(x, y)` lit (`on`) or darkened, every other bit kept.
pub open spec fn with_pixel(buf: Seq<u8>, x: int, y: int, on: bool) -> Seq<u8> {
    let i = byte_index(x, y);
    let m = 1u8 << ((y % 8) as u8);
    buf.update(i, if on { buf[i] | m } else { buf[i] & !m })
}

proof fn lemma_set_bit(b: u8, k: u8, j: u8)
    by (bit_vector)
    requires
        k < 8,
        j < 8,
    ensures
        ((b | (1u8 << k)) >> j) & 1u8 == (if j == k { 1u8 } else { (b >> j) & 1u8 }),
        ((b & !(1u8 << k)) >> j) & 1u8 == (if j == k { 0u8 } else { (b >> j) & 1u8 }),
{
}

/// What `with_pixel` does to each pixel of the panel.
pub(crate) proof fn lemma_with_pixel(buf: Seq<u8>, x: int, y: int, on: bool)
    requires
        buf.len() == 1024,
        on_screen(x, y),
    ensures
        with_pixel(buf, x, y, on).len() == 1024,
        forall|px: int, py: int|
            on_screen(px, py) ==> pixel(with_pixel(buf, x, y, on), px, py) == (if px == x && py
                == y {
                on
            } else {
                pixel(buf, px, py)
            }),
{
    let nb = with_pixel(buf, x, y, on);
    assert forall|px: int, py: int| on_screen(px, py) implies pixel(nb, px, py) == (if px == x
        && py == y {
        on
    } else {
        pixel(buf, px, py)
    }) by {
        let i = byte_index(x, y);
        if byte_index(px, py) == i {
            assert(px == x && py / 8 == y / 8);
            let k = (y % 8) as u8;
            let j = (py % 8) as u8;
            lemma_set_bit(buf[i], k, j);
            lemma_bit_is_01(buf[i], j);
            assert(j as int == py % 8);
            if py == y {
                assert(j == k);
            } else {
                assert(j != k);
            }
        }
    }
}


/// Pixel `(i, j)` of a page-packed image `w` columns wide: bit `j % 8` of
/// the byte at column `i` of page `j / 8`.
pub open spec fn image_pixel(image: Seq<u8>, w: int, i: int, j: int) -> bool {
    bit(image[i + (j / 8) * w], j % 8)
}

/// `buf` after the 8 image rows of byte `s` are written at column `col`,
/// starting at row `y + 8 * p`: when that row is not a page boundary the
/// byte straddles two pages, and the rows of those pages outside the eight
/// keep their bits.
pub open spec fn put_column(buf: Seq<u8>, col: int, y: int, p: int, s: u8) -> Seq<u8> {
    let off = (y % 8) as u8;
    let q = y / 8 + p;
    let i = col + q * 128;
    if off == 0 {
        buf.update(i, s)
    } else {
        let b1 = buf.update(i, (buf[i] & !(0xFFu8 << off)) | (s << off));
        if q + 1 < 8 {
            b1.update(i + 128, (b1[i + 128] & !(0xFFu8 >> ((8u8 - off) as u8))) | (s >> ((8u8 - off) as u8)))
        } else {
            b1
        }
    }
}

proof fn lemma_merge_bits(b: u8, s: u8, off: u8, k: u8)
    by (bit_vector)
    requires
        1 <= off < 8,
        k < 8,
    ensures
        (((b & !(0xFFu8 << off)) | (s << off)) >> k) & 1u8 == (if k < off {
            (b >> k) & 1u8
        } else {
            (s >> ((k - off) as u8)) & 1u8
        }),
        (((b & !(0xFFu8 >> ((8u8 - off) as u8))) | (s >> ((8u8 - off) as u8))) >> k) & 1u8 == (if k < off {
            (s >> ((k + 8u8 - off) as u8)) & 1u8
        } else {
            (b >> k) & 1u8
        }),
{
}

/// What `put_column` does to each pixel of the panel.
pub(crate) proof fn lemma_put_column(buf: Seq<u8>, col: int, y: int, p: int, s: u8)
    requires
        buf.len() == 1024,
        0 <= col < 128,
        0 <= y,
        0 <= p,
        y + 8 * p < 64,
    ensures
        put_column(buf, col, y, p, s).len() == 1024,
        forall|px: int, py: int|
            on_screen(px, py) ==> pixel(put_column(buf, col, y, p, s), px, py) == (if px == col
                && y + 8 * p <= py < y + 8 * p + 8 {
                bit(s, py - y - 8 * p)
            } else {
                pixel(buf, px, py)
            }),
{
    let nb = put_column(buf, col, y, p, s);
    let off = (y % 8) as u8;
    let q = y / 8 + p;
    let i = col + q * 128;
    assert forall|px: int, py: int| on_screen(px, py) implies pixel(nb, px, py) == (if px == col
        && y + 8 * p <= py < y + 8 * p + 8 {
        bit(s, py - y - 8 * p)
    } else {
        pixel(buf, px, py)
    }) by {
        let bi = byte_index(px, py);
        let k = (py % 8) as u8;
        assert(k as int == py % 8);
        if bi == i {
            assert(px == col && py / 8 == q);
            if off == 0 {
                assert(py - y - 8 * p == k as int);
            } else {
                lemma_merge_bits(buf[i], s, off, k);
                lemma_bit_is_01(buf[i], k);
                if k < off {
                    assert(!(y + 8 * p <= py));
                } else {
                    assert(py - y - 8 * p == (k - off) as int);
                                        lemma_bit_is_01(s, (k - off) as u8);
                }
            }
        } else if off != 0 && q + 1 < 8 && bi == i + 128 {
            assert(px == col && py / 8 == q + 1);
            let b1 = buf.update(i, (buf[i] & !(0xFFu8 << off)) | (s << off));
            assert(b1[i + 128] == buf[i + 128]);
            lemma_merge_bits(buf[i + 128], s, off, k);
            lemma_bit_is_01(buf[i + 128], k);
            if k < off {
                assert(py - y - 8 * p == (k + 8u8 - off) as int);
                lemma_bit_is_01(s, (k + 8u8 - off) as u8);
            } else {
                assert(!(py < y + 8 * p + 8));
            }
        } else {
            assert(nb[bi] == buf[bi]);
            if px == col && y + 8 * p <= py < y + 8 * p + 8 {
                assert(false);
            }
        }
    }
}


/// Position in the font of the glyph of `c`: the digits, then the lower-case
/// letters, then `,`, `.`, `!` and `?`; -1 for any other character.
pub open spec fn glyph_index(c: char) -> int {
    if '0' <= c && c <= '9' {
        c as int - '0' as int
    } else if 'a' <= c && c <= 'z' {
        c as int - 'a' as int + 10
    } else if c == ',' {
        36
    } else if c == '.' {
        37
    } else if c == '!' {
        38
    } else if c == '?' {
        39
    } else {
        -1
    }
}

/// The font holds 40 glyphs: the ten digits at 0 to 9, the 26 lower-case
/// letters at 10 to 35, then `,` at 36, `.` at 37, `!` at 38 and `?` at 39.
/// Every one of these characters has a glyph, no two share one, and no other
/// character has one.
pub proof fn law_glyph_index(c: char)
    ensures
        ('0' <= c && c <= '9') ==> glyph_index(c) == c as int - 48,
        ('a' <= c && c <= 'z') ==> glyph_index(c) == c as int - 97 + 10,
        glyph_index(',') == 36,
        glyph_index('.') == 37,
        glyph_index('!') == 38,
        glyph_index('?') == 39,
        ('0' <= c && c <= '9') || ('a' <= c && c <= 'z') || c == ',' || c == '.' || c == '!' || c
            == '?' <==> 0 <= glyph_index(c) < 40,
        !(0 <= glyph_index(c) < 40) ==> glyph_index(c) == -1,
{
}

/// Two characters with glyphs have different glyphs.
pub proof fn law_glyph_index_distinct(c: char, d: char)
    requires
        0 <= glyph_index(c) < 40,
        glyph_index(c) == glyph_index(d),
    ensures
        c == d,
{
}

/// With a 40-glyph font, every supported character is drawn in any cell
/// that fits on the panel.
pub proof fn law_supported_chars_are_drawn(font: Seq<[u8; 8]>, x: int, y: int, c: char)
    requires
        font.len() == 40,
        x + 8 <= 128,
        y + 8 <= 64,
        ('0' <= c && c <= '9') || ('a' <= c && c <= 'z') || c == ',' || c == '.' || c == '!' || c
            == '?',
    ensures
        glyph_drawn(font, x, y, c),
{
}

/// Whether `c` is drawn with its top-left corner at `(x, y)`: its glyph is in
/// the font and the whole 8x8 cell lies on the panel.
pub open spec fn glyph_drawn(font: Seq<[u8; 8]>, x: int, y: int, c: char) -> bool {
    &&& 0 <= glyph_index(c) < font.len()
    &&& x + 8 <= 128
    &&& y + 8 <= 64
}

/// Whether `c`, drawn at `(x, y)`, lights pixel `(px, py)`: row `r` of a
/// glyph is one byte, its most significant bit the leftmost pixel.
pub open spec fn glyph_lights(font: Seq<[u8; 8]>, x: int, y: int, c: char, px: int, py: int) -> bool {
    &&& glyph_drawn(font, x, y, c)
    &&& x <= px < x + 8
    &&& y <= py < y + 8
    &&& bit(font[glyph_index(c)][py - y], 7 - (px - x))
}


/// Whether one of the glyph cells `(x, y, c)` lights pixel `(px, py)`.
pub open spec fn cells_light(font: Seq<[u8; 8]>, cells: Seq<(int, int, char)>, px: int, py: int) -> bool {
    exists|k: int|
        0 <= k < cells.len() && #[trigger] glyph_lights(font, cells[k].0, cells[k].1, cells[k].2, px, py)
}

/// The glyph cells of `text` laid out in character cells of 8x8 pixels: the
/// cursor starts at cell `(cx, cy)`; a newline returns it to column `x` of
/// the next row; a character that would cross the right edge goes to column
/// `x` of the next row first; the first character whose row would cross the
/// bottom edge ends the text. Each entry is the pixel position of a cell and
/// its character.
pub open spec fn text_cells(x: int, cx: int, cy: int, text: Seq<char>) -> Seq<(int, int, char)>
    decreases text.len(),
{
    if text.len() == 0 {
        Seq::empty()
    } else {
        let c = text[0];
        let rest = text.drop_first();
        if c == '\n' {
            text_cells(x, x, cy + 1, rest)
        } else {
            let wrap = (cx + 1) * 8 > 128;
            let ncx = if wrap { x } else { cx };
            let ncy = if wrap { cy + 1 } else { cy };
            if (ncy + 1) * 8 > 64 {
                Seq::empty()
            } else {
                seq![(ncx * 8, ncy * 8, c)] + text_cells(x, ncx + 1, ncy, rest)
            }
        }
    }
}


/// How many characters of `s` are not newlines.
pub open spec fn visible_count(s: Seq<char>) -> int
    decreases s.len(),
{
    if s.len() == 0 {
        0
    } else {
        visible_count(s.drop_last()) + (if s.last() != '\n' { 1int } else { 0int })
    }
}

/// Counting the characters of a prefix one more at a time, and a prefix
/// counts no more than the whole.
pub(crate) proof fn lemma_visible_prefix(s: Seq<char>, i: int)
    requires
        0 <= i < s.len(),
    ensures
        visible_count(s.take(i + 1)) == visible_count(s.take(i)) + (if s[i] != '\n' { 1int } else { 0int }),
        visible_count(s.take(i + 1)) <= visible_count(s),
        0 <= visible_count(s.take(i)),
    decreases s.len(),
{
    assert(s.take(i + 1).drop_last() =~= s.take(i));
    lemma_visible_nonneg(s.take(i));
    if i + 1 < s.len() {
        lemma_visible_prefix(s.drop_last(), i);
        assert(s.drop_last().take(i + 1) =~= s.take(i + 1));
        lemma_visible_nonneg(s.drop_last());
    } else {
        assert(s.take(i + 1) =~= s);
    }
}

proof fn lemma_visible_nonneg(s: Seq<char>)
    ensures
        visible_count(s) >= 0,
    decreases s.len(),
{
    if s.len() > 0 {
        lemma_visible_nonneg(s.drop_last());
    }
}

/// `after` is what drawing `text` at cell `(x, y)` with `font` makes of
/// `before`.
pub open spec fn text_drawn(before: Seq<u8>, after: Seq<u8>, font: Seq<[u8; 8]>, x: int, y: int, text: Seq<char>) -> bool {
    &&& after.len() == 1024
    &&& forall|px: int, py: int|
        on_screen(px, py) ==> pixel(after, px, py) == (pixel(before, px, py) || cells_light(
            font,
            text_cells(x, x, y, text),
            px,
            py,
        ))
}

pub open spec fn has_newline(s: Seq<char>) -> bool {
    exists|i: int| 0 <= i < s.len() && s[i] == '\n'
}

proof fn lemma_text_cells_below(x: int, cx: int, cy: int, s: Seq<char>)
    requires
        cy >= 8,
    ensures
        text_cells(x, cx, cy, s) == Seq::<(int, int, char)>::empty(),
    decreases s.len(),
{
    if s.len() > 0 && s[0] == '\n' {
        lemma_text_cells_below(x, x, cy + 1, s.drop_first());
    }
}

proof fn lemma_text_cells_split(x: int, cx: int, cy: int, a: Seq<char>, b: Seq<char>)
    requires
        !has_newline(a),
        cx + a.len() <= 16,
    ensures
        text_cells(x, cx, cy, a + b) == text_cells(x, cx, cy, a) + text_cells(x, cx + a.len(), cy, b),
    decreases a.len(),
{
    if a.len() == 0 {
        assert(a + b =~= b);
        assert(Seq::<(int, int, char)>::empty() + text_cells(x, cx, cy, b) =~= text_cells(x, cx, cy, b));
    } else {
        let c = a[0];
        assert(c != '\n');
        let ab = a + b;
        assert(ab[0] == c);
        assert(ab.drop_first() =~= a.drop_first() + b);
        assert(!has_newline(a.drop_first())) by {
            if has_newline(a.drop_first()) {
                let i = choose|i: int| 0 <= i < a.drop_first().len() && a.drop_first()[i] == '\n';
                assert(a[i + 1] == '\n');
            }
        }
        if (cy + 1) * 8 > 64 {
            lemma_text_cells_below(x, cx + a.len(), cy, b);
            assert(Seq::<(int, int, char)>::empty() + Seq::<(int, int, char)>::empty() =~= Seq::<(int, int, char)>::empty());
        } else {
            lemma_text_cells_split(x, cx + 1, cy, a.drop_first(), b);
            assert(text_cells(x, cx, cy, ab) == seq![(cx * 8, cy * 8, c)] + text_cells(x, cx + 1, cy, ab.drop_first()));
            assert(text_cells(x, cx, cy, a) == seq![(cx * 8, cy * 8, c)] + text_cells(x, cx + 1, cy, a.drop_first()));
            assert(seq![(cx * 8, cy * 8, c)] + (text_cells(x, cx + 1, cy, a.drop_first()) + text_cells(x, cx + a.len(), cy, b))
                =~= (seq![(cx * 8, cy * 8, c)] + text_cells(x, cx + 1, cy, a.drop_first())) + text_cells(x, cx + a.len(), cy, b));
        }
    }
}

proof fn lemma_cells_light_concat(font: Seq<[u8; 8]>, a: Seq<(int, int, char)>, b: Seq<(int, int, char)>, px: int, py: int)
    ensures
        cells_light(font, a + b, px, py) == (cells_light(font, a, px, py) || cells_light(font, b, px, py)),
{
    let ab = a + b;
    if cells_light(font, ab, px, py) {
        let k = choose|k: int| 0 <= k < ab.len() && #[trigger] glyph_lights(font, ab[k].0, ab[k].1, ab[k].2, px, py);
        if k < a.len() {
            assert(ab[k] == a[k]);
        } else {
            assert(ab[k] == b[k - a.len()]);
        }
    }
    if cells_light(font, a, px, py) {
        let k = choose|k: int| 0 <= k < a.len() && #[trigger] glyph_lights(font, a[k].0, a[k].1, a[k].2, px, py);
        assert(ab[k] == a[k]);
    }
    if cells_light(font, b, px, py) {
        let k = choose|k: int| 0 <= k < b.len() && #[trigger] glyph_lights(font, b[k].0, b[k].1, b[k].2, px, py);
        assert(ab[k + a.len()] == b[k]);
    }
}

proof fn lemma_text_drawn_twice(before: Seq<u8>, mid: Seq<u8>, after: Seq<u8>, whole: Seq<u8>, font: Seq<[u8; 8]>, x: int, y: int, s1: Seq<char>, y2: int, s2: Seq<char>, s: Seq<char>)
    requires
        before.len() == 1024,
        text_drawn(before, mid, font, x, y, s1),
        text_drawn(mid, after, font, x, y2, s2),
        text_drawn(before, whole, font, x, y, s),
        text_cells(x, x, y, s) == text_cells(x, x, y, s1) + text_cells(x, x, y2, s2),
    ensures
        whole == after,
{
    assert forall|px: int, py: int| on_screen(px, py) implies pixel(whole, px, py) == pixel(after, px, py) by {
        lemma_cells_light_concat(font, text_cells(x, x, y, s1), text_cells(x, x, y2, s2), px, py);
    }
    law_pixels_determine_buffer(whole, after);
}

/// A newline returns to the starting column of the next row: drawing
/// `s1`, a newline and `s2`, where `s1` fits on its row, gives the buffer
/// that drawing `s1` and then `s2` one row lower gives.
pub proof fn law_text_newline(font: Seq<[u8; 8]>, x: int, y: int, s1: Seq<char>, s2: Seq<char>, before: Seq<u8>, mid: Seq<u8>, after: Seq<u8>, whole: Seq<u8>)
    requires
        before.len() == 1024,
        !has_newline(s1),
        x + s1.len() <= 16,
        text_drawn(before, mid, font, x, y, s1),
        text_drawn(mid, after, font, x, y + 1, s2),
        text_drawn(before, whole, font, x, y, s1 + seq!['\n'] + s2),
    ensures
        whole == after,
{
    let tail = seq!['\n'] + s2;
    assert(s1 + seq!['\n'] + s2 =~= s1 + tail);
    lemma_text_cells_split(x, x, y, s1, tail);
    assert(tail[0] == '\n');
    assert(tail.drop_first() =~= s2);
    lemma_text_drawn_twice(before, mid, after, whole, font, x, y, s1, y + 1, s2, s1 + seq!['\n'] + s2);
}

/// Text that reaches the right edge goes on at the starting column of the
/// next row: drawing `a + b`, where `a` fills its row up to the edge, gives
/// the buffer that drawing `a` and then `b` one row lower gives.
pub proof fn law_text_wraps(font: Seq<[u8; 8]>, x: int, y: int, a: Seq<char>, b: Seq<char>, before: Seq<u8>, mid: Seq<u8>, after: Seq<u8>, whole: Seq<u8>)
    requires
        before.len() == 1024,
        x < 16,
        !has_newline(a),
        !has_newline(b),
        a.len() == 16 - x,
        text_drawn(before, mid, font, x, y, a),
        text_drawn(mid, after, font, x, y + 1, b),
        text_drawn(before, whole, font, x, y, a + b),
    ensures
        whole == after,
{
    lemma_text_cells_split(x, x, y, a, b);
    if b.len() > 0 {
        assert(b[0] != '\n');
    }
    assert(text_cells(x, 16, y, b) == text_cells(x, x, y + 1, b));
    lemma_text_drawn_twice(before, mid, after, whole, font, x, y, a, y + 1, b, a + b);
}

} // verus!
