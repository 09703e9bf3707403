//! The frame buffer of the display and the drawing primitives.

use vstd::prelude::*;
use crate::chars::chars_of;
use crate::line::{dist, line_points, step_toward, walk};
use crate::pixels::{
    bit, blank, cells_light, text_drawn, visible_count, lemma_visible_prefix, glyph_drawn, glyph_index, glyph_lights, image_pixel, lemma_bit_is_01,
    lemma_put_column, lemma_with_pixel, on_screen, pixel, put_column, text_cells, with_pixel,
    SSD1315_HEIGHT, SSD1315_WIDTH,
};

verus! {

/// The frame buffer of an SSD1315 panel.
pub struct SSD1315 {
    buffer: [u8; 1024],
}

impl View for SSD1315 {
    type V = Seq<u8>;

    closed spec fn view(&self) -> Seq<u8> {
        self.buffer@
    }
}

/// Every frame buffer holds 1024 bytes.
pub proof fn law_buffer_len(d: &SSD1315)
    ensures
        d@.len() == 1024,
{
}

impl SSD1315 {
    /// A display whose buffer is dark.
    pub fn new() -> (d: SSD1315)
        ensures
            d@ == blank(),
    {
        let buffer: [u8; 1024] = [0u8; 1024];
        let d = SSD1315 { buffer };
        assert(d@ =~= blank());
        d
    }

    /// Byte `i` of the buffer.
    pub fn byte(&self, i: usize) -> (b: u8)
        requires
            i < 1024,
        ensures
            b == self@[i as int],
    {
        self.buffer[i]
    }

    /// Darkens every pixel of the buffer.
    pub fn clear(&mut self)
        ensures
            final(self)@ == blank(),
    {
        self.buffer = [0u8; 1024];
        assert(self@ =~= blank());
    }

    /// Lights pixel `(x, y)` when `color` is 1 and darkens it otherwise; a
    /// pixel off the panel is ignored.
    pub fn draw_pixel(&mut self, x: usize, y: usize, color: u8)
        ensures
            final(self)@.len() == 1024,
            final(self)@ == (if on_screen(x as int, y as int) {
                with_pixel(old(self)@, x as int, y as int, color == 1)
            } else {
                old(self)@
            }),
            forall|px: int, py: int|
                on_screen(px, py) ==> pixel(final(self)@, px, py) == (if px == x && py == y {
                    color == 1
                } else {
                    pixel(old(self)@, px, py)
                }),
    {
        if x >= (SSD1315_WIDTH as usize) || y >= (SSD1315_HEIGHT as usize) {
            return;
        }
        let page = y / 8;
        let bit = y % 8;
        let index = x + page * (SSD1315_WIDTH as usize);
        proof {
            lemma_with_pixel(self@, x as int, y as int, color == 1);
        }
        if color == 1 {
            self.buffer[index] |= 1u8 << (bit as u8);
        } else {
            self.buffer[index] &= !(1u8 << (bit as u8));
        }
        assert(self@ =~= with_pixel(old(self)@, x as int, y as int, color == 1));
    }

    /// Copies a page-packed image `w` columns wide and `h` rows high (rounded
    /// up to whole pages of 8 rows) to the buffer with its top-left corner at
    /// `(x, y)`; the parts off the panel are dropped, and nothing is drawn
    /// when `bitmap` is shorter than `w` times the number of pages.
    pub fn draw_processed_bitmap(&mut self, x: usize, y: usize, bitmap: &[u8], w: usize, h: usize)
        requires
            h + 7 <= usize::MAX,
            w * ((h + 7) / 8) <= usize::MAX,
        ensures
            final(self)@.len() == 1024,
            bitmap@.len() < w * ((h + 7) / 8) ==> final(self)@ == old(self)@,
            bitmap@.len() >= w * ((h + 7) / 8) ==> forall|px: int, py: int|
                on_screen(px, py) ==> pixel(final(self)@, px, py) == (if x <= px < x + w && y <= py
                    < y + 8 * ((h + 7) / 8) {
                    image_pixel(bitmap@, w as int, px - x, py - y)
                } else {
                    pixel(old(self)@, px, py)
                }),
    {
        if bitmap.len() < w * ((h + 7) / 8) {
            return;
        }
        let pages = (h + 7) / 8;
        let ghost old_buf = self@;
        let mut page: usize = 0;
        while page < pages
            invariant
                pages == (h + 7) / 8,
                w * pages <= usize::MAX,
                w * pages <= bitmap@.len(),
                old_buf == old(self)@,
                self@.len() == 1024,
                page <= pages,
                page > 0 ==> y + 8 * (page - 1) < 64,
                forall|px: int, py: int|
                    on_screen(px, py) ==> pixel(self@, px, py) == (if x <= px < x + w && y <= py < y
                        + 8 * page {
                        image_pixel(bitmap@, w as int, px - x, py - y)
                    } else {
                        pixel(old_buf, px, py)
                    }),
            ensures
                forall|px: int, py: int|
                    on_screen(px, py) ==> pixel(self@, px, py) == (if x <= px < x + w && y <= py < y
                        + 8 * pages {
                        image_pixel(bitmap@, w as int, px - x, py - y)
                    } else {
                        pixel(old_buf, px, py)
                    }),
            decreases pages - page,
        {
            if y + page * 8 >= SSD1315_HEIGHT as usize {
                break;
            }
            proof {
                lemma_page_in_bitmap(page as int, pages as int, w as int);
            }
            let ghost page_start = self@;
            let mut x_pos: usize = 0;
            while x_pos < w
                invariant
                    pages == (h + 7) / 8,
                    w * pages <= bitmap@.len(),
                    page < pages,
                    page * w + w <= w * pages,
                    w * pages <= usize::MAX,
                    y + 8 * page < 64,
                    x_pos > 0 ==> x + x_pos <= 128,
                    self@.len() == 1024,
                    x_pos <= w,
                    forall|px: int, py: int|
                        on_screen(px, py) ==> pixel(self@, px, py) == (if x <= px < x + x_pos && y
                            + 8 * page <= py < y + 8 * page + 8 {
                            image_pixel(bitmap@, w as int, px - x, py - y)
                        } else {
                            pixel(page_start, px, py)
                        }),
                ensures
                    forall|px: int, py: int|
                        on_screen(px, py) ==> pixel(self@, px, py) == (if x <= px < x + w && y + 8
                            * page <= py < y + 8 * page + 8 {
                            image_pixel(bitmap@, w as int, px - x, py - y)
                        } else {
                            pixel(page_start, px, py)
                        }),
                decreases w - x_pos,
            {
                if x + x_pos >= SSD1315_WIDTH as usize {
                    break;
                }
                let src_index = x_pos + page * w;
                if src_index < bitmap.len() {
                    let byte_value = bitmap[src_index];
                    let dst_page = (y / 8) + page;
                    let y_offset = (y % 8) as u8;
                    let dst_index = (x + x_pos) + dst_page * (SSD1315_WIDTH as usize);
                    let ghost before = self@;
                    if dst_index < self.buffer.len() {
                        if y_offset == 0 {
                            self.buffer[dst_index] = byte_value;
                        } else {
                            let mask_lower: u8 = !(0xFFu8 << y_offset);
                            let mask_upper: u8 = !(0xFFu8 >> (8 - y_offset));
                            self.buffer[dst_index] &= mask_lower;
                            self.buffer[dst_index] |= byte_value << y_offset;
                            if dst_page + 1 < (SSD1315_HEIGHT as usize) / 8 {
                                let next_index = dst_index + (SSD1315_WIDTH as usize);
                                if next_index < self.buffer.len() {
                                    self.buffer[next_index] &= mask_upper;
                                    self.buffer[next_index] |= byte_value >> (8 - y_offset);
                                }
                            }
                        }
                    }
                    proof {
                        let col = (x + x_pos) as int;
                        assert(self@ =~= put_column(before, col, y as int, page as int, byte_value));
                        lemma_put_column(before, col, y as int, page as int, byte_value);
                        assert forall|px: int, py: int| on_screen(px, py) && px == col && y + 8
                            * page <= py < y + 8 * page + 8 implies bit(byte_value, py - y - 8
                            * page) == image_pixel(bitmap@, w as int, px - x, py - y) by {
                            let j = py - y;
                            assert(j / 8 == page as int);
                            assert(j % 8 == py - y - 8 * page);
                        }
                    }
                }
                x_pos += 1;
            }
            page += 1;
        }
    }

    /// Lights the pixels of the line from `(x0, y0)` to `(x1, y1)` that lie
    /// on the panel, walking from one end to the other with Bresenham's
    /// error term.
    pub fn draw_line(&mut self, x0: usize, y0: usize, x1: usize, y1: usize)
        requires
            dist((x0 as isize) as int, (x1 as isize) as int) <= isize::MAX / 3,
            dist((y0 as isize) as int, (y1 as isize) as int) <= isize::MAX / 3,
        ensures
            final(self)@.len() == 1024,
            forall|px: int, py: int|
                on_screen(px, py) ==> pixel(final(self)@, px, py) == (pixel(old(self)@, px, py)
                    || line_points(
                    (x0 as isize) as int,
                    (y0 as isize) as int,
                    (x1 as isize) as int,
                    (y1 as isize) as int,
                ).contains((px, py))),
    {
        let sx0 = x0 as isize;
        let sy0 = y0 as isize;
        let ghost line = line_points(sx0 as int, sy0 as int, (x1 as isize) as int, (y1 as isize) as int);
        let mut x = sx0;
        let mut y = sy0;
        let x1 = x1 as isize;
        let y1 = y1 as isize;

        let dx = if x1 >= x {
            x1 - x
        } else {
            x - x1
        };
        let sx: isize = if x < x1 {
            1
        } else {
            -1
        };

        let dy = if y1 >= y {
            y - y1
        } else {
            y1 - y
        };
        let sy: isize = if y < y1 {
            1
        } else {
            -1
        };

        let mut err = dx + dy;
        let ghost mut drawn: Seq<(int, int)> = Seq::empty();
        let ghost lo_x = if sx0 <= x1 { sx0 as int } else { x1 as int };
        let ghost hi_x = if sx0 <= x1 { x1 as int } else { sx0 as int };
        let ghost lo_y = if sy0 <= y1 { sy0 as int } else { y1 as int };
        let ghost hi_y = if sy0 <= y1 { y1 as int } else { sy0 as int };

        loop
            invariant_except_break
                line == drawn + walk(x as int, y as int, x1 as int, y1 as int, dx as int, dy as int, err as int),
            invariant
                line == line_points(sx0 as int, sy0 as int, x1 as int, y1 as int),
                dx == dist(sx0 as int, x1 as int),
                dy == -dist(sy0 as int, y1 as int),
                lo_x <= x <= hi_x,
                lo_y <= y <= hi_y,
                lo_x == (if sx0 <= x1 { sx0 as int } else { x1 as int }),
                hi_x == (if sx0 <= x1 { x1 as int } else { sx0 as int }),
                lo_y == (if sy0 <= y1 { sy0 as int } else { y1 as int }),
                hi_y == (if sy0 <= y1 { y1 as int } else { sy0 as int }),
                isize::MIN <= lo_x,
                isize::MIN <= lo_y,
                hi_x <= isize::MAX,
                hi_y <= isize::MAX,
                dx <= isize::MAX / 3,
                -dy <= isize::MAX / 3,
                x != x1 ==> sx == step_toward(x as int, x1 as int),
                y != y1 ==> sy == step_toward(y as int, y1 as int),
                3 * dy <= 2 * err <= 3 * dx,
                forall|px: int, py: int|
                    on_screen(px, py) ==> pixel(self@, px, py) == (pixel(old(self)@, px, py)
                        || drawn.contains((px, py))),
            ensures
                forall|px: int, py: int|
                    on_screen(px, py) ==> pixel(self@, px, py) == (pixel(old(self)@, px, py)
                        || line.contains((px, py))),
            decreases dist(x as int, x1 as int) + dist(y as int, y1 as int),
        {
            let ghost rest = walk(x as int, y as int, x1 as int, y1 as int, dx as int, dy as int, err as int);
            let ghost prev = drawn;
            let ghost ox = x as int;
            let ghost oy = y as int;
            self.draw_pixel(x as usize, y as usize, 1);
            proof {
                lemma_cast_to_usize(x);
                lemma_cast_to_usize(y);
                drawn = drawn.push((x as int, y as int));
                assert forall|px: int, py: int| on_screen(px, py) implies pixel(self@, px, py) == (
                pixel(old(self)@, px, py) || drawn.contains((px, py))) by {
                    if prev.contains((px, py)) {
                        let k = choose|k: int| 0 <= k < prev.len() && prev[k] == (px, py);
                        assert(drawn[k] == (px, py));
                    }
                    if px == x && py == y {
                        assert(drawn[prev.len() as int] == (px, py));
                    }
                    if drawn.contains((px, py)) && !prev.contains((px, py)) {
                        let k = choose|k: int| 0 <= k < drawn.len() && drawn[k] == (px, py);
                        assert(k == prev.len());
                    }
                }
                assert(rest[0] == (x as int, y as int));
            }

            if x == x1 && y == y1 {
                proof {
                    assert(line =~= drawn);
                }
                break;
            }

            let e2 = 2 * err;
            if e2 >= dy {
                if x == x1 {
                    proof {
                        assert(line =~= drawn);
                    }
                    break;
                }
                err += dy;
                x += sx;
            }

            if e2 <= dx {
                if y == y1 {
                    proof {
                        assert(line =~= drawn);
                    }
                    break;
                }
                err += dx;
                y += sy;
            }
            proof {
                assert(rest == seq![(ox, oy)] + walk(
                    x as int,
                    y as int,
                    x1 as int,
                    y1 as int,
                    dx as int,
                    dy as int,
                    err as int,
                ));
                assert(line =~= drawn + walk(x as int, y as int, x1 as int, y1 as int, dx as int, dy as int, err as int));
            }
        }
    }

    /// Draws the 8x8 glyph of `c` from `font` with its top-left corner at
    /// `(x, y)`, lighting the pixels of its set bits. Nothing is drawn for a
    /// character the font has no glyph for, nor when the cell does not fit
    /// on the panel.
    pub fn draw_char(&mut self, x: usize, y: usize, c: char, font: &[[u8; 8]])
        requires
            0 <= glyph_index(c) < font@.len() ==> x + 8 <= usize::MAX && (x + 8 <= 128 ==> y + 8
                <= usize::MAX),
        ensures
            final(self)@.len() == 1024,
            forall|px: int, py: int|
                on_screen(px, py) ==> pixel(final(self)@, px, py) == (pixel(old(self)@, px, py)
                    || glyph_lights(font@, x as int, y as int, c, px, py)),
    {
        let font_index: usize = if '0' <= c && c <= '9' {
            (c as usize) - ('0' as usize)
        } else if 'a' <= c && c <= 'z' {
            (c as usize) - ('a' as usize) + 10
        } else if c == ',' {
            36
        } else if c == '.' {
            37
        } else if c == '!' {
            38
        } else if c == '?' {
            39
        } else {
            return;
        };
        assert(font_index as int == glyph_index(c));

        if font_index >= font.len() {
            return;
        }
        if x + 8 > SSD1315_WIDTH as usize || y + 8 > SSD1315_HEIGHT as usize {
            return;
        }
        let char_bitmap = font[font_index];
        let ghost start = self@;

        let mut row: usize = 0;
        while row < 8
            invariant
                0 <= row <= 8,
                x + 8 <= 128,
                y + 8 <= 64,
                char_bitmap == font@[glyph_index(c)],
                glyph_drawn(font@, x as int, y as int, c),
                start == old(self)@,
                forall|px: int, py: int|
                    on_screen(px, py) ==> pixel(self@, px, py) == (pixel(start, px, py) || (
                    glyph_lights(font@, x as int, y as int, c, px, py) && py < y + row)),
            decreases 8 - row,
        {
            let row_data = char_bitmap[row];
            let mut col: usize = 0;
            while col < 8
                invariant
                    0 <= row < 8,
                    0 <= col <= 8,
                    x + 8 <= 128,
                    y + 8 <= 64,
                    row_data == font@[glyph_index(c)][row as int],
                    char_bitmap == font@[glyph_index(c)],
                    glyph_drawn(font@, x as int, y as int, c),
                    forall|px: int, py: int|
                        on_screen(px, py) ==> pixel(self@, px, py) == (pixel(start, px, py) || (
                        glyph_lights(font@, x as int, y as int, c, px, py) && (py < y + row || (py
                            == y + row && px < x + col)))),
                decreases 8 - col,
            {
                let pixel_bit = (row_data >> ((7 - col) as u8)) & 0x01;
                proof {
                    lemma_bit_is_01(row_data, (7 - col) as u8);
                    assert(bit(row_data, 7 - col as int) == (pixel_bit > 0));
                }
                if pixel_bit > 0 {
                    self.draw_pixel(x + col, y + row, 1);
                }
                proof {
                    assert forall|px: int, py: int| on_screen(px, py) implies pixel(self@, px, py) == (
                    pixel(start, px, py) || (glyph_lights(font@, x as int, y as int, c, px, py) && (
                    py < y + row || (py == y + row && px < x + col + 1)))) by {
                        if px == x + col && py == y + row {
                            assert(py - y == row as int);
                            assert(7 - (px - x) == 7 - col as int);
                        }
                    }
                }
                col += 1;
            }
            row += 1;
        }
    }

    /// Draws `text` with glyphs from `font` in character cells of 8x8 pixels,
    /// starting at cell column `x` and cell row `y` (see `text_cells` for the
    /// layout: newlines, wrapping at the right edge, and the end at the
    /// bottom edge).
    pub fn draw_text(&mut self, x: usize, y: usize, text: &str, font: &[[u8; 8]])
        requires
            y + text@.len() <= usize::MAX,
            visible_count(text@) >= 1 ==> (x + 1) * 8 <= usize::MAX && (y + text@.len() + 1) * 8
                <= usize::MAX,
            visible_count(text@) >= 2 ==> (x + 2) * 8 <= usize::MAX,
        ensures
            final(self)@.len() == 1024,
            text_drawn(old(self)@, final(self)@, font@, x as int, y as int, text@),
    {
        let chars = chars_of(text);
        let ghost cells = text_cells(x as int, x as int, y as int, text@);
        let ghost mut done: Seq<(int, int, char)> = Seq::empty();
        let mut current_x = x;
        let mut current_y = y;
        let mut i: usize = 0;
        assert(chars@.skip(0) =~= chars@);
        while i < chars.len()
            invariant_except_break
                cells == done + text_cells(x as int, current_x as int, current_y as int, chars@.skip(i as int)),
                current_x <= 16 || current_x == x || (current_x == x + 1 && visible_count(
                    chars@.take(i as int),
                ) >= 1),
                current_y <= y + i,
            invariant
                chars@ == text@,
                cells == text_cells(x as int, x as int, y as int, text@),
                0 <= i <= chars@.len(),
                y + text@.len() <= usize::MAX,
                visible_count(text@) >= 1 ==> (x + 1) * 8 <= usize::MAX && (y + text@.len() + 1)
                    * 8 <= usize::MAX,
                visible_count(text@) >= 2 ==> (x + 2) * 8 <= usize::MAX,
                forall|px: int, py: int|
                    on_screen(px, py) ==> pixel(self@, px, py) == (pixel(old(self)@, px, py)
                        || cells_light(font@, done, px, py)),
            ensures
                forall|px: int, py: int|
                    on_screen(px, py) ==> pixel(self@, px, py) == (pixel(old(self)@, px, py)
                        || cells_light(font@, cells, px, py)),
            decreases chars@.len() - i,
        {
            let c = chars[i];
            let ghost rest = chars@.skip(i as int);
            proof {
                assert(rest[0] == c);
                assert(rest.drop_first() =~= chars@.skip(i + 1));
                lemma_visible_prefix(chars@, i as int);
            }
            if c == '\n' {
                current_x = x;
                current_y += 1;
                i += 1;
                continue;
            }
            if (current_x + 1) * 8 > SSD1315_WIDTH as usize {
                current_x = x;
                current_y += 1;
            }
            if (current_y + 1) * 8 > SSD1315_HEIGHT as usize {
                proof {
                    assert(cells =~= done);
                }
                break;
            }
            let ghost cell = ((current_x * 8) as int, (current_y * 8) as int, c);
            self.draw_char(current_x * 8, current_y * 8, c, font);
            proof {
                let prev = done;
                done = done.push(cell);
                assert forall|px: int, py: int| on_screen(px, py) implies pixel(self@, px, py) == (
                pixel(old(self)@, px, py) || cells_light(font@, done, px, py)) by {
                    if cells_light(font@, prev, px, py) {
                        let k = choose|k: int| 0 <= k < prev.len() && #[trigger] glyph_lights(font@, prev[k].0, prev[k].1, prev[k].2, px, py);
                        assert(done[k] == prev[k]);
                    }
                    if glyph_lights(font@, cell.0, cell.1, cell.2, px, py) {
                        assert(done[prev.len() as int] == cell);
                    }
                    if cells_light(font@, done, px, py) {
                        let k = choose|k: int| 0 <= k < done.len() && #[trigger] glyph_lights(font@, done[k].0, done[k].1, done[k].2, px, py);
                        if k < prev.len() {
                            assert(prev[k] == done[k]);
                        }
                    }
                }
                assert(cells =~= done + text_cells(x as int, current_x + 1, current_y as int, chars@.skip(i + 1)));
            }
            current_x += 1;
            i += 1;
        }
    }
}

/// A negative `isize` cast to `usize` lies beyond the panel; a nonnegative
/// one keeps its value.
proof fn lemma_cast_to_usize(v: isize)
    ensures
        v < 0 ==> (v as usize) as int >= 128,
        v >= 0 ==> (v as usize) as int == v as int,
{
    if v < 0 {
        lemma_negative_cast(v);
    }
}

proof fn lemma_negative_cast(v: isize)
    by (bit_vector)
    requires
        v < 0,
    ensures
        (v as usize) >= 128usize,
{
}

/// A page of the image lies inside the bitmap.
proof fn lemma_page_in_bitmap(page: int, pages: int, w: int)
    by (nonlinear_arith)
    requires
        0 <= page < pages,
        0 <= w,
    ensures
        (page + 1) * w <= w * pages,
        page * w + w == (page + 1) * w,
{
}

} // verus!
