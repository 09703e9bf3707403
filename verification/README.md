# ssd1315

A driver for SSD1315 128x64 monochrome OLED panels on I2C, with its logic
verified by Verus.

- `src/` is the verified library:
  - `pixels`: the frame buffer's pixel model (8 pages of 128 column bytes,
    bit `k` of a byte is row `8 * page + k`), glyph and text layout specs.
  - `ssd1315`: the frame buffer and the drawing primitives (pixels,
    Bresenham lines, 8x8 glyphs, text, page-packed bitmaps).
  - `font`: the glyph table, built from an ASCII-indexed 8x8 font by
    reordering and mirroring its rows.
  - `line`: the points of a line and the proof that a line joins its ends.
  - `transfer`: the controller programs (init, reset, contrast, sleep, wake,
    display) and the machine that runs one, write by write, with a failed
    command write stopping it and failed data writes skipped.
  - `message`, `io_handler`: console commands and their parsing.
- `app/` is the program around it: the I2C bus (through `rppal`), the
  glyph table, the console loop and `main`.
- `tests/` exercise the library on concrete values.

The glyph table is handed to `draw_char` and `draw_text` by the caller; the
program builds it with `font::glyph_table` from the public-domain 8x8 font of
the `font8x8` crate.
