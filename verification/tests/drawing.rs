use ssd1315::ssd1315::SSD1315;

fn bytes(d: &SSD1315) -> Vec<u8> {
    (0..1024).map(|i| d.byte(i)).collect()
}

fn lit(d: &SSD1315, x: usize, y: usize) -> bool {
    (d.byte(x + (y / 8) * 128) >> (y % 8)) & 1 == 1
}

fn lit_pixels(d: &SSD1315) -> Vec<(usize, usize)> {
    let mut v = Vec::new();
    for y in 0..64 {
        for x in 0..128 {
            if lit(d, x, y) {
                v.push((x, y));
            }
        }
    }
    v
}

/// A font whose glyph `i` has one lit pixel per row: row `r` lights column
/// `(i + r) % 8`.
fn test_font() -> Vec<[u8; 8]> {
    (0..40u32)
        .map(|i| {
            let mut g = [0u8; 8];
            for r in 0..8u32 {
                g[r as usize] = 0x80u8 >> ((i + r) % 8);
            }
            g
        })
        .collect()
}

#[test]
fn new_display_is_dark() {
    let d = SSD1315::new();
    assert!(bytes(&d).iter().all(|b| *b == 0));
}

#[test]
fn draw_pixel_sets_the_bit_of_its_row_in_its_page() {
    let mut d = SSD1315::new();
    d.draw_pixel(3, 10, 1);
    assert_eq!(d.byte(131), 0x04);
    assert_eq!(lit_pixels(&d), vec![(3, 10)]);
}

#[test]
fn draw_pixel_with_other_colors_darkens() {
    let mut d = SSD1315::new();
    d.draw_pixel(127, 63, 1);
    d.draw_pixel(126, 63, 1);
    assert_eq!(d.byte(1023), 0x80);
    d.draw_pixel(127, 63, 0);
    assert_eq!(d.byte(1023), 0x00);
    d.draw_pixel(126, 63, 2);
    assert_eq!(d.byte(1022), 0x00);
}

#[test]
fn draw_pixel_off_the_panel_is_ignored() {
    let mut d = SSD1315::new();
    d.draw_pixel(128, 0, 1);
    d.draw_pixel(0, 64, 1);
    d.draw_pixel(usize::MAX, usize::MAX, 1);
    assert!(lit_pixels(&d).is_empty());
}

#[test]
fn clear_darkens_everything() {
    let mut d = SSD1315::new();
    d.draw_line(0, 0, 127, 63);
    assert!(!lit_pixels(&d).is_empty());
    d.clear();
    assert!(bytes(&d).iter().all(|b| *b == 0));
}

#[test]
fn horizontal_line() {
    let mut d = SSD1315::new();
    d.draw_line(0, 0, 3, 0);
    assert_eq!(lit_pixels(&d), vec![(0, 0), (1, 0), (2, 0), (3, 0)]);
    assert_eq!(&bytes(&d)[0..5], &[1, 1, 1, 1, 0]);
}

#[test]
fn vertical_line_drawn_upward() {
    let mut d = SSD1315::new();
    d.draw_line(5, 9, 5, 6);
    assert_eq!(lit_pixels(&d), vec![(5, 6), (5, 7), (5, 8), (5, 9)]);
}

#[test]
fn diagonal_line() {
    let mut d = SSD1315::new();
    d.draw_line(0, 0, 7, 7);
    assert_eq!(d.byte(0), 0x01);
    assert_eq!(d.byte(7), 0x80);
    assert_eq!(lit_pixels(&d).len(), 8);
}

#[test]
fn shallow_line_joins_its_ends_with_one_pixel_per_column() {
    let mut d = SSD1315::new();
    d.draw_line(10, 2, 0, 5);
    let px = lit_pixels(&d);
    assert!(px.contains(&(10, 2)));
    assert!(px.contains(&(0, 5)));
    assert_eq!(px.len(), 11);
    for x in 0..=10 {
        assert_eq!(px.iter().filter(|p| p.0 == x).count(), 1);
    }
}

#[test]
fn single_point_line() {
    let mut d = SSD1315::new();
    d.draw_line(4, 4, 4, 4);
    assert_eq!(lit_pixels(&d), vec![(4, 4)]);
}

#[test]
fn line_leaving_the_panel_is_clipped() {
    let mut d = SSD1315::new();
    d.draw_line(120, 0, 140, 0);
    let px = lit_pixels(&d);
    assert_eq!(px.len(), 8);
    assert!(px.iter().all(|p| p.1 == 0 && p.0 >= 120));
}

#[test]
fn draw_char_lights_the_set_bits_of_its_glyph() {
    let font = test_font();
    let mut d = SSD1315::new();
    // '1' has index 1: row r lights column (1 + r) % 8.
    d.draw_char(8, 16, '1', &font);
    let px = lit_pixels(&d);
    let mut expected: Vec<(usize, usize)> = (0..8).map(|r| (8 + (1 + r) % 8, 16 + r)).collect();
    expected.sort_by_key(|p| (p.1, p.0));
    assert_eq!(px, expected);
}

#[test]
fn draw_char_letters_and_punctuation_indices() {
    let font = test_font();
    let mut d = SSD1315::new();
    // 'a' is glyph 10, '?' glyph 39: row 0 lights column 10 % 8 and 39 % 8.
    d.draw_char(0, 0, 'a', &font);
    d.draw_char(8, 0, '?', &font);
    assert!(lit(&d, 2, 0));
    assert!(lit(&d, 8 + 7, 0));
}

#[test]
fn draw_char_without_glyph_or_room_draws_nothing() {
    let font = test_font();
    let mut d = SSD1315::new();
    d.draw_char(0, 0, 'A', &font);
    d.draw_char(0, 0, ' ', &font);
    d.draw_char(121, 0, '0', &font);
    d.draw_char(0, 57, '0', &font);
    d.draw_char(0, 0, 'z', &font[..10]);
    assert!(lit_pixels(&d).is_empty());
    d.draw_char(120, 56, '0', &font);
    assert_eq!(lit_pixels(&d).len(), 8);
}

#[test]
fn draw_text_places_characters_in_cells() {
    let font = test_font();
    let mut d = SSD1315::new();
    d.draw_text(0, 0, "00", &font);
    // glyph 0, row 0 lights column 0 of each cell
    assert!(lit(&d, 0, 0));
    assert!(lit(&d, 8, 0));
    assert_eq!(lit_pixels(&d).len(), 16);
}

#[test]
fn draw_text_newline_returns_to_the_start_column() {
    let font = test_font();
    let mut d = SSD1315::new();
    d.draw_text(2, 1, "0\n0", &font);
    assert!(lit(&d, 16, 8));
    assert!(lit(&d, 16, 16));
    assert_eq!(lit_pixels(&d).len(), 16);
}

#[test]
fn draw_text_wraps_at_the_right_edge() {
    let font = test_font();
    let mut d = SSD1315::new();
    d.draw_text(15, 0, "00", &font);
    assert!(lit(&d, 120, 0));
    assert!(lit(&d, 120, 8));
    assert_eq!(lit_pixels(&d).len(), 16);
}

#[test]
fn draw_text_stops_at_the_bottom() {
    let font = test_font();
    let mut d = SSD1315::new();
    d.draw_text(0, 7, "0\n000", &font);
    assert_eq!(lit_pixels(&d).len(), 8);
    let mut e = SSD1315::new();
    e.draw_text(0, 8, "0", &font);
    assert!(lit_pixels(&e).is_empty());
}

#[test]
fn draw_text_skips_unknown_characters_but_moves_on() {
    let font = test_font();
    let mut d = SSD1315::new();
    d.draw_text(0, 0, "A0", &font);
    assert!(!lit(&d, 0, 0));
    assert!(lit(&d, 8, 0));
}

#[test]
fn bitmap_on_a_page_boundary_is_copied_byte_for_byte() {
    let mut d = SSD1315::new();
    d.draw_pixel(0, 0, 1);
    let bitmap = [0xAA, 0x55, 0x0F, 0xF0];
    d.draw_processed_bitmap(0, 8, &bitmap, 2, 16);
    assert_eq!(d.byte(0), 0x01);
    assert_eq!(d.byte(128), 0xAA);
    assert_eq!(d.byte(129), 0x55);
    assert_eq!(d.byte(256), 0x0F);
    assert_eq!(d.byte(257), 0xF0);
}

#[test]
fn bitmap_between_pages_is_split_over_two() {
    let mut d = SSD1315::new();
    d.draw_pixel(0, 0, 1);
    d.draw_pixel(0, 15, 1);
    d.draw_processed_bitmap(0, 3, &[0xFF], 1, 8);
    // rows 3..10 lit; row 0 and row 15 kept
    assert_eq!(d.byte(0), 0xF9);
    assert_eq!(d.byte(128), 0x87);
}

#[test]
fn bitmap_overwrites_dark_bits_too() {
    let mut d = SSD1315::new();
    d.draw_line(0, 0, 0, 15);
    d.draw_processed_bitmap(0, 4, &[0x00], 1, 8);
    assert_eq!(d.byte(0), 0x0F);
    assert_eq!(d.byte(128), 0xF0);
}

#[test]
fn bitmap_too_short_draws_nothing() {
    let mut d = SSD1315::new();
    d.draw_processed_bitmap(0, 0, &[0xFF, 0xFF, 0xFF], 2, 9);
    assert!(lit_pixels(&d).is_empty());
}

#[test]
fn bitmap_is_clipped_at_the_edges() {
    let mut d = SSD1315::new();
    d.draw_processed_bitmap(126, 60, &[0xFF, 0xFF, 0xFF, 0xFF], 4, 8);
    assert_eq!(lit_pixels(&d), vec![(126, 60), (127, 60), (126, 61), (127, 61), (126, 62), (127, 62), (126, 63), (127, 63)]);
}

#[test]
fn line_far_off_the_panel_draws_nothing() {
    let mut d = SSD1315::new();
    let far = (isize::MAX as usize) - 3;
    d.draw_line(far, far, far - 3, far);
    assert!(lit_pixels(&d).is_empty());
}

#[test]
fn draw_char_without_glyph_far_right_does_nothing() {
    let font = test_font();
    let mut d = SSD1315::new();
    d.draw_char(usize::MAX, usize::MAX, '#', &font);
    assert!(lit_pixels(&d).is_empty());
}

#[test]
fn line_from_a_wrapped_coordinate_enters_the_panel() {
    let mut d = SSD1315::new();
    // usize::MAX is -1 once taken as isize
    d.draw_line(usize::MAX, 0, 3, 0);
    assert_eq!(lit_pixels(&d), vec![(0, 0), (1, 0), (2, 0), (3, 0)]);
}

#[test]
fn newline_is_the_same_as_drawing_on_the_next_row() {
    let font = test_font();
    let mut whole = SSD1315::new();
    whole.draw_text(3, 2, "01\n2a", &font);
    let mut parts = SSD1315::new();
    parts.draw_text(3, 2, "01", &font);
    parts.draw_text(3, 3, "2a", &font);
    assert_eq!(bytes(&whole), bytes(&parts));
    assert!(!lit_pixels(&whole).is_empty());
}

#[test]
fn wrapping_is_the_same_as_drawing_on_the_next_row() {
    let font = test_font();
    let mut whole = SSD1315::new();
    whole.draw_text(13, 1, "012345", &font);
    let mut parts = SSD1315::new();
    parts.draw_text(13, 1, "012", &font);
    parts.draw_text(13, 2, "345", &font);
    assert_eq!(bytes(&whole), bytes(&parts));
}

#[test]
fn draw_text_at_far_cells_draws_nothing() {
    let font = test_font();
    let mut d = SSD1315::new();
    d.draw_text(usize::MAX, usize::MAX, "", &font);
    d.draw_text(usize::MAX / 8 - 1, 0, "0", &font);
    d.draw_text(3, usize::MAX - 2, "\n\n", &font);
    assert!(lit_pixels(&d).is_empty());
}
