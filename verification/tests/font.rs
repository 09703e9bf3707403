use ssd1315::font::{glyph_table, mirror_byte};
use ssd1315::ssd1315::SSD1315;

#[test]
fn mirror_byte_reverses_the_bits() {
    assert_eq!(mirror_byte(0x01), 0x80);
    assert_eq!(mirror_byte(0x80), 0x01);
    assert_eq!(mirror_byte(0x0F), 0xF0);
    assert_eq!(mirror_byte(0b1011_0010), 0b0100_1101);
    assert_eq!(mirror_byte(0xFF), 0xFF);
    assert_eq!(mirror_byte(0x00), 0x00);
}

#[test]
fn glyph_table_orders_and_mirrors_the_ascii_font() {
    let mut ascii = [[0u8; 8]; 128];
    for (code, g) in ascii.iter_mut().enumerate() {
        g[0] = code as u8;
        g[1] = 0x01;
    }
    let table = glyph_table(&ascii);
    assert_eq!(table.len(), 40);
    let chars = "0123456789abcdefghijklmnopqrstuvwxyz,.!?";
    for (i, c) in chars.chars().enumerate() {
        assert_eq!(table[i][0], (c as u8).reverse_bits());
        assert_eq!(table[i][1], 0x80);
        assert_eq!(table[i][2], 0);
    }
}

#[test]
fn glyph_from_the_table_draws_leftmost_pixel_from_the_low_bit() {
    let mut ascii = [[0u8; 8]; 128];
    ascii['a' as usize][0] = 0x01;
    let table = glyph_table(&ascii);
    let mut d = SSD1315::new();
    d.draw_char(0, 0, 'a', &table);
    assert_eq!(d.byte(0), 0x01);
    assert_eq!((1..1024).filter(|i| d.byte(*i) != 0).count(), 0);
}
