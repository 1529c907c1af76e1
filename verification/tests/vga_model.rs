//! Tests for the VGA writer model.

use kmem::vga::{print, Colour, ColourCode, Writer};

#[test]
fn colour_codes_pack_background_and_foreground() {
    let code = ColourCode::new(Colour::LightGreen, Colour::Black);
    assert_eq!(code.0, 10);
    let code = ColourCode::new(Colour::White, Colour::Blue);
    assert_eq!(code.0, 16 + 15);
}

#[test]
fn bytes_land_in_the_bottom_row() {
    let colour = ColourCode::new(Colour::LightGreen, Colour::Black);
    let mut writer = Writer::new(colour);
    writer.write_byte(b'A');
    writer.write_byte(b'B');
    assert_eq!(writer.position(), 2);
    assert_eq!(writer.cell_at(24, 0).character, b'A');
    assert_eq!(writer.cell_at(24, 1).character, b'B');
    assert_eq!(writer.cell_at(24, 0).colour_code, colour);
    assert_eq!(writer.cell_at(24, 2).character, b' ');
}

#[test]
fn newline_scrolls_the_screen() {
    let colour = ColourCode::new(Colour::Yellow, Colour::Black);
    let mut writer = Writer::new(colour);
    print(&mut writer, b"hi\n");
    assert_eq!(writer.position(), 0);
    assert_eq!(writer.cell_at(23, 0).character, b'h');
    assert_eq!(writer.cell_at(23, 1).character, b'i');
    assert_eq!(writer.cell_at(24, 0).character, b' ');
}

#[test]
fn a_full_row_wraps_to_a_new_line() {
    let colour = ColourCode::new(Colour::White, Colour::Black);
    let mut writer = Writer::new(colour);
    let mut line = [b'x'; 81];
    line[80] = b'y';
    print(&mut writer, &line);
    assert_eq!(writer.position(), 1);
    assert_eq!(writer.cell_at(24, 0).character, b'y');
    assert_eq!(writer.cell_at(23, 0).character, b'x');
    assert_eq!(writer.cell_at(23, 79).character, b'x');
}
