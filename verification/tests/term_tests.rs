use daisogen::term::{
    cursor_end_value, cursor_start_value, mov, Color, ColorCode, ScreenChar, TextWriter, Writer,
};

fn ch(c: u8, color: u8) -> ScreenChar {
    ScreenChar { ascii: c, color: ColorCode(color) }
}

#[test]
fn test_color_codes() {
    assert_eq!(ColorCode::new(Color::LightGray, Color::Black).0, 7);
    assert_eq!(ColorCode::new(Color::Red, Color::Blue).0, 0x14);
    assert_eq!(ColorCode::new(Color::White, Color::White).0, 0xFF);
    assert_eq!(Color::Yellow.code(), 14);
}

#[test]
fn test_new_writer_is_blank() {
    let w = TextWriter::new();
    assert_eq!(w.cursor(), (0, 0));
    assert_eq!(w.cell(0, 0), ch(b' ', 7));
    assert_eq!(w.cell(24, 79), ch(b' ', 7));
}

#[test]
fn test_write_string_and_newline() {
    let mut w = TextWriter::new();
    w.write_string("Hi\nA");
    assert_eq!(w.cell(0, 0), ch(b'H', 7));
    assert_eq!(w.cell(0, 1), ch(b'i', 7));
    assert_eq!(w.cell(1, 0), ch(b'A', 7));
    assert_eq!(w.cursor(), (1, 1));
}

#[test]
fn test_long_line_wraps() {
    let mut w = TextWriter::new();
    for _ in 0..80 {
        w.write_byte(b'x');
    }
    assert_eq!(w.cursor(), (0, 80));
    w.write_byte(b'y');
    assert_eq!(w.cell(0, 79), ch(b'x', 7));
    assert_eq!(w.cell(1, 0), ch(b'y', 7));
    assert_eq!(w.cursor(), (1, 1));
}

#[test]
fn test_scroll_at_bottom() {
    let mut w = TextWriter::new();
    w.write_byte(b'T');
    for _ in 0..24 {
        w.line_break();
    }
    w.write_byte(b'X');
    assert_eq!(w.cursor(), (24, 1));
    w.line_break();
    assert_eq!(w.cursor(), (24, 0));
    assert_eq!(w.cell(23, 0), ch(b'X', 7));
    assert_eq!(w.cell(24, 0), ch(b' ', 7));
    // The first row scrolled away.
    assert_eq!(w.cell(0, 0), ch(b' ', 7));
}

#[test]
fn test_set_color_clear_row_and_clear() {
    let mut w = TextWriter::new();
    w.set_color(Color::Red, Color::Blue);
    w.write_string("Q\nR");
    assert_eq!(w.cell(0, 0), ch(b'Q', 0x14));
    w.clear_row(0);
    assert_eq!(w.cell(0, 0), ch(b' ', 0x14));
    assert_eq!(w.cell(1, 0), ch(b'R', 0x14));
    w.clear();
    assert_eq!(w.cursor(), (0, 0));
    assert_eq!(w.cell(1, 0), ch(b' ', 0x14));
}

#[test]
fn test_explicit_scroll() {
    let mut w = TextWriter::new();
    w.write_string("a\nb");
    w.scroll();
    assert_eq!(w.cell(0, 0), ch(b'b', 7));
    assert_eq!(w.cursor(), (0, 0));
}

#[test]
fn test_cursor_ports() {
    assert_eq!(mov(5, 2), vec![(0x3D4, 0x0F), (0x3D5, 0xA5), (0x3D4, 0x0E), (0x3D5, 0)]);
    assert_eq!(mov(79, 24), vec![(0x3D4, 0x0F), (0x3D5, 0xCF), (0x3D4, 0x0E), (0x3D5, 0x07)]);
    assert_eq!(cursor_start_value(0xFF), 0xC0);
    assert_eq!(cursor_end_value(0xFF), 0xEF);
    assert_eq!(cursor_end_value(0x00), 0x0F);
}
