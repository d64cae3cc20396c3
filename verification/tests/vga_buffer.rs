use rust_os::vga_buffer::{
    Color, ColorCode, ScreenChar, Writer, BUFFER_HEIGHT, BUFFER_WIDTH, UNPRINTABLE,
};

fn writer() -> Writer {
    Writer::new(ColorCode::new(Color::LightGray, Color::Black))
}

fn row_text(writer: &Writer, row: usize) -> String {
    (0..BUFFER_WIDTH).map(|col| char::from(writer.read(row, col).ascii_character)).collect()
}

#[test]
fn screen_has_25_rows_of_80_cells() {
    assert_eq!((BUFFER_HEIGHT, BUFFER_WIDTH), (25, 80));
}

#[test]
fn a_new_writer_shows_a_blank_screen() {
    let writer = writer();
    assert_eq!(writer.column_position(), 0);
    for row in 0..BUFFER_HEIGHT {
        for col in 0..BUFFER_WIDTH {
            assert_eq!(
                writer.read(row, col),
                ScreenChar { ascii_character: b' ', color_code: ColorCode(0x07) }
            );
        }
    }
}

#[test]
fn a_byte_goes_to_the_last_row() {
    let mut writer = writer();
    writer.write_byte(b'H');
    writer.write_byte(b'i');
    assert_eq!(writer.column_position(), 2);
    assert_eq!(
        writer.read(BUFFER_HEIGHT - 1, 0),
        ScreenChar { ascii_character: b'H', color_code: ColorCode(0x07) }
    );
    assert_eq!(writer.read(BUFFER_HEIGHT - 1, 1).ascii_character, b'i');
    assert_eq!(writer.read(BUFFER_HEIGHT - 1, 2).ascii_character, b' ');
    assert_eq!(writer.read(BUFFER_HEIGHT - 2, 0).ascii_character, b' ');
}

#[test]
fn test_println_output() {
    let s = "Some test string that fits on a single line";
    let mut writer = writer();
    writer.write_string(s);
    writer.write_string("\n");
    for (i, c) in s.chars().enumerate() {
        let screen_char = writer.read(BUFFER_HEIGHT - 2, i);
        assert_eq!(char::from(screen_char.ascii_character), c);
    }
    assert_eq!(writer.column_position(), 0);
    assert_eq!(row_text(&writer, BUFFER_HEIGHT - 1), " ".repeat(BUFFER_WIDTH));
}

#[test]
fn test_printlns() {
    let mut writer = writer();
    for line in 0..200 {
        writer.write_string(&format!("[line {}]test_println output\n", line));
    }
    for back in 0..(BUFFER_HEIGHT - 1) {
        let expected = format!("[line {}]test_println output", 199 - back);
        let text = row_text(&writer, BUFFER_HEIGHT - 2 - back);
        assert_eq!(text.trim_end(), expected);
    }
}

#[test]
fn a_full_row_breaks_the_line_before_the_next_byte() {
    let mut writer = writer();
    writer.write_string(&"a".repeat(BUFFER_WIDTH));
    assert_eq!(writer.column_position(), BUFFER_WIDTH);
    assert_eq!(row_text(&writer, BUFFER_HEIGHT - 1), "a".repeat(BUFFER_WIDTH));
    writer.write_byte(b'b');
    assert_eq!(writer.column_position(), 1);
    assert_eq!(row_text(&writer, BUFFER_HEIGHT - 2), "a".repeat(BUFFER_WIDTH));
    assert_eq!(row_text(&writer, BUFFER_HEIGHT - 1).trim_end(), "b");
}

#[test]
fn a_newline_on_a_full_row_breaks_the_line_once() {
    let mut writer = writer();
    writer.write_string(&"a".repeat(BUFFER_WIDTH));
    writer.write_byte(b'\n');
    assert_eq!(writer.column_position(), 0);
    assert_eq!(row_text(&writer, BUFFER_HEIGHT - 2), "a".repeat(BUFFER_WIDTH));
    assert_eq!(row_text(&writer, BUFFER_HEIGHT - 3), " ".repeat(BUFFER_WIDTH));
}

#[test]
fn bytes_that_cannot_be_shown_are_replaced() {
    let mut writer = writer();
    writer.write_string("a\tb\u{7f}é~ ");
    let shown: Vec<u8> =
        (0..8).map(|col| writer.read(BUFFER_HEIGHT - 1, col).ascii_character).collect();
    assert_eq!(
        shown,
        vec![b'a', UNPRINTABLE, b'b', UNPRINTABLE, UNPRINTABLE, UNPRINTABLE, b'~', b' ']
    );
    assert_eq!(UNPRINTABLE, 0xfe);
}

#[test]
fn write_byte_does_not_replace() {
    let mut writer = writer();
    writer.write_byte(0x01);
    writer.write_byte(0xff);
    assert_eq!(writer.read(BUFFER_HEIGHT - 1, 0).ascii_character, 0x01);
    assert_eq!(writer.read(BUFFER_HEIGHT - 1, 1).ascii_character, 0xff);
}

#[test]
fn the_top_row_is_lost_when_the_screen_is_full() {
    let mut writer = writer();
    for line in 0..BUFFER_HEIGHT {
        writer.write_string(&format!("{}\n", line));
    }
    assert_eq!(row_text(&writer, 0).trim_end(), "1");
    assert_eq!(row_text(&writer, BUFFER_HEIGHT - 2).trim_end(), "24");
    assert_eq!(row_text(&writer, BUFFER_HEIGHT - 1), " ".repeat(BUFFER_WIDTH));
}

#[test]
fn cells_keep_the_colours_they_were_written_in() {
    let mut writer = Writer::new(ColorCode::new(Color::Yellow, Color::Blue));
    writer.write_string("x\ny");
    assert_eq!(
        writer.read(BUFFER_HEIGHT - 2, 0),
        ScreenChar { ascii_character: b'x', color_code: ColorCode(0x1e) }
    );
    assert_eq!(
        writer.read(BUFFER_HEIGHT - 1, 5),
        ScreenChar { ascii_character: b' ', color_code: ColorCode(0x1e) }
    );
}

#[test]
fn a_writer_takes_over_what_the_screen_shows() {
    let old = ColorCode::new(Color::White, Color::Red);
    let mut chars = [[ScreenChar { ascii_character: b'.', color_code: old }; BUFFER_WIDTH]; BUFFER_HEIGHT];
    chars[3][7] = ScreenChar { ascii_character: b'#', color_code: old };
    let mut writer = Writer::with_screen(ColorCode::new(Color::LightGray, Color::Black), chars);
    assert_eq!(writer.column_position(), 0);
    assert_eq!(writer.read(3, 7), ScreenChar { ascii_character: b'#', color_code: old });
    assert_eq!(writer.read(BUFFER_HEIGHT - 1, 0).ascii_character, b'.');
    writer.write_byte(b'a');
    assert_eq!(
        writer.read(BUFFER_HEIGHT - 1, 0),
        ScreenChar { ascii_character: b'a', color_code: ColorCode(0x07) }
    );
    assert_eq!(writer.read(BUFFER_HEIGHT - 1, 1), ScreenChar { ascii_character: b'.', color_code: old });
    assert_eq!(writer.read(3, 7).ascii_character, b'#');
    writer.write_byte(b'\n');
    assert_eq!(writer.read(2, 7).ascii_character, b'#');
    assert_eq!(writer.read(BUFFER_HEIGHT - 2, 0).ascii_character, b'a');
    assert_eq!(
        writer.read(BUFFER_HEIGHT - 1, 0),
        ScreenChar { ascii_character: b' ', color_code: ColorCode(0x07) }
    );
}
