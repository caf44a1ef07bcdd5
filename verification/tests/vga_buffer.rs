use os::collections::double_array_map::DoubleArrayMap;
use os::vga_buffer::{
    blue_on_black, default_color_code, green_on_black, red_on_black, red_on_white,
    white_on_black, Color, ColorCode, ScreenChar, VgaBufferWriter, BUFFER_HEIGHT, BUFFER_WIDTH,
    UNKNOWN_GLYPH,
};

fn glyphs() -> DoubleArrayMap<4, u32, u8> {
    let mut glyphs = DoubleArrayMap::new();
    assert_eq!(glyphs.insert('é' as u32, 0x82), Ok(None));
    assert_eq!(glyphs.insert('ç' as u32, 0x87), Ok(None));
    glyphs
}

fn row_text(writer: &VgaBufferWriter, row: usize) -> String {
    let mut text = String::new();
    for col in 0..BUFFER_WIDTH {
        text.push(char::from(writer.cell(row, col).ascii_character));
    }
    text.trim_end().to_string()
}

#[test]
fn color_numbers() {
    assert_eq!(Color::Black.code(), 0);
    assert_eq!(Color::Blue.code(), 1);
    assert_eq!(Color::Green.code(), 2);
    assert_eq!(Color::Cyan.code(), 3);
    assert_eq!(Color::Red.code(), 4);
    assert_eq!(Color::Magenta.code(), 5);
    assert_eq!(Color::Brown.code(), 6);
    assert_eq!(Color::LightGray.code(), 7);
    assert_eq!(Color::DarkGray.code(), 8);
    assert_eq!(Color::LightBlue.code(), 9);
    assert_eq!(Color::LightGreen.code(), 10);
    assert_eq!(Color::LightCyan.code(), 11);
    assert_eq!(Color::LightRed.code(), 12);
    assert_eq!(Color::Pink.code(), 13);
    assert_eq!(Color::Yellow.code(), 14);
    assert_eq!(Color::White.code(), 15);
}

#[test]
fn color_code_packs_background_and_foreground() {
    assert_eq!(ColorCode::new(Color::White, Color::Black), ColorCode(0x0f));
    assert_eq!(ColorCode::new(Color::Black, Color::White), ColorCode(0xf0));
    assert_eq!(ColorCode::new(Color::Yellow, Color::Blue), ColorCode(0x1e));
    assert_eq!(ColorCode::new(Color::Pink, Color::LightGray), ColorCode(0x7d));
    assert_eq!(default_color_code(), ColorCode(0x0f));
    assert_eq!(white_on_black(), ColorCode(0x0f));
    assert_eq!(red_on_black(), ColorCode(0x04));
    assert_eq!(red_on_white(), ColorCode(0xf4));
    assert_eq!(green_on_black(), ColorCode(0x02));
    assert_eq!(blue_on_black(), ColorCode(0x01));
}

#[test]
fn a_new_screen_is_blank() {
    let writer = VgaBufferWriter::new();
    assert_eq!(writer.column(), 0);
    let blank = ScreenChar { ascii_character: b' ', color_code: ColorCode(0x0f) };
    for row in 0..BUFFER_HEIGHT {
        for col in 0..BUFFER_WIDTH {
            assert_eq!(writer.cell(row, col), blank);
        }
    }
}

#[test]
fn write_byte_fills_the_last_row() {
    let mut writer = VgaBufferWriter::new();
    writer.write_byte(b'H', red_on_black());
    writer.write_byte(b'i', green_on_black());
    assert_eq!(writer.column(), 2);
    assert_eq!(
        writer.cell(BUFFER_HEIGHT - 1, 0),
        ScreenChar { ascii_character: b'H', color_code: ColorCode(0x04) }
    );
    assert_eq!(
        writer.cell(BUFFER_HEIGHT - 1, 1),
        ScreenChar { ascii_character: b'i', color_code: ColorCode(0x02) }
    );
    assert_eq!(row_text(&writer, BUFFER_HEIGHT - 2), "");
}

#[test]
fn line_feed_moves_the_rows_up() {
    let mut writer = VgaBufferWriter::new();
    let glyphs = glyphs();
    writer.write_string_color("one\ntwo\nthree", default_color_code(), &glyphs);
    assert_eq!(row_text(&writer, BUFFER_HEIGHT - 3), "one");
    assert_eq!(row_text(&writer, BUFFER_HEIGHT - 2), "two");
    assert_eq!(row_text(&writer, BUFFER_HEIGHT - 1), "three");
    assert_eq!(writer.column(), 5);
    writer.write_byte(b'\n', default_color_code());
    assert_eq!(row_text(&writer, BUFFER_HEIGHT - 4), "one");
    assert_eq!(row_text(&writer, BUFFER_HEIGHT - 1), "");
    assert_eq!(writer.column(), 0);
}

#[test]
fn a_full_row_wraps() {
    let mut writer = VgaBufferWriter::new();
    for _ in 0..BUFFER_WIDTH {
        writer.write_byte(b'x', default_color_code());
    }
    assert_eq!(writer.column(), BUFFER_WIDTH);
    assert_eq!(row_text(&writer, BUFFER_HEIGHT - 1), "x".repeat(BUFFER_WIDTH));
    writer.write_byte(b'y', default_color_code());
    assert_eq!(writer.column(), 1);
    assert_eq!(row_text(&writer, BUFFER_HEIGHT - 2), "x".repeat(BUFFER_WIDTH));
    assert_eq!(row_text(&writer, BUFFER_HEIGHT - 1), "y");
}

#[test]
fn the_top_row_scrolls_away() {
    let mut writer = VgaBufferWriter::new();
    let glyphs = glyphs();
    for i in 0..30 {
        let line = format!("line {}\n", i);
        writer.write_string_color(&line, default_color_code(), &glyphs);
    }
    assert_eq!(row_text(&writer, 0), "line 6");
    assert_eq!(row_text(&writer, BUFFER_HEIGHT - 2), "line 29");
    assert_eq!(row_text(&writer, BUFFER_HEIGHT - 1), "");
}

#[test]
fn characters_without_a_glyph() {
    let mut writer = VgaBufferWriter::new();
    let glyphs = glyphs();
    writer.write_string_color("aéç→œŒz", blue_on_black(), &glyphs);
    let row = BUFFER_HEIGHT - 1;
    let bytes: Vec<u8> = (0..9).map(|col| writer.cell(row, col).ascii_character).collect();
    assert_eq!(bytes, vec![b'a', 0x82, 0x87, UNKNOWN_GLYPH, b'o', b'e', b'O', b'E', b'z']);
    assert_eq!(writer.column(), 9);
    for col in 0..9 {
        assert_eq!(writer.cell(row, col).color_code, ColorCode(0x01));
    }
}

#[test]
fn get_line_reads_the_last_row() {
    let mut writer = VgaBufferWriter::new();
    let glyphs = glyphs();
    let text = "above\nSome test string that fits on a single line.";
    writer.write_string_color(text, default_color_code(), &glyphs);
    let line = writer.get_line();
    assert_eq!(line.len(), BUFFER_WIDTH);
    assert_eq!(line.to_string().trim_end(), "Some test string that fits on a single line.");
}

#[test]
fn remove_last_blanks_the_last_cell_written() {
    let mut writer = VgaBufferWriter::new();
    writer.remove_last();
    assert_eq!(writer.column(), 0);
    writer.write_byte(b'a', red_on_white());
    writer.write_byte(b'b', red_on_white());
    writer.remove_last();
    assert_eq!(writer.column(), 1);
    assert_eq!(
        writer.cell(BUFFER_HEIGHT - 1, 1),
        ScreenChar { ascii_character: b' ', color_code: ColorCode(0x0f) }
    );
    assert_eq!(row_text(&writer, BUFFER_HEIGHT - 1), "a");
}
