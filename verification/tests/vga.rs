use kernel_memory::vga_interface::{
    clear_screen, ColorCode, VGAChar, VGAColor, Writer, VGA_NUM_COLS, VGA_NUM_ROWS,
};

fn default_writer() -> Writer {
    Writer::new(ColorCode::new(VGAColor::Yellow, VGAColor::Black))
}

/// A colour code packs the background into the high four bits and the
/// foreground into the low four.
#[test]
fn color_code_packs() {
    let c = ColorCode::new(VGAColor::Yellow, VGAColor::Black);
    assert_eq!(c.0, 0x0E);
    let d = ColorCode::new(VGAColor::White, VGAColor::Blue);
    assert_eq!(d.0, 0x1F);
}

/// A character cell holds its character and formatting.
#[test]
fn vga_char_fields() {
    let c = VGAChar::new(b'A', ColorCode::new(VGAColor::Red, VGAColor::Black));
    assert_eq!(c.character, b'A');
    assert_eq!(c.color.0, 0x04);
}

/// Writing a byte stores it at the cursor and advances one column.
#[test]
fn write_byte_advances() {
    let mut w = default_writer();
    w.write_byte(b'h');
    w.write_byte(b'i');
    assert_eq!(w.row_position, 0);
    assert_eq!(w.col_position, 2);
    assert_eq!(w.buffer[0].character, b'h');
    assert_eq!(w.buffer[1].character, b'i');
}

/// A newline byte moves to the start of the next line.
#[test]
fn newline_moves_down() {
    let mut w = default_writer();
    w.write_byte(b'x');
    w.write_byte(0x0A);
    assert_eq!(w.row_position, 1);
    assert_eq!(w.col_position, 0);
    w.write_byte(b'y');
    assert_eq!(w.buffer[VGA_NUM_COLS].character, b'y');
}

/// Writing past the last column wraps to the next line.
#[test]
fn wraps_at_last_column() {
    let mut w = default_writer();
    for _ in 0..VGA_NUM_COLS {
        w.write_byte(b'-');
    }
    assert_eq!(w.row_position, 0);
    assert_eq!(w.col_position, VGA_NUM_COLS);
    w.write_byte(b'!');
    assert_eq!(w.row_position, 1);
    assert_eq!(w.col_position, 1);
    assert_eq!(w.buffer[VGA_NUM_COLS].character, b'!');
}

/// A newline on the last row scrolls everything up one line and blanks
/// the bottom.
#[test]
fn scrolls_on_last_row() {
    let mut w = default_writer();
    w.write_byte(b'a'); // row 0
    for _ in 0..(VGA_NUM_ROWS - 1) {
        w.write_byte(0x0A);
    }
    assert_eq!(w.row_position, VGA_NUM_ROWS - 1);
    w.write_byte(b'z');
    w.write_byte(0x0A); // scroll: 'a' falls off the top
    assert_eq!(w.row_position, VGA_NUM_ROWS - 1);
    assert_eq!(w.col_position, 0);
    // 'z' moved up one row
    assert_eq!(w.buffer[(VGA_NUM_ROWS - 2) * VGA_NUM_COLS].character, b'z');
    // the bottom row is blank
    assert_eq!(w.buffer[(VGA_NUM_ROWS - 1) * VGA_NUM_COLS].character, 0x20);
}

/// Clearing the screen blanks every cell and homes the cursor.
#[test]
fn clear_screen_blanks_all() {
    let mut w = default_writer();
    w.write_byte(b'q');
    w.write_byte(0x0A);
    w.write_byte(b'r');
    clear_screen(&mut w);
    assert_eq!(w.row_position, 0);
    assert_eq!(w.col_position, 0);
    for i in 0..(VGA_NUM_ROWS * VGA_NUM_COLS) {
        assert_eq!(w.buffer[i].character, 0x20);
    }
}
