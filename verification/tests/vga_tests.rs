use kernel::vga::{
    clear_screen, print, ScreenWriter, VGAColor, VGAColorCode, VGAEntry, BUFFER_HEIGHT,
    BUFFER_WIDTH,
};

fn code() -> VGAColorCode {
    VGAColorCode::new(VGAColor::LightGreen, VGAColor::Black)
}

fn cell(writer: &ScreenWriter, row: usize, col: usize) -> VGAEntry {
    writer.buffer.chars[row][col]
}

#[test]
fn color_code_packs_nibbles() {
    assert_eq!(code().0, 10);
    assert_eq!(VGAColorCode::new(VGAColor::White, VGAColor::Blue).0, 16 + 15);
    assert_eq!(VGAColorCode::new(VGAColor::Black, VGAColor::Black).0, 0);
    assert_eq!(VGAColorCode::new(VGAColor::Yellow, VGAColor::Red).0, 4 * 16 + 14);
}

#[test]
fn new_writer_is_blank() {
    let w = ScreenWriter::new(code());
    assert_eq!(w.column_position, 0);
    for r in 0..BUFFER_HEIGHT {
        for c in 0..BUFFER_WIDTH {
            assert_eq!(cell(&w, r, c), VGAEntry { ascii_char: b' ', color_code: code() });
        }
    }
}

#[test]
fn putchar_writes_bottom_row() {
    let mut w = ScreenWriter::new(code());
    w.putchar(b'A');
    w.putchar(b'B');
    assert_eq!(w.column_position, 2);
    assert_eq!(cell(&w, BUFFER_HEIGHT - 1, 0).ascii_char, b'A');
    assert_eq!(cell(&w, BUFFER_HEIGHT - 1, 1).ascii_char, b'B');
}

#[test]
fn newline_scrolls_rows_up() {
    let mut w = ScreenWriter::new(code());
    w.putchar(b'A');
    w.putchar(b'\n');
    assert_eq!(w.column_position, 0);
    assert_eq!(cell(&w, BUFFER_HEIGHT - 2, 0).ascii_char, b'A');
    assert_eq!(cell(&w, BUFFER_HEIGHT - 1, 0).ascii_char, b' ');
}

#[test]
fn full_row_wraps_before_writing() {
    let mut w = ScreenWriter::new(code());
    for _ in 0..BUFFER_WIDTH {
        w.putchar(b'x');
    }
    assert_eq!(w.column_position, BUFFER_WIDTH);
    w.putchar(b'y');
    assert_eq!(w.column_position, 1);
    assert_eq!(cell(&w, BUFFER_HEIGHT - 2, BUFFER_WIDTH - 1).ascii_char, b'x');
    assert_eq!(cell(&w, BUFFER_HEIGHT - 1, 0).ascii_char, b'y');
}

#[test]
fn putstr_splits_lines() {
    let mut w = ScreenWriter::new(code());
    w.putstr("hi\nok");
    assert_eq!(w.column_position, 2);
    assert_eq!(cell(&w, BUFFER_HEIGHT - 2, 0).ascii_char, b'h');
    assert_eq!(cell(&w, BUFFER_HEIGHT - 2, 1).ascii_char, b'i');
    assert_eq!(cell(&w, BUFFER_HEIGHT - 1, 0).ascii_char, b'o');
    assert_eq!(cell(&w, BUFFER_HEIGHT - 1, 1).ascii_char, b'k');
}

#[test]
fn print_and_clear_screen() {
    let mut w = ScreenWriter::new(code());
    print(&mut w, "something");
    assert_eq!(cell(&w, BUFFER_HEIGHT - 1, 0).ascii_char, b's');
    clear_screen(&mut w);
    for r in 0..BUFFER_HEIGHT {
        for c in 0..BUFFER_WIDTH {
            assert_eq!(cell(&w, r, c).ascii_char, b' ');
        }
    }
}
