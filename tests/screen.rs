use kernel_memory::vga_buffer::{Color, ColorCode, ScreenChar, Writer, BUFFER_HEIGHT, BUFFER_WIDTH};

fn row_text(w: &Writer, row: usize, len: usize) -> Vec<u8> {
    (0..len).map(|c| w.cell(row * BUFFER_WIDTH + c).ascii_ch).collect()
}

#[test]
fn println_output_lands_above_bottom_row() {
    let mut w = Writer::default();
    w.clear();
    let s = "Some test string that fits on a single line";
    w.write_string(s);
    w.write_string("\n");
    assert_eq!(row_text(&w, BUFFER_HEIGHT - 2, s.len()), s.as_bytes());
    assert_eq!(w.cell((BUFFER_HEIGHT - 1) * BUFFER_WIDTH).ascii_ch, b' ');
}

#[test]
fn print_wraps_long_line() {
    let mut w = Writer::default();
    w.clear();
    let s = "Some text that doesn't fit on a single line, it needs to actually wrap around to the next line";
    w.write_string(s);
    assert_eq!(row_text(&w, BUFFER_HEIGHT - 2, 80), &s.as_bytes()[..80]);
    assert_eq!(row_text(&w, BUFFER_HEIGHT - 1, s.len() - 80), &s.as_bytes()[80..]);
}

#[test]
fn println_overflow_scrolls_off_the_top() {
    let mut w = Writer::default();
    w.clear();
    let h = BUFFER_HEIGHT - 1;
    for i in 0..100 {
        if i >= h {
            let expect = format!("line {}", i - h);
            assert_eq!(row_text(&w, 0, expect.len()), expect.as_bytes());
        }
        w.write_string(&format!("line {}\n", i));
    }
    let last = format!("line {}", 100 - h);
    assert_eq!(row_text(&w, 0, last.len()), last.as_bytes());
}

#[test]
fn unprintable_bytes_show_as_block() {
    let mut w = Writer::default();
    w.write_string("a\u{e9}\tb");
    let expect: Vec<u8> = vec![b'a', 0xfe, 0xfe, 0xfe, b'b'];
    assert_eq!(row_text(&w, BUFFER_HEIGHT - 1, 5), expect);
}

#[test]
fn writer_colors_and_clear_keep_top_row() {
    let mut w = Writer::new(ColorCode::new(Color::White, Color::Blue));
    assert_eq!(w.cell(0), ScreenChar { ascii_ch: b' ', color: ColorCode(0x1f) });
    for _ in 0..BUFFER_HEIGHT {
        w.write_string("x\n");
    }
    assert_eq!(w.cell(0).ascii_ch, b'x');
    w.clear();
    assert_eq!(w.cell(0).ascii_ch, b'x');
    assert_eq!(w.cell(BUFFER_WIDTH).ascii_ch, b' ');
    let d = Writer::default();
    assert_eq!(d.cell(5).color, ColorCode(0x0e));
}

#[test]
fn write_byte_fills_row_then_wraps() {
    let mut w = Writer::default();
    for _ in 0..BUFFER_WIDTH {
        w.write_byte(b'z');
    }
    assert_eq!(w.cell(BUFFER_HEIGHT * BUFFER_WIDTH - 1).ascii_ch, b'z');
    w.write_byte(b'q');
    assert_eq!(w.cell((BUFFER_HEIGHT - 2) * BUFFER_WIDTH + 79).ascii_ch, b'z');
    assert_eq!(w.cell((BUFFER_HEIGHT - 1) * BUFFER_WIDTH).ascii_ch, b'q');
    w.new_line();
    assert_eq!(w.cell((BUFFER_HEIGHT - 2) * BUFFER_WIDTH).ascii_ch, b'q');
    w.clear_row(BUFFER_HEIGHT - 2);
    assert_eq!(w.cell((BUFFER_HEIGHT - 2) * BUFFER_WIDTH).ascii_ch, b' ');
}
