use cheesecake_kernel::cpu::{CpuInfo, CpuidResult};
use cheesecake_kernel::kernel::Kernel;
use cheesecake_kernel::vga::Color;
use cheesecake_kernel::vga_text::{
    clear, cursor_shape, print, print_char, set_color, ColorCode, ScreenChar, Writer, VGA_HEIGHT, VGA_WIDTH,
};

fn blank_screen() -> Vec<ScreenChar> {
    vec![ScreenChar { ascii: b' ', color: ColorCode(0) }; VGA_WIDTH * VGA_HEIGHT]
}

fn row_text(w: &Writer, row: usize) -> Vec<u8> {
    w.cells()[row * VGA_WIDTH..(row + 1) * VGA_WIDTH].iter().map(|c| c.ascii).collect()
}

#[test]
fn color_code_packs_nibbles() {
    assert_eq!(ColorCode::new(Color::LightGreen, Color::Black), ColorCode(0x0A));
    assert_eq!(ColorCode::new(Color::White, Color::Blue), ColorCode(0x1F));
    assert_eq!(ColorCode::new(Color::Black, Color::White), ColorCode(0xF0));
}

#[test]
fn writes_bytes_at_cursor() {
    let mut w = Writer::new(blank_screen());
    assert_eq!(w.color(), ColorCode(0x0A));
    w.write_str("Hi");
    assert_eq!(w.cells()[0], ScreenChar { ascii: b'H', color: ColorCode(0x0A) });
    assert_eq!(w.cells()[1].ascii, b'i');
    assert_eq!(w.cursor_position(), 2);
    w.write_byte(b'\n');
    assert_eq!(w.cursor_position(), VGA_WIDTH);
}

#[test]
fn unprintable_bytes_show_as_block() {
    let mut w = Writer::new(blank_screen());
    w.write_str("a\tb");
    assert_eq!(&row_text(&w, 0)[..3], &[b'a', 0xfe, b'b']);
    w.write_char('é'); // two UTF-8 bytes
    assert_eq!(&row_text(&w, 0)[..5], &[b'a', 0xfe, b'b', 0xfe, 0xfe]);
    w.write_char('€'); // three
    w.write_char('😀'); // four
    assert_eq!(w.cursor_position(), 12);
    w.write_char('z');
    assert_eq!(row_text(&w, 0)[12], b'z');
}

#[test]
fn wraps_after_full_row() {
    let mut w = Writer::new(blank_screen());
    for _ in 0..VGA_WIDTH {
        w.write_byte(b'x');
    }
    assert_eq!(w.cursor_position(), VGA_WIDTH); // still on row 0, past the end
    w.write_byte(b'y');
    assert_eq!(row_text(&w, 1)[0], b'y');
    assert_eq!(w.cursor_position(), VGA_WIDTH + 1);
}

#[test]
fn scrolls_at_bottom() {
    let mut w = Writer::new(blank_screen());
    w.write_str("top\n");
    for _ in 0..(VGA_HEIGHT - 2) {
        w.write_str("\n");
    }
    w.write_str("last");
    assert_eq!(&row_text(&w, VGA_HEIGHT - 1)[..4], b"last");
    w.write_str("\n");
    // "top" scrolled off, "last" moved up, bottom row blank in the current color.
    assert_eq!(&row_text(&w, 0)[..3], b"   ");
    assert_eq!(&row_text(&w, VGA_HEIGHT - 2)[..4], b"last");
    assert!(w.cells()[(VGA_HEIGHT - 1) * VGA_WIDTH..].iter().all(|c| *c == ScreenChar { ascii: b' ', color: ColorCode(0x0A) }));
    assert_eq!(w.cursor_position(), (VGA_HEIGHT - 1) * VGA_WIDTH);
}

#[test]
fn clear_blanks_in_current_color() {
    let mut w = Writer::new(blank_screen());
    w.write_str("stuff\nmore");
    w.set_color(Color::Yellow, Color::Red);
    assert_eq!(w.color(), ColorCode(0x4E));
    w.clear();
    assert_eq!(w.cursor_position(), 0);
    assert!(w.cells().iter().all(|c| *c == ScreenChar { ascii: b' ', color: ColorCode(0x4E) }));
}

#[test]
fn cursor_registers_keep_high_bits() {
    assert_eq!(cursor_shape(0xFF, 0xFF), (0xC0, 0xEF));
    assert_eq!(cursor_shape(0x00, 0x00), (0x00, 0x0F));
}

#[test]
fn text_banner_is_written() {
    let mut w = Writer::new(blank_screen());
    let z = CpuidResult { eax: 0, ebx: 0, ecx: 0, edx: 0 };
    let k = Kernel { cpu: CpuInfo::from_cpuid(z, z, z, [z; 3], z), ram_mb: 0 };
    k.print_text_banner(&mut w);
    assert_eq!(&row_text(&w, 0)[..7], b" _____ ");
    assert_eq!(&row_text(&w, 5)[..6], b" \\____");
    assert_eq!(w.cursor_position(), 7 * VGA_WIDTH);
}

#[test]
fn print_functions_drive_the_text_console() {
    let mut w = Writer::new(blank_screen());
    print(&mut w, "ok");
    print_char(&mut w, '\u{e9}');
    assert_eq!(&row_text(&w, 0)[..4], &[b'o', b'k', 0xfe, 0xfe]);
    assert_eq!(w.cursor_position(), 4);
    set_color(&mut w, Color::White, Color::Blue);
    assert_eq!(w.color(), ColorCode(0x1F));
    print_char(&mut w, 'x');
    assert_eq!(w.cells()[4], ScreenChar { ascii: b'x', color: ColorCode(0x1F) });
    clear(&mut w);
    assert_eq!(w.cursor_position(), 0);
    assert!(w.cells().iter().all(|c| *c == ScreenChar { ascii: b' ', color: ColorCode(0x1F) }));
}
