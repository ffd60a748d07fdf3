use cheesecake_kernel::kernel::Kernel;
use cheesecake_kernel::cpu::{CpuInfo, CpuidResult};
use cheesecake_kernel::vga::{
    clear, print, print_char, print_err, print_info, print_ok, set_color, Color, FrameBufferInfo,
    PixelFormat, Writer,
};
use noto_sans_mono_bitmap::{get_raster, FontWeight, RasterHeight};

const W: usize = 20;
const H: usize = 48;

fn info(format: PixelFormat, bpp: usize) -> FrameBufferInfo {
    FrameBufferInfo { byte_len: W * H * bpp, width: W, height: H, pixel_format: format, bytes_per_pixel: bpp, stride: W }
}

fn writer() -> Writer {
    Writer::new(vec![0xAA; W * H * 4], info(PixelFormat::Rgb, 4))
}

fn pixel(w: &Writer, px: usize, py: usize) -> (u8, u8, u8) {
    let off = (py * W + px) * 4;
    let f = w.frame();
    (f[off], f[off + 1], f[off + 2])
}

fn blend(f: u8, b: u8, a: u8) -> u8 {
    ((f as u16 * a as u16 + b as u16 * (255 - a as u16)) / 255) as u8
}

fn raster(c: char) -> Vec<Vec<u8>> {
    get_raster(c, FontWeight::Regular, RasterHeight::Size16)
        .unwrap()
        .raster()
        .iter()
        .map(|r| r.to_vec())
        .collect()
}

#[test]
fn color_palette() {
    assert_eq!(Color::Black.rgb(), (0, 0, 0));
    assert_eq!(Color::Brown.rgb(), (170, 85, 0));
    assert_eq!(Color::LightBlue.rgb(), (85, 85, 255));
    assert_eq!(Color::Yellow.rgb(), (255, 255, 85));
    assert_eq!(Color::White.rgb(), (255, 255, 255));
    assert_eq!(Color::LightGreen.index(), 10);
    assert_eq!(Color::White.index(), 15);
}

#[test]
fn new_writer_clears_visible_pixels() {
    let w = writer();
    assert_eq!(w.position(), (0, 0));
    assert_eq!(w.colors(), (Color::LightGreen, Color::Black));
    for py in 0..H {
        for px in 0..W {
            assert_eq!(pixel(&w, px, py), (0, 0, 0));
            // the fourth byte of each pixel is left alone
            assert_eq!(w.frame()[(py * W + px) * 4 + 3], 0xAA);
        }
    }
}

#[test]
fn write_char_blends_glyph() {
    let mut w = writer();
    w.write_char('A');
    let g = raster('A');
    assert_eq!(g.len(), 16);
    for (r, row) in g.iter().enumerate() {
        assert_eq!(row.len(), 7);
        for (c, &a) in row.iter().enumerate() {
            assert_eq!(pixel(&w, c, r), (blend(85, 0, a), blend(255, 0, a), blend(85, 0, a)));
        }
    }
    assert_eq!(w.position(), (7, 0));
}

#[test]
fn missing_glyph_draws_question_mark() {
    let mut a = writer();
    let mut b = writer();
    a.write_char('\u{4e2d}');
    b.write_char('?');
    assert_eq!(a.frame(), b.frame());
}

#[test]
fn pen_wraps_at_right_edge() {
    let mut w = writer();
    w.write_str("ab");
    assert_eq!(w.position(), (14, 0));
    w.write_char('c'); // 14 + 7 > 20: next row
    assert_eq!(w.position(), (7, 16));
    w.write_char('\r');
    assert_eq!(w.position(), (0, 16));
    w.write_byte(b'\n');
    assert_eq!(w.position(), (0, 32));
}

#[test]
fn newline_scrolls_at_bottom() {
    let mut w = writer();
    w.write_char('x');
    let top = raster('x');
    w.write_str("\n\n");
    assert_eq!(w.position(), (0, 32));
    w.write_char('\n'); // would start at 48: scroll up one row
    assert_eq!(w.position(), (0, 32));
    // The 'x' moved up out of the first text row; the bottom row is blank.
    for py in 0..16 {
        for px in 0..W {
            assert_eq!(pixel(&w, px, py), (0, 0, 0));
        }
    }
    w.write_char('y');
    w.write_str("\n\n\n");
    let _ = top;
    for px in 0..W {
        assert_eq!(pixel(&w, px, 47), (0, 0, 0));
    }
}

#[test]
fn scroll_moves_rows_up() {
    let mut w = writer();
    w.write_str("\n");
    w.write_char('M'); // drawn in text row 1 (y = 16)
    let before: Vec<(u8, u8, u8)> = (0..16).flat_map(|r| (0..7).map(move |c| (c, r + 16))).map(|(c, r)| pixel(&w, c, r)).collect();
    w.write_str("\n\n"); // second newline scrolls
    let after: Vec<(u8, u8, u8)> = (0..16).flat_map(|r| (0..7).map(move |c| (c, r))).map(|(c, r)| pixel(&w, c, r)).collect();
    assert_eq!(before, after);
}

#[test]
fn clear_resets_pen_and_pixels() {
    let mut w = writer();
    w.write_str("hello");
    set_color(&mut w, Color::White, Color::Blue);
    clear(&mut w);
    assert_eq!(w.position(), (0, 0));
    for py in 0..H {
        for px in 0..W {
            assert_eq!(pixel(&w, px, py), (0, 0, 170));
        }
    }
}

#[test]
fn bgr_and_gray_formats() {
    let mut w = Writer::new(vec![0; W * H * 4], info(PixelFormat::Bgr, 4));
    set_color(&mut w, Color::White, Color::Brown);
    clear(&mut w);
    assert_eq!(pixel(&w, 3, 3), (0, 85, 170));
    let mut g = Writer::new(vec![9; W * H], info(PixelFormat::U8, 1));
    set_color(&mut g, Color::White, Color::Brown);
    clear(&mut g);
    assert_eq!(g.frame()[5], (170 + 85) / 3);
}

#[test]
fn print_functions_write_text() {
    let mut a = writer();
    let mut b = writer();
    print(&mut a, "hi");
    b.write_char('h');
    b.write_char('i');
    assert_eq!(a.frame(), b.frame());
    print_char(&mut a, '!');
    b.write_str("!");
    assert_eq!(a.frame(), b.frame());
    assert_eq!(a.position(), b.position());
}

#[test]
fn status_lines_restore_color() {
    let mut w = writer();
    set_color(&mut w, Color::Yellow, Color::Black);
    print_ok(&mut w, "up");
    assert_eq!(w.colors(), (Color::Yellow, Color::Black));
    print_err(&mut w, "bad");
    print_info(&mut w, "note");
    assert_eq!(w.colors(), (Color::Yellow, Color::Black));
    // the tag is drawn in the tag color, the message in the saved one
    let wide = FrameBufferInfo { byte_len: 200 * 64 * 3, width: 200, height: 64, pixel_format: PixelFormat::Rgb, bytes_per_pixel: 3, stride: 200 };
    let mut expected = Writer::new(vec![0; 200 * 64 * 3], wide);
    set_color(&mut expected, Color::LightGreen, Color::Black);
    expected.write_str("[ OK ] ");
    set_color(&mut expected, Color::Yellow, Color::Black);
    expected.write_str("m\n");
    let mut got = Writer::new(vec![0; 200 * 64 * 3], wide);
    set_color(&mut got, Color::Yellow, Color::Black);
    print_ok(&mut got, "m");
    assert_eq!(got.frame(), expected.frame());
    assert_eq!(got.position(), (0, 16));
}

#[test]
fn banner_is_written() {
    let mut w = Writer::new(vec![0; 400 * 200 * 4], FrameBufferInfo {
        byte_len: 400 * 200 * 4,
        width: 400,
        height: 200,
        pixel_format: PixelFormat::Rgb,
        bytes_per_pixel: 4,
        stride: 400,
    });
    let z = CpuidResult { eax: 0, ebx: 0, ecx: 0, edx: 0 };
    let k = Kernel { cpu: CpuInfo::from_cpuid(z, z, z, [z; 3], z), ram_mb: 0 };
    k.print_banner(&mut w);
    assert_eq!(w.position(), (0, 9 * 16));
}

#[test]
fn new_writer_on_short_buffer() {
    // Eight lines of four pixels, but bytes for only three and a half lines.
    let info = FrameBufferInfo { byte_len: 56, width: 4, height: 8, pixel_format: PixelFormat::Bgr, bytes_per_pixel: 4, stride: 4 };
    let mut w = Writer::new(vec![0xAA; 56], info);
    assert_eq!(w.position(), (0, 0));
    let f = w.frame();
    for px in 0..14 {
        assert_eq!(&f[px * 4..px * 4 + 4], &[0, 0, 0, 0xAA]);
    }
    w.set_color(Color::LightGreen, Color::Blue);
    w.clear();
    let f = w.frame();
    assert_eq!(f.len(), 56);
    for px in 0..14 {
        assert_eq!(&f[px * 4..px * 4 + 4], &[170, 0, 0, 0xAA]);
    }
}
