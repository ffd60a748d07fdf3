//! The framebuffer console: text drawn with a bitmap font into a pixel
//! buffer, with a cursor that wraps at the right edge and scrolls at the
//! bottom.
use vstd::prelude::*;
use crate::font::{FONT_HEIGHT, FONT_WIDTH, font_glyph, glyph, raster_height, raster_width};

verus! {

/// The 16 colors of the classic VGA palette.
#[derive(Clone, Copy, PartialEq, Eq, Structural, Debug)]
pub enum Color {
    Black,
    Blue,
    Green,
    Cyan,
    Red,
    Magenta,
    Brown,
    LightGray,
    DarkGray,
    LightBlue,
    LightGreen,
    LightCyan,
    LightRed,
    Pink,
    Yellow,
    White,
}

/// The palette index of a color, 0 to 15.
pub open spec fn color_index(c: Color) -> u8 {
    match c {
        Color::Black => 0,
        Color::Blue => 1,
        Color::Green => 2,
        Color::Cyan => 3,
        Color::Red => 4,
        Color::Magenta => 5,
        Color::Brown => 6,
        Color::LightGray => 7,
        Color::DarkGray => 8,
        Color::LightBlue => 9,
        Color::LightGreen => 10,
        Color::LightCyan => 11,
        Color::LightRed => 12,
        Color::Pink => 13,
        Color::Yellow => 14,
        Color::White => 15,
    }
}

/// The RGB triple of a color in the classic CGA/VGA palette.
pub open spec fn color_rgb(c: Color) -> (u8, u8, u8) {
    match c {
        Color::Black => (0, 0, 0),
        Color::Blue => (0, 0, 170),
        Color::Green => (0, 170, 0),
        Color::Cyan => (0, 170, 170),
        Color::Red => (170, 0, 0),
        Color::Magenta => (170, 0, 170),
        Color::Brown => (170, 85, 0),
        Color::LightGray => (170, 170, 170),
        Color::DarkGray => (85, 85, 85),
        Color::LightBlue => (85, 85, 255),
        Color::LightGreen => (85, 255, 85),
        Color::LightCyan => (85, 255, 255),
        Color::LightRed => (255, 85, 85),
        Color::Pink => (255, 85, 255),
        Color::Yellow => (255, 255, 85),
        Color::White => (255, 255, 255),
    }
}

impl Color {
    /// The palette index of the color.
    pub fn index(self) -> (r: u8)
        ensures
            r == color_index(self),
            r < 16,
    {
        match self {
            Color::Black => 0,
            Color::Blue => 1,
            Color::Green => 2,
            Color::Cyan => 3,
            Color::Red => 4,
            Color::Magenta => 5,
            Color::Brown => 6,
            Color::LightGray => 7,
            Color::DarkGray => 8,
            Color::LightBlue => 9,
            Color::LightGreen => 10,
            Color::LightCyan => 11,
            Color::LightRed => 12,
            Color::Pink => 13,
            Color::Yellow => 14,
            Color::White => 15,
        }
    }

    /// The RGB triple for the classic CGA/VGA palette.
    pub fn rgb(self) -> (r: (u8, u8, u8))
        ensures
            r == color_rgb(self),
    {
        match self {
            Color::Black => (0, 0, 0),
            Color::Blue => (0, 0, 170),
            Color::Green => (0, 170, 0),
            Color::Cyan => (0, 170, 170),
            Color::Red => (170, 0, 0),
            Color::Magenta => (170, 0, 170),
            Color::Brown => (170, 85, 0),
            Color::LightGray => (170, 170, 170),
            Color::DarkGray => (85, 85, 85),
            Color::LightBlue => (85, 85, 255),
            Color::LightGreen => (85, 255, 85),
            Color::LightCyan => (85, 255, 255),
            Color::LightRed => (255, 85, 85),
            Color::Pink => (255, 85, 255),
            Color::Yellow => (255, 255, 85),
            Color::White => (255, 255, 255),
        }
    }
}

/// How the bytes of a pixel encode its color.
#[derive(Clone, Copy, PartialEq, Eq, Structural, Debug)]
pub enum PixelFormat {
    /// Red, green, blue bytes.
    Rgb,
    /// Blue, green, red bytes.
    Bgr,
    /// One gray byte.
    U8,
    /// Unknown layout; written as red, green, blue.
    Unknown { red_position: u8, green_position: u8, blue_position: u8 },
}

/// The geometry of a framebuffer.
#[derive(Clone, Copy, PartialEq, Eq, Structural, Debug)]
pub struct FrameBufferInfo {
    /// Total size in bytes.
    pub byte_len: usize,
    /// Visible width in pixels.
    pub width: usize,
    /// Visible height in pixels.
    pub height: usize,
    pub pixel_format: PixelFormat,
    pub bytes_per_pixel: usize,
    /// Pixels from the start of one line to the start of the next.
    pub stride: usize,
}

/// The bytes written for a pixel of the given color.
pub open spec fn pixel_bytes(f: PixelFormat, r: u8, g: u8, b: u8) -> Seq<u8> {
    match f {
        PixelFormat::Bgr => seq![b, g, r],
        PixelFormat::U8 => seq![((r + g + b) / 3) as u8],
        _ => seq![r, g, b],
    }
}

/// Number of bytes written per pixel in the given format.
pub open spec fn pixel_len(f: PixelFormat) -> int {
    match f {
        PixelFormat::U8 => 1,
        _ => 3,
    }
}

/// Byte offset of pixel `(px, py)`.
pub open spec fn pixel_offset(info: FrameBufferInfo, px: int, py: int) -> int {
    (py * info.stride + px) * info.bytes_per_pixel
}

/// `fb` with `bytes` written from `off` on.
pub open spec fn put_bytes(fb: Seq<u8>, off: int, bytes: Seq<u8>) -> Seq<u8> {
    Seq::new(fb.len(), |i: int| if off <= i < off + bytes.len() { bytes[i - off] } else { fb[i] })
}

/// `fb` with pixel `(px, py)` set to the color, unless the pixel's bytes
/// would run past the end of the buffer.
pub open spec fn put_pixel(fb: Seq<u8>, info: FrameBufferInfo, px: int, py: int, c: (u8, u8, u8)) -> Seq<u8> {
    let off = pixel_offset(info, px, py);
    if off + info.bytes_per_pixel > fb.len() {
        fb
    } else {
        put_bytes(fb, off, pixel_bytes(info.pixel_format, c.0, c.1, c.2))
    }
}

/// One channel blended from foreground to background: intensity 0 gives
/// the background, 255 the foreground.
pub open spec fn blend(f: u8, b: u8, a: u8) -> u8 {
    ((f * a + b * (255 - a)) / 255) as u8
}

/// Blending goes from the background at intensity 0 to the foreground at
/// intensity 255, and every blend lies between the two.
pub proof fn law_blend_between(f: u8, b: u8, a: u8)
    ensures
        blend(f, b, 0) == b,
        blend(f, b, 255) == f,
        f <= b ==> f <= blend(f, b, a) <= b,
        b <= f ==> b <= blend(f, b, a) <= f,
        f == b ==> blend(f, b, a) == f,
{
    let fi = f as int;
    let bi = b as int;
    let ai = a as int;
    assert((fi * 0 + bi * (255 - 0)) / 255 == bi) by (nonlinear_arith);
    assert((fi * 255 + bi * (255 - 255)) / 255 == fi) by (nonlinear_arith);
    let t = fi * ai + bi * (255 - ai);
    assert(fi <= bi ==> 255 * fi <= t <= 255 * bi) by (nonlinear_arith)
        requires
            0 <= ai <= 255,
            t == fi * ai + bi * (255 - ai),
    ;
    assert(bi <= fi ==> 255 * bi <= t <= 255 * fi) by (nonlinear_arith)
        requires
            0 <= ai <= 255,
            t == fi * ai + bi * (255 - ai),
    ;
    if fi <= bi {
        assert(fi <= t / 255 <= bi) by (nonlinear_arith)
            requires
                255 * fi <= t <= 255 * bi,
        ;
    }
    if bi <= fi {
        assert(bi <= t / 255 <= fi) by (nonlinear_arith)
            requires
                255 * bi <= t <= 255 * fi,
        ;
    }
}

/// The color of a glyph pixel of intensity `a`.
pub open spec fn blend_rgb(fg: (u8, u8, u8), bg: (u8, u8, u8), a: u8) -> (u8, u8, u8) {
    (blend(fg.0, bg.0, a), blend(fg.1, bg.1, a), blend(fg.2, bg.2, a))
}

/// `fb` after drawing the first `n` pixels of a glyph row at `(cx, py)`.
pub open spec fn paint_row(
    fb: Seq<u8>,
    info: FrameBufferInfo,
    row: Seq<u8>,
    cx: int,
    py: int,
    fg: (u8, u8, u8),
    bg: (u8, u8, u8),
    n: int,
) -> Seq<u8>
    decreases n,
{
    if n <= 0 {
        fb
    } else {
        put_pixel(paint_row(fb, info, row, cx, py, fg, bg, n - 1), info, cx + n - 1, py, blend_rgb(fg, bg, row[n - 1]))
    }
}

/// `fb` after drawing the first `m` rows of a glyph with its top left at
/// `(cx, cy)`.
pub open spec fn paint_glyph(
    fb: Seq<u8>,
    info: FrameBufferInfo,
    g: Seq<Seq<u8>>,
    cx: int,
    cy: int,
    fg: (u8, u8, u8),
    bg: (u8, u8, u8),
    m: int,
) -> Seq<u8>
    decreases m,
{
    if m <= 0 {
        fb
    } else {
        let prev = paint_glyph(fb, info, g, cx, cy, fg, bg, m - 1);
        paint_row(prev, info, g[m - 1], cx, cy + m - 1, fg, bg, g[m - 1].len() as int)
    }
}

/// `fb` after setting the first `n` pixels of line `py` from column `px0`
/// to one color.
pub open spec fn fill_line(fb: Seq<u8>, info: FrameBufferInfo, px0: int, py: int, c: (u8, u8, u8), n: int) -> Seq<u8>
    decreases n,
{
    if n <= 0 {
        fb
    } else {
        put_pixel(fill_line(fb, info, px0, py, c, n - 1), info, px0 + n - 1, py, c)
    }
}

/// `fb` after filling lines `py0 .. py0 + m` from column `px0`, `n` pixels
/// each, with one color.
pub open spec fn fill_rect(
    fb: Seq<u8>,
    info: FrameBufferInfo,
    px0: int,
    py0: int,
    c: (u8, u8, u8),
    n: int,
    m: int,
) -> Seq<u8>
    decreases m,
{
    if m <= 0 {
        fb
    } else {
        fill_line(fill_rect(fb, info, px0, py0, c, n, m - 1), info, px0, py0 + m - 1, c, n)
    }
}

/// The state of the framebuffer console: the pixel bytes, the geometry,
/// the pen position (pixel column, and top pixel line of the text row) and
/// the colors.
pub struct Screen {
    pub fb: Seq<u8>,
    pub info: FrameBufferInfo,
    pub x: int,
    pub y: int,
    pub fg: Color,
    pub bg: Color,
}

/// The geometry fits the machine: pixels of the format fit in
/// `bytes_per_pixel`, and pixel offsets on the visible lines, up to two
/// glyphs past the right edge, fit in a machine word.
pub open spec fn geometry_fits(info: FrameBufferInfo) -> bool {
    &&& info.bytes_per_pixel >= pixel_len(info.pixel_format)
    &&& (info.height * info.stride + info.width + 2 * FONT_WIDTH) * info.bytes_per_pixel <= usize::MAX
    &&& info.width + 2 * FONT_WIDTH <= usize::MAX
    &&& info.height + FONT_HEIGHT <= usize::MAX
}

/// The geometry fits the buffer and the machine (`geometry_fits`), one text
/// row fits on the screen, and every visible line fits in the buffer: what
/// writing text, which may scroll, needs.
pub open spec fn info_ok(info: FrameBufferInfo, fb_len: int) -> bool {
    &&& geometry_fits(info)
    &&& info.height >= FONT_HEIGHT
    &&& info.height * info.stride * info.bytes_per_pixel <= fb_len
}

/// The console is consistent: the geometry is sound, a text row fits below
/// the pen, and the pen is at most one glyph past the right edge.
pub open spec fn screen_ok(s: Screen) -> bool {
    &&& info_ok(s.info, s.fb.len() as int)
    &&& 0 <= s.y && s.y + FONT_HEIGHT <= s.info.height
    &&& 0 <= s.x <= s.info.width + FONT_WIDTH
}

/// `fb` with the background of the visible lines `py0 .. info.height`
/// filled, as `clear` and `scroll_up` do.
pub open spec fn fill_lines(fb: Seq<u8>, info: FrameBufferInfo, py0: int, c: (u8, u8, u8)) -> Seq<u8> {
    fill_rect(fb, info, 0, py0, c, info.width as int, info.height - py0)
}

/// The pixel lines moved up one text row: byte `i` takes the value of byte
/// `i + shift` for every `i` below `total - shift`.
pub open spec fn shift_up(fb: Seq<u8>, info: FrameBufferInfo) -> Seq<u8> {
    let row_bytes = info.stride * info.bytes_per_pixel;
    let shift = FONT_HEIGHT * row_bytes;
    let total = info.height * row_bytes;
    Seq::new(fb.len(), |i: int| if i < total - shift { fb[i + shift] } else { fb[i] })
}

/// The screen scrolled up one text row, the exposed bottom row cleared.
pub open spec fn scroll_spec(s: Screen) -> Screen {
    Screen {
        fb: fill_lines(shift_up(s.fb, s.info), s.info, s.info.height - FONT_HEIGHT, color_rgb(s.bg)),
        ..s
    }
}

/// The pen moved to the start of the next text row, scrolling when that row
/// would not fit.
pub open spec fn newline_spec(s: Screen) -> Screen {
    let t = Screen { x: 0, y: s.y + FONT_HEIGHT, ..s };
    if t.y + FONT_HEIGHT > s.info.height {
        Screen { y: s.info.height - FONT_HEIGHT, ..scroll_spec(t) }
    } else {
        t
    }
}

/// The glyph drawn for `c`: its own, or the one of `?` when the font lacks
/// it.
pub open spec fn drawn_glyph(c: char) -> Option<Seq<Seq<u8>>> {
    match font_glyph(c) {
        Some(g) => Some(g),
        None => font_glyph('?'),
    }
}

/// The screen with `c` drawn at the pen (the pen does not move).
pub open spec fn render_spec(s: Screen, c: char) -> Screen {
    let fg = color_rgb(s.fg);
    let bg = color_rgb(s.bg);
    match drawn_glyph(c) {
        Some(g) => Screen { fb: paint_glyph(s.fb, s.info, g, s.x, s.y, fg, bg, g.len() as int), ..s },
        None => Screen {
            fb: fill_rect(s.fb, s.info, s.x, s.y, bg, FONT_WIDTH as int, FONT_HEIGHT as int),
            ..s
        },
    }
}

/// The screen after writing one character: a newline starts the next text
/// row, a carriage return moves the pen to the left edge, and any other
/// character is drawn at the pen, after wrapping when it would cross the
/// right edge, and the pen advances by a glyph.
pub open spec fn put_char_spec(s: Screen, c: char) -> Screen {
    if c == '\n' {
        newline_spec(s)
    } else if c == '\r' {
        Screen { x: 0, ..s }
    } else {
        let t = if s.x + FONT_WIDTH > s.info.width {
            newline_spec(s)
        } else {
            s
        };
        let u = render_spec(t, c);
        Screen { x: u.x + FONT_WIDTH, ..u }
    }
}

/// The screen after writing the characters in order.
pub open spec fn put_str_spec(s: Screen, cs: Seq<char>) -> Screen
    decreases cs.len(),
{
    if cs.len() == 0 {
        s
    } else {
        put_str_spec(put_char_spec(s, cs[0]), cs.drop_first())
    }
}

/// The screen cleared to the background with the pen at the top left.
pub open spec fn clear_spec(s: Screen) -> Screen {
    Screen { fb: fill_lines(s.fb, s.info, 0, color_rgb(s.bg)), x: 0, y: 0, ..s }
}

/// Pixel offsets on the visible lines, up to two glyphs past the right
/// edge, fit in a machine word.
proof fn lemma_offset_fits(info: FrameBufferInfo, px: int, py: int)
    requires
        geometry_fits(info),
        0 <= py < info.height,
        0 <= px < info.width + 2 * FONT_WIDTH,
    ensures
        0 <= py * info.stride + px,
        py * info.stride + px + 1 <= usize::MAX,
        (py * info.stride + px + 1) * info.bytes_per_pixel <= usize::MAX,
        pixel_offset(info, px, py) + info.bytes_per_pixel == (py * info.stride + px + 1)
            * info.bytes_per_pixel,
{
    let s = info.stride as int;
    let b = info.bytes_per_pixel as int;
    let h = info.height as int;
    assert(0 <= py * s) by (nonlinear_arith)
        requires
            0 <= py,
            0 <= s,
    ;
    assert(py * s + px + 1 <= h * s + info.width + 2 * FONT_WIDTH) by (nonlinear_arith)
        requires
            0 <= py < h,
            0 <= s,
            px < info.width + 2 * FONT_WIDTH,
    ;
    assert((py * s + px + 1) * b <= (h * s + info.width + 2 * FONT_WIDTH) * b) by (nonlinear_arith)
        requires
            py * s + px + 1 <= h * s + info.width + 2 * FONT_WIDTH,
            0 <= b,
    ;
    assert((py * s + px + 1) * b == (py * s + px) * b + b) by (nonlinear_arith);
    assert(py * s + px + 1 <= (py * s + px + 1) * b) by (nonlinear_arith)
        requires
            b >= 1,
            py * s + px + 1 >= 0,
    ;
}

/// Pixel offsets grow along a line.
proof fn lemma_offset_monotone(info: FrameBufferInfo, px: int, qx: int, py: int)
    requires
        px <= qx,
    ensures
        pixel_offset(info, px, py) <= pixel_offset(info, qx, py),
{
    let b = info.bytes_per_pixel as int;
    assert((py * info.stride + px) * b <= (py * info.stride + qx) * b) by (nonlinear_arith)
        requires
            px <= qx,
            0 <= b,
    ;
}

/// A line fill that reaches a pixel past the end of the buffer changes
/// nothing from there on.
proof fn lemma_fill_line_stops(fb: Seq<u8>, info: FrameBufferInfo, px0: int, py: int, c: (u8, u8, u8), k: int, n: int)
    requires
        0 <= k <= n,
        pixel_offset(info, px0 + k, py) + info.bytes_per_pixel > fb.len(),
    ensures
        fill_line(fb, info, px0, py, c, n) == fill_line(fb, info, px0, py, c, k),
    decreases n,
{
    if n > k {
        lemma_fill_line_stops(fb, info, px0, py, c, k, n - 1);
        lemma_offset_monotone(info, px0 + k, px0 + n - 1, py);
        lemma_fill_line_len(fb, info, px0, py, c, n - 1);
    }
}

/// Drawing a glyph keeps the buffer length.
proof fn lemma_paint_len(
    fb: Seq<u8>,
    info: FrameBufferInfo,
    g: Seq<Seq<u8>>,
    cx: int,
    cy: int,
    fg: (u8, u8, u8),
    bg: (u8, u8, u8),
    m: int,
)
    ensures
        paint_glyph(fb, info, g, cx, cy, fg, bg, m).len() == fb.len(),
    decreases m,
{
    if m > 0 {
        lemma_paint_len(fb, info, g, cx, cy, fg, bg, m - 1);
        let prev = paint_glyph(fb, info, g, cx, cy, fg, bg, m - 1);
        lemma_paint_row_len(prev, info, g[m - 1], cx, cy + m - 1, fg, bg, g[m - 1].len() as int);
    }
}

/// Drawing a glyph row keeps the buffer length.
proof fn lemma_paint_row_len(
    fb: Seq<u8>,
    info: FrameBufferInfo,
    row: Seq<u8>,
    cx: int,
    py: int,
    fg: (u8, u8, u8),
    bg: (u8, u8, u8),
    n: int,
)
    ensures
        paint_row(fb, info, row, cx, py, fg, bg, n).len() == fb.len(),
    decreases n,
{
    if n > 0 {
        lemma_paint_row_len(fb, info, row, cx, py, fg, bg, n - 1);
    }
}

/// Filling a rectangle keeps the buffer length.
proof fn lemma_fill_rect_len(
    fb: Seq<u8>,
    info: FrameBufferInfo,
    px0: int,
    py0: int,
    c: (u8, u8, u8),
    n: int,
    m: int,
)
    ensures
        fill_rect(fb, info, px0, py0, c, n, m).len() == fb.len(),
    decreases m,
{
    if m > 0 {
        lemma_fill_rect_len(fb, info, px0, py0, c, n, m - 1);
        lemma_fill_line_len(fill_rect(fb, info, px0, py0, c, n, m - 1), info, px0, py0 + m - 1, c, n);
    }
}

/// Every screen operation keeps the buffer length.
proof fn lemma_screen_len(s: Screen, c: char)
    ensures
        render_spec(s, c).fb.len() == s.fb.len(),
        scroll_spec(s).fb.len() == s.fb.len(),
        clear_spec(s).fb.len() == s.fb.len(),
{
    match drawn_glyph(c) {
        Some(g) => lemma_paint_len(s.fb, s.info, g, s.x, s.y, color_rgb(s.fg), color_rgb(s.bg), g.len() as int),
        None => lemma_fill_rect_len(s.fb, s.info, s.x, s.y, color_rgb(s.bg), FONT_WIDTH as int, FONT_HEIGHT as int),
    }
    lemma_fill_rect_len(shift_up(s.fb, s.info), s.info, 0, s.info.height - FONT_HEIGHT, color_rgb(s.bg), s.info.width as int, FONT_HEIGHT as int);
    lemma_fill_rect_len(s.fb, s.info, 0, 0, color_rgb(s.bg), s.info.width as int, s.info.height as int);
}

/// Setting a pixel keeps the buffer length.
proof fn lemma_put_pixel_len(fb: Seq<u8>, info: FrameBufferInfo, px: int, py: int, c: (u8, u8, u8))
    ensures
        put_pixel(fb, info, px, py, c).len() == fb.len(),
{
}

/// Filling keeps the buffer length.
proof fn lemma_fill_line_len(fb: Seq<u8>, info: FrameBufferInfo, px0: int, py: int, c: (u8, u8, u8), n: int)
    ensures
        fill_line(fb, info, px0, py, c, n).len() == fb.len(),
    decreases n,
{
    if n > 0 {
        lemma_fill_line_len(fb, info, px0, py, c, n - 1);
    }
}

/// One channel of a glyph pixel.
fn blend_channel(f: u8, b: u8, a: u8) -> (r: u8)
    ensures
        r == blend(f, b, a),
{
    let a16 = a as u16;
    proof {
        assert(f * a + b * (255 - a) <= 255 * 255) by (nonlinear_arith)
            requires
                f <= 255,
                b <= 255,
                a <= 255,
        ;
        assert(0 <= f * a + b * (255 - a)) by (nonlinear_arith)
            requires
                0 <= f,
                0 <= b,
                0 <= a <= 255,
        ;
    }
    ((f as u16 * a16 + b as u16 * (255 - a16)) / 255) as u8
}

pub struct Writer {
    fb: Vec<u8>,
    info: FrameBufferInfo,
    x: usize,
    y: usize,
    fg: Color,
    bg: Color,
}

impl View for Writer {
    type V = Screen;

    closed spec fn view(&self) -> Screen {
        Screen { fb: self.fb@, info: self.info, x: self.x as int, y: self.y as int, fg: self.fg, bg: self.bg }
    }
}

impl Writer {
    pub closed spec fn wf(&self) -> bool {
        screen_ok(self@)
    }

    /// A console on the given framebuffer bytes, light green on black,
    /// cleared.  Text can be written to it (`wf`) when the buffer holds a
    /// text row and every visible line (`info_ok`).
    pub fn new(fb: Vec<u8>, info: FrameBufferInfo) -> (r: Self)
        requires
            geometry_fits(info),
        ensures
            r@ == clear_spec(Screen { fb: fb@, info, x: 0, y: 0, fg: Color::LightGreen, bg: Color::Black }),
            info_ok(info, fb@.len() as int) ==> r.wf(),
    {
        let mut w = Writer { fb, info, x: 0, y: 0, fg: Color::LightGreen, bg: Color::Black };
        w.clear();
        w
    }

    /// The framebuffer bytes.
    pub fn frame(&self) -> (r: &Vec<u8>)
        ensures
            r@ == self@.fb,
    {
        &self.fb
    }

    /// The pen position: pixel column and top pixel line of the text row.
    pub fn position(&self) -> (r: (usize, usize))
        ensures
            r.0 == self@.x && r.1 == self@.y,
    {
        (self.x, self.y)
    }

    /// The foreground and background colors.
    pub fn colors(&self) -> (r: (Color, Color))
        ensures
            r == (self@.fg, self@.bg),
    {
        (self.fg, self.bg)
    }

    /// Sets pixel `(px, py)` unless its bytes would run past the buffer.
    fn set_pixel(&mut self, px: usize, py: usize, r: u8, g: u8, b: u8)
        requires
            old(self).info.bytes_per_pixel >= pixel_len(old(self).info.pixel_format),
            (py * old(self).info.stride + px + 1) * old(self).info.bytes_per_pixel <= usize::MAX,
        ensures
            final(self)@ == (Screen {
                fb: put_pixel(old(self)@.fb, old(self)@.info, px as int, py as int, (r, g, b)),
                ..old(self)@
            }),
    {
        proof {
            let s = self.info.stride as int;
            let bp = self.info.bytes_per_pixel as int;
            let q = py * s + px;
            assert(0 <= py * s <= q) by (nonlinear_arith)
                requires
                    0 <= py,
                    0 <= s,
                    0 <= px,
                    q == py * s + px,
            ;
            assert(q + 1 <= (q + 1) * bp) by (nonlinear_arith)
                requires
                    bp >= 1,
                    q >= 0,
            ;
            assert((q + 1) * bp == q * bp + bp) by (nonlinear_arith);
        }
        let stride = self.info.stride;
        let bpp = self.info.bytes_per_pixel;
        let offset = (py * stride + px) * bpp;
        if offset + bpp > self.fb.len() {
            return;
        }
        let ghost fb0 = self.fb@;
        match self.info.pixel_format {
            PixelFormat::Rgb => {
                self.fb.set(offset, r);
                self.fb.set(offset + 1, g);
                self.fb.set(offset + 2, b);
            },
            PixelFormat::Bgr => {
                self.fb.set(offset, b);
                self.fb.set(offset + 1, g);
                self.fb.set(offset + 2, r);
            },
            PixelFormat::U8 => {
                let gray = ((r as u16 + g as u16 + b as u16) / 3) as u8;
                assert(gray == ((r + g + b) / 3) as u8);
                self.fb.set(offset, gray);
            },
            _ => {
                self.fb.set(offset, r);
                self.fb.set(offset + 1, g);
                self.fb.set(offset + 2, b);
            },
        }
        proof {
            assert(self.fb@ =~= put_pixel(fb0, self.info, px as int, py as int, (r, g, b)));
        }
    }

    fn char_height(&self) -> (r: usize)
        ensures
            r == FONT_HEIGHT,
    {
        raster_height()
    }

    fn char_width(&self) -> (r: usize)
        ensures
            r == FONT_WIDTH,
    {
        raster_width()
    }

    /// Fills `n` pixels of line `py` from column `px0` with one color,
    /// stopping at the first pixel past the end of the buffer.
    fn fill_line(&mut self, px0: usize, py: usize, c: (u8, u8, u8), n: usize)
        requires
            geometry_fits(old(self).info),
            py < old(self).info.height,
            px0 + n <= old(self).info.width + 2 * FONT_WIDTH,
        ensures
            final(self)@ == (Screen {
                fb: fill_line(old(self)@.fb, old(self)@.info, px0 as int, py as int, c, n as int),
                ..old(self)@
            }),
    {
        let ghost fb0 = self.fb@;
        let bpp = self.info.bytes_per_pixel;
        let stride = self.info.stride;
        let mut k: usize = 0;
        while k < n
            invariant
                geometry_fits(self.info),
                self.info == old(self).info,
                self.x == old(self).x,
                self.y == old(self).y,
                self.fg == old(self).fg,
                self.bg == old(self).bg,
                fb0 == old(self).fb@,
                bpp == self.info.bytes_per_pixel,
                stride == self.info.stride,
                py < self.info.height,
                px0 + n <= self.info.width + 2 * FONT_WIDTH,
                k <= n,
                self.fb@ == fill_line(fb0, self.info, px0 as int, py as int, c, k as int),
            ensures
                self.info == old(self).info,
                self.x == old(self).x,
                self.y == old(self).y,
                self.fg == old(self).fg,
                self.bg == old(self).bg,
                self.fb@ == fill_line(fb0, self.info, px0 as int, py as int, c, n as int),
            decreases n - k,
        {
            let px = px0 + k;
            proof {
                lemma_offset_fits(self.info, px as int, py as int);
                lemma_fill_line_len(fb0, self.info, px0 as int, py as int, c, k as int);
            }
            let off = (py * stride + px) * bpp;
            if off + bpp > self.fb.len() {
                proof {
                    lemma_fill_line_stops(fb0, self.info, px0 as int, py as int, c, k as int, n as int);
                }
                break;
            }
            proof {
                lemma_put_pixel_len(self.fb@, self.info, px as int, py as int, c);
            }
            self.set_pixel(px, py, c.0, c.1, c.2);
            k = k + 1;
        }
    }

    /// Clears the visible lines from `py0` down to the background.
    fn fill_lines_from(&mut self, py0: usize)
        requires
            geometry_fits(old(self).info),
            py0 <= old(self).info.height,
        ensures
            final(self)@ == (Screen {
                fb: fill_lines(old(self)@.fb, old(self)@.info, py0 as int, color_rgb(old(self)@.bg)),
                ..old(self)@
            }),
    {
        let ghost fb0 = self.fb@;
        let c = self.bg.rgb();
        let width = self.info.width;
        let height = self.info.height;
        let mut py = py0;
        while py < height
            invariant
                geometry_fits(self.info),
                self.info == old(self).info,
                self.x == old(self).x,
                self.y == old(self).y,
                self.fg == old(self).fg,
                self.bg == old(self).bg,
                fb0 == old(self).fb@,
                c == color_rgb(self.bg),
                width == self.info.width,
                height == self.info.height,
                py0 <= py <= height,
                self.fb@ == fill_rect(fb0, self.info, 0, py0 as int, c, width as int, (py - py0) as int),
            decreases height - py,
        {
            proof {
                lemma_fill_line_len(self.fb@, self.info, 0, py as int, c, width as int);
            }
            self.fill_line(0, py, c, width);
            py = py + 1;
        }
    }

    /// Draws `c` at the pen; the pen does not move.
    fn render_char(&mut self, c: char)
        requires
            old(self).wf(),
            old(self)@.x <= old(self)@.info.width + FONT_WIDTH,
        ensures
            final(self)@ == render_spec(old(self)@, c),
    {
        let raster = match glyph(c) {
            Some(g) => Some(g),
            None => glyph('?'),
        };
        let fg = self.fg.rgb();
        let bg = self.bg.rgb();
        let cx = self.x;
        let cy = self.y;
        let ghost fb0 = self.fb@;
        match raster {
            Some(raster) => {
                let mut row_idx: usize = 0;
                while row_idx < raster.len()
                    invariant
                        info_ok(self.info, self.fb@.len() as int),
                        self.info == old(self).info,
                        self.x == old(self).x,
                        self.y == old(self).y,
                        self.fg == old(self).fg,
                        self.bg == old(self).bg,
                        fb0 == old(self).fb@,
                        cx == self.x,
                        cy == self.y,
                        cy + FONT_HEIGHT <= self.info.height,
                        cx <= self.info.width + FONT_WIDTH,
                        fg == color_rgb(self.fg),
                        bg == color_rgb(self.bg),
                        raster@.len() == FONT_HEIGHT,
                        forall|i: int| 0 <= i < FONT_HEIGHT ==> (#[trigger] raster@[i])@.len() == FONT_WIDTH,
                        row_idx <= raster@.len(),
                        self.fb@ == paint_glyph(fb0, self.info, raster.deep_view(), cx as int, cy as int, fg, bg, row_idx as int),
                    decreases raster@.len() - row_idx,
                {
                    let row = &raster[row_idx];
                    let ghost fb1 = self.fb@;
                    let mut col_idx: usize = 0;
                    while col_idx < row.len()
                        invariant
                            info_ok(self.info, self.fb@.len() as int),
                            self.info == old(self).info,
                            self.x == old(self).x,
                            self.y == old(self).y,
                            self.fg == old(self).fg,
                            self.bg == old(self).bg,
                            cx == self.x,
                            cy == self.y,
                            cy + FONT_HEIGHT <= self.info.height,
                            cx <= self.info.width + FONT_WIDTH,
                            row_idx < FONT_HEIGHT,
                            row@.len() == FONT_WIDTH,
                            col_idx <= row@.len(),
                            self.fb@ == paint_row(fb1, self.info, row@, cx as int, (cy + row_idx) as int, fg, bg, col_idx as int),
                        decreases row@.len() - col_idx,
                    {
                        proof {
                            lemma_put_pixel_len(self.fb@, self.info, (cx + col_idx) as int, (cy + row_idx) as int, fg);
                            lemma_offset_fits(self.info, (cx + col_idx) as int, (cy + row_idx) as int);
                        }
                        let a = row[col_idx];
                        let r = blend_channel(fg.0, bg.0, a);
                        let g = blend_channel(fg.1, bg.1, a);
                        let b = blend_channel(fg.2, bg.2, a);
                        self.set_pixel(cx + col_idx, cy + row_idx, r, g, b);
                        col_idx = col_idx + 1;
                    }
                    proof {
                        assert(raster.deep_view()[row_idx as int] == row@);
                    }
                    row_idx = row_idx + 1;
                }
            },
            None => {
                let ch = self.char_height();
                let cw = self.char_width();
                let mut row_idx: usize = 0;
                while row_idx < ch
                    invariant
                        info_ok(self.info, self.fb@.len() as int),
                        self.info == old(self).info,
                        self.x == old(self).x,
                        self.y == old(self).y,
                        self.fg == old(self).fg,
                        self.bg == old(self).bg,
                        fb0 == old(self).fb@,
                        cx == self.x,
                        cy == self.y,
                        cy + FONT_HEIGHT <= self.info.height,
                        cx <= self.info.width + FONT_WIDTH,
                        bg == color_rgb(self.bg),
                        ch == FONT_HEIGHT,
                        cw == FONT_WIDTH,
                        row_idx <= ch,
                        self.fb@ == fill_rect(fb0, self.info, cx as int, cy as int, bg, cw as int, row_idx as int),
                    decreases ch - row_idx,
                {
                    let ghost fb1 = self.fb@;
                    let mut col_idx: usize = 0;
                    while col_idx < cw
                        invariant
                            info_ok(self.info, self.fb@.len() as int),
                            self.info == old(self).info,
                            self.x == old(self).x,
                            self.y == old(self).y,
                            self.fg == old(self).fg,
                            self.bg == old(self).bg,
                            cx == self.x,
                            cy == self.y,
                            cy + FONT_HEIGHT <= self.info.height,
                            cx <= self.info.width + FONT_WIDTH,
                            bg == color_rgb(self.bg),
                            row_idx < ch,
                            ch == FONT_HEIGHT,
                            cw == FONT_WIDTH,
                            col_idx <= cw,
                            self.fb@ == fill_line(fb1, self.info, cx as int, (cy + row_idx) as int, bg, col_idx as int),
                        decreases cw - col_idx,
                    {
                        proof {
                            lemma_put_pixel_len(self.fb@, self.info, (cx + col_idx) as int, (cy + row_idx) as int, bg);
                            lemma_offset_fits(self.info, (cx + col_idx) as int, (cy + row_idx) as int);
                        }
                        self.set_pixel(cx + col_idx, cy + row_idx, bg.0, bg.1, bg.2);
                        col_idx = col_idx + 1;
                    }
                    row_idx = row_idx + 1;
                }
            },
        }
    }

    /// Moves every pixel line up one text row and clears the exposed
    /// bottom row.
    fn scroll_up(&mut self)
        requires
            info_ok(old(self).info, old(self).fb@.len() as int),
        ensures
            final(self)@ == scroll_spec(old(self)@),
    {
        let ch = self.char_height();
        let stride = self.info.stride;
        let bpp = self.info.bytes_per_pixel;
        let height = self.info.height;
        proof {
            lemma_scroll_bounds(self.info, self.fb@.len() as int);
        }
        let row_bytes = stride * bpp;
        let shift = ch * row_bytes;
        let total = height * row_bytes;
        let ghost fb0 = self.fb@;
        let mut i: usize = 0;
        while i < total - shift
            invariant
                info_ok(self.info, self.fb@.len() as int),
                self.info == old(self).info,
                self.x == old(self).x,
                self.y == old(self).y,
                self.fg == old(self).fg,
                self.bg == old(self).bg,
                fb0 == old(self).fb@,
                self.fb@.len() == fb0.len(),
                shift <= total <= fb0.len(),
                shift == FONT_HEIGHT * (self.info.stride * self.info.bytes_per_pixel),
                total == self.info.height * (self.info.stride * self.info.bytes_per_pixel),
                i <= total - shift,
                forall|j: int| 0 <= j < i ==> self.fb@[j] == fb0[j + shift],
                forall|j: int| i <= j < fb0.len() ==> self.fb@[j] == fb0[j],
            decreases total - shift - i,
        {
            let v = self.fb[i + shift];
            self.fb.set(i, v);
            i = i + 1;
        }
        proof {
            assert(self.fb@ =~= shift_up(fb0, self.info));
        }
        self.fill_lines_from(height - ch);
    }

    /// Writes one byte as the character of the same code.
    pub fn write_byte(&mut self, byte: u8)
        requires
            old(self).wf(),
        ensures
            final(self).wf(),
            final(self)@ == put_char_spec(old(self)@, byte as char),
    {
        if byte == 10 {
            self.newline();
        } else if byte == 13 {
            self.x = 0;
        } else {
            if self.x + self.char_width() > self.info.width {
                self.newline();
            }
            proof {
                lemma_screen_len(self@, byte as char);
            }
            self.render_char(byte as char);
            self.x = self.x + self.char_width();
        }
    }

    /// Writes the characters of `s` in order.
    pub fn write_str(&mut self, s: &str)
        requires
            old(self).wf(),
        ensures
            final(self).wf(),
            final(self)@ == put_str_spec(old(self)@, s@),
    {
        let ghost s0 = self@;
        let n = s.unicode_len();
        let mut i: usize = 0;
        proof {
            assert(s@.subrange(0, s@.len() as int) =~= s@);
        }
        while i < n
            invariant
                self.wf(),
                n == s@.len(),
                i <= n,
                put_str_spec(self@, s@.subrange(i as int, n as int)) == put_str_spec(s0, s@),
            decreases n - i,
        {
            let c = s.get_char(i);
            proof {
                let rest = s@.subrange(i as int, n as int);
                assert(rest[0] == c);
                assert(rest.drop_first() =~= s@.subrange(i + 1, n as int));
            }
            self.write_char(c);
            i = i + 1;
        }
        proof {
            assert(s@.subrange(n as int, n as int) =~= Seq::<char>::empty());
        }
    }

    /// Writes one character.
    pub fn write_char(&mut self, c: char)
        requires
            old(self).wf(),
        ensures
            final(self).wf(),
            final(self)@ == put_char_spec(old(self)@, c),
    {
        if c == '\n' {
            self.newline();
        } else if c == '\r' {
            self.x = 0;
        } else {
            if self.x + self.char_width() > self.info.width {
                self.newline();
            }
            proof {
                lemma_screen_len(self@, c);
            }
            self.render_char(c);
            self.x = self.x + self.char_width();
        }
    }

    /// Moves the pen to the start of the next text row, scrolling when the
    /// row would not fit.
    fn newline(&mut self)
        requires
            old(self).wf(),
        ensures
            final(self).wf(),
            final(self)@ == newline_spec(old(self)@),
    {
        proof {
            lemma_screen_len(Screen { x: 0, y: self.y + FONT_HEIGHT, ..self@ }, ' ');
        }
        self.x = 0;
        self.y = self.y + self.char_height();
        if self.y + self.char_height() > self.info.height {
            self.scroll_up();
            self.y = self.info.height - self.char_height();
        }
    }

    /// Clears the screen to the background and moves the pen to the top
    /// left.
    pub fn clear(&mut self)
        requires
            geometry_fits(old(self)@.info),
        ensures
            final(self)@ == clear_spec(old(self)@),
            info_ok(old(self)@.info, old(self)@.fb.len() as int) ==> final(self).wf(),
    {
        proof {
            lemma_screen_len(self@, ' ');
        }
        self.fill_lines_from(0);
        self.x = 0;
        self.y = 0;
    }

    pub fn set_color(&mut self, fg: Color, bg: Color)
        ensures
            old(self).wf() ==> final(self).wf(),
            final(self)@ == (Screen { fg, bg, ..old(self)@ }),
    {
        self.fg = fg;
        self.bg = bg;
    }
}

/// The sizes `scroll_up` computes fit, and the moved range lies in the
/// buffer.
proof fn lemma_scroll_bounds(info: FrameBufferInfo, fb_len: int)
    requires
        info_ok(info, fb_len),
    ensures
        info.stride * info.bytes_per_pixel <= usize::MAX,
        FONT_HEIGHT * (info.stride * info.bytes_per_pixel) <= info.height * (info.stride
            * info.bytes_per_pixel),
        info.height * (info.stride * info.bytes_per_pixel) <= fb_len,
        info.height * (info.stride * info.bytes_per_pixel) <= usize::MAX,
{
    let s = info.stride as int;
    let b = info.bytes_per_pixel as int;
    let h = info.height as int;
    assert(h * (s * b) == h * s * b) by (nonlinear_arith);
    assert(h * s * b <= (h * s + info.width + 2 * FONT_WIDTH) * b) by (nonlinear_arith)
        requires
            h >= 0,
            s >= 0,
            b >= 0,
            info.width >= 0,
    ;
    assert(s * b <= h * (s * b)) by (nonlinear_arith)
        requires
            h >= 1,
            s >= 0,
            b >= 0,
    ;
    assert(FONT_HEIGHT * (s * b) <= h * (s * b)) by (nonlinear_arith)
        requires
            h >= FONT_HEIGHT,
            s >= 0,
            b >= 0,
    ;
}

/// Writes a string to the console.
pub fn print(w: &mut Writer, s: &str)
    requires
        old(w).wf(),
    ensures
        final(w).wf(),
        final(w)@ == put_str_spec(old(w)@, s@),
{
    w.write_str(s);
}

/// Writes a character to the console.
pub fn print_char(w: &mut Writer, c: char)
    requires
        old(w).wf(),
    ensures
        final(w).wf(),
        final(w)@ == put_char_spec(old(w)@, c),
{
    w.write_char(c);
}

/// Clears the console.
pub fn clear(w: &mut Writer)
    requires
        geometry_fits(old(w)@.info),
    ensures
        final(w)@ == clear_spec(old(w)@),
        info_ok(old(w)@.info, old(w)@.fb.len() as int) ==> final(w).wf(),
{
    w.clear();
}

/// Sets the console's colors.
pub fn set_color(w: &mut Writer, fg: Color, bg: Color)
    ensures
        old(w).wf() ==> final(w).wf(),
        final(w)@ == (Screen { fg, bg, ..old(w)@ }),
{
    w.set_color(fg, bg);
}

/// The console after a status line: `tag` in `tag_color`, then `msg` in the
/// current foreground color, then a newline.
pub open spec fn tagged_spec(s: Screen, tag_color: Color, tag: Seq<char>, msg: Seq<char>) -> Screen {
    let t = put_str_spec(Screen { fg: tag_color, ..s }, tag);
    put_str_spec(put_str_spec(Screen { fg: s.fg, ..t }, msg), "\n"@)
}

/// Writing characters never changes the colors.
proof fn lemma_put_str_keeps_colors(s: Screen, cs: Seq<char>)
    ensures
        put_str_spec(s, cs).fg == s.fg,
        put_str_spec(s, cs).bg == s.bg,
        put_str_spec(s, cs).info == s.info,
    decreases cs.len(),
{
    if cs.len() > 0 {
        lemma_put_str_keeps_colors(put_char_spec(s, cs[0]), cs.drop_first());
    }
}

fn print_tagged(w: &mut Writer, tag_color: Color, tag: &str, msg: &str)
    requires
        old(w).wf(),
    ensures
        final(w).wf(),
        final(w)@ == tagged_spec(old(w)@, tag_color, tag@, msg@),
{
    let saved_fg = w.fg;
    w.fg = tag_color;
    w.write_str(tag);
    proof {
        lemma_put_str_keeps_colors(Screen { fg: tag_color, ..old(w)@ }, tag@);
    }
    w.fg = saved_fg;
    w.write_str(msg);
    w.write_str("\n");
}

/// Writes `[ OK ] ` in light green, then `msg` and a newline.
pub fn print_ok(w: &mut Writer, msg: &str)
    requires
        old(w).wf(),
    ensures
        final(w).wf(),
        final(w)@ == tagged_spec(old(w)@, Color::LightGreen, "[ OK ] "@, msg@),
{
    print_tagged(w, Color::LightGreen, "[ OK ] ", msg);
}

/// Writes `[ ERR ] ` in light red, then `msg` and a newline.
pub fn print_err(w: &mut Writer, msg: &str)
    requires
        old(w).wf(),
    ensures
        final(w).wf(),
        final(w)@ == tagged_spec(old(w)@, Color::LightRed, "[ ERR ] "@, msg@),
{
    print_tagged(w, Color::LightRed, "[ ERR ] ", msg);
}

/// Writes `[ INFO ] ` in light cyan, then `msg` and a newline.
pub fn print_info(w: &mut Writer, msg: &str)
    requires
        old(w).wf(),
    ensures
        final(w).wf(),
        final(w)@ == tagged_spec(old(w)@, Color::LightCyan, "[ INFO ] "@, msg@),
{
    print_tagged(w, Color::LightCyan, "[ INFO ] ", msg);
}

/// A status line leaves the colors as they were before it.
pub proof fn law_status_line_keeps_colors(s: Screen, tag_color: Color, tag: Seq<char>, msg: Seq<char>)
    ensures
        tagged_spec(s, tag_color, tag, msg).fg == s.fg,
        tagged_spec(s, tag_color, tag, msg).bg == s.bg,
{
    let t = put_str_spec(Screen { fg: tag_color, ..s }, tag);
    lemma_put_str_keeps_colors(Screen { fg: tag_color, ..s }, tag);
    lemma_put_str_keeps_colors(Screen { fg: s.fg, ..t }, msg);
    lemma_put_str_keeps_colors(put_str_spec(Screen { fg: s.fg, ..t }, msg), "\n"@);
}

} // verus!
