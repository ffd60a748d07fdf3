//! The 80x25 VGA text-mode console: a grid of character cells with a
//! cursor that wraps at the right edge and scrolls at the bottom.  The grid
//! is kept here; copying it to the memory-mapped buffer and moving the
//! hardware cursor to `cursor_position` is the caller's part.
use vstd::prelude::*;
use vstd::utf8::{encode_scalar, encode_utf8};
use vstd::string::StringSliceAdditionalSpecFns;
use crate::vga::{Color, color_index};

verus! {

pub const VGA_WIDTH: usize = 80;

pub const VGA_HEIGHT: usize = 25;

/// A foreground and background color packed as the hardware expects: the
/// background in the high nibble, the foreground in the low one.
#[derive(Clone, Copy, PartialEq, Eq, Structural, Debug)]
pub struct ColorCode(pub u8);

impl ColorCode {
    pub fn new(fg: Color, bg: Color) -> (r: Self)
        ensures
            r.0 == color_index(bg) * 16 + color_index(fg),
    {
        let f = fg.index();
        let b = bg.index();
        proof {
            assert((b << 4u8) | f == b * 16 + f) by (bit_vector)
                requires
                    b < 16,
                    f < 16,
            ;
        }
        ColorCode((b << 4) | f)
    }
}

/// One character cell: the code-page byte and its colors.
#[derive(Clone, Copy, PartialEq, Eq, Structural, Debug)]
pub struct ScreenChar {
    pub ascii: u8,
    pub color: ColorCode,
}

/// The state of a text console: the cells row by row, the cursor and the
/// current colors.
pub struct TextScreen {
    pub cells: Seq<ScreenChar>,
    pub row: int,
    pub col: int,
    pub color: ColorCode,
}

/// The byte a string byte is shown as: printable ASCII and newline as
/// themselves, anything else as the block character 0xfe.
pub open spec fn shown_byte(b: u8) -> u8 {
    if (0x20 <= b <= 0x7e) || b == 10 {
        b
    } else {
        0xfe
    }
}

/// A blank cell in the given colors.
pub open spec fn blank(color: ColorCode) -> ScreenChar {
    ScreenChar { ascii: 32, color }
}

/// The screen moved to the start of the next line, scrolling everything up
/// one row when the cursor is on the last row.
pub open spec fn newline_spec(s: TextScreen) -> TextScreen {
    if s.row < VGA_HEIGHT - 1 {
        TextScreen { row: s.row + 1, col: 0, ..s }
    } else {
        TextScreen {
            cells: Seq::new(
                (VGA_WIDTH * VGA_HEIGHT) as nat,
                |i: int|
                    if i < VGA_WIDTH * (VGA_HEIGHT - 1) {
                        s.cells[i + VGA_WIDTH]
                    } else {
                        blank(s.color)
                    },
            ),
            col: 0,
            ..s
        }
    }
}

/// The screen after writing one byte as it is: a newline moves to the next
/// line; any other byte goes in the cursor cell, after wrapping to the next
/// line when the row is full, and the cursor advances.
pub open spec fn put_byte_spec(s: TextScreen, b: u8) -> TextScreen {
    if b == 10 {
        newline_spec(s)
    } else {
        let t = if s.col >= VGA_WIDTH {
            newline_spec(s)
        } else {
            s
        };
        TextScreen {
            cells: t.cells.update(t.row * VGA_WIDTH + t.col, ScreenChar { ascii: b, color: t.color }),
            col: t.col + 1,
            ..t
        }
    }
}

/// The screen after writing the bytes of a string, each shown as
/// `shown_byte` has it.
pub open spec fn put_str_spec(s: TextScreen, bytes: Seq<u8>) -> TextScreen
    decreases bytes.len(),
{
    if bytes.len() == 0 {
        s
    } else {
        put_str_spec(put_byte_spec(s, shown_byte(bytes[0])), bytes.drop_first())
    }
}

/// The cursor is on the screen and the grid has every cell.
pub open spec fn screen_ok(s: TextScreen) -> bool {
    &&& s.cells.len() == VGA_WIDTH * VGA_HEIGHT
    &&& 0 <= s.row < VGA_HEIGHT
    &&& 0 <= s.col <= VGA_WIDTH
}

pub struct Writer {
    col: usize,
    row: usize,
    color: ColorCode,
    buffer: Vec<ScreenChar>,
}

impl View for Writer {
    type V = TextScreen;

    closed spec fn view(&self) -> TextScreen {
        TextScreen { cells: self.buffer@, row: self.row as int, col: self.col as int, color: self.color }
    }
}

impl Writer {
    pub closed spec fn wf(&self) -> bool {
        screen_ok(self@)
    }

    /// A console over the given cells, with the cursor at the top left and
    /// light green on black as colors.
    pub fn new(buffer: Vec<ScreenChar>) -> (r: Self)
        requires
            buffer@.len() == VGA_WIDTH * VGA_HEIGHT,
        ensures
            r.wf(),
            r@.cells == buffer@,
            r@.row == 0 && r@.col == 0,
            r@.color.0 == color_index(Color::Black) * 16 + color_index(Color::LightGreen),
    {
        Writer { col: 0, row: 0, color: ColorCode::new(Color::LightGreen, Color::Black), buffer }
    }

    /// The cells, row by row.
    pub fn cells(&self) -> (r: &Vec<ScreenChar>)
        ensures
            r@ == self@.cells,
    {
        &self.buffer
    }

    /// The current colors.
    pub fn color(&self) -> (r: ColorCode)
        ensures
            r == self@.color,
    {
        self.color
    }

    /// The hardware cursor position: the index of the cursor cell.
    pub fn cursor_position(&self) -> (r: usize)
        requires
            self.wf(),
        ensures
            r == self@.row * VGA_WIDTH + self@.col,
    {
        self.row * VGA_WIDTH + self.col
    }

    pub fn write_byte(&mut self, byte: u8)
        requires
            old(self).wf(),
        ensures
            final(self).wf(),
            final(self)@ == put_byte_spec(old(self)@, byte),
    {
        if byte == 10 {
            self.newline();
        } else {
            if self.col >= VGA_WIDTH {
                self.newline();
            }
            let idx = self.row * VGA_WIDTH + self.col;
            self.buffer.set(idx, ScreenChar { ascii: byte, color: self.color });
            self.col = self.col + 1;
        }
    }

    /// Writes the bytes of `s`, showing each byte that is neither printable
    /// ASCII nor a newline as the block character 0xfe.
    pub fn write_str(&mut self, s: &str)
        requires
            old(self).wf(),
        ensures
            final(self).wf(),
            final(self)@ == put_str_spec(old(self)@, s.spec_bytes()),
    {
        let bytes = s.as_bytes();
        self.write_shown(bytes);
    }

    /// Writes `bytes`, each shown as `shown_byte` has it.
    fn write_shown(&mut self, bytes: &[u8])
        requires
            old(self).wf(),
        ensures
            final(self).wf(),
            final(self)@ == put_str_spec(old(self)@, bytes@),
    {
        let ghost s0 = self@;
        let mut i: usize = 0;
        proof {
            assert(bytes@.subrange(0, bytes@.len() as int) =~= bytes@);
        }
        while i < bytes.len()
            invariant
                self.wf(),
                i <= bytes@.len(),
                put_str_spec(self@, bytes@.subrange(i as int, bytes@.len() as int)) == put_str_spec(
                    s0,
                    bytes@,
                ),
            decreases bytes@.len() - i,
        {
            let b = bytes[i];
            let shown = if (0x20 <= b && b <= 0x7e) || b == 10 { b } else { 0xfe };
            proof {
                let rest = bytes@.subrange(i as int, bytes@.len() as int);
                assert(rest[0] == b);
                assert(rest.drop_first() == bytes@.subrange(i + 1, bytes@.len() as int));
            }
            self.write_byte(shown);
            i = i + 1;
        }
        proof {
            assert(bytes@.subrange(bytes@.len() as int, bytes@.len() as int) == Seq::<u8>::empty());
        }
    }

    /// Writes the UTF-8 bytes of `c`, as `write_str` would.
    pub fn write_char(&mut self, c: char)
        requires
            old(self).wf(),
        ensures
            final(self).wf(),
            final(self)@ == put_str_spec(old(self)@, encode_utf8(seq![c])),
    {
        let v = c as u32;
        let mut buf: Vec<u8> = Vec::new();
        proof {
            assert(seq![c].drop_first() == Seq::<char>::empty());
            assert(encode_utf8(seq![c]) == encode_scalar(v) + encode_utf8(Seq::<char>::empty()));
            assert(encode_utf8(seq![c]) == encode_scalar(v));
        }
        if v <= 0x7f {
            buf.push(v as u8);
            proof {
                assert(v & 0x7f == v) by (bit_vector)
                    requires
                        v <= 0x7f,
                ;
            }
        } else {
            let n: usize = if v <= 0x7ff {
                2
            } else if v <= 0xffff {
                3
            } else {
                4
            };
            let mut k: usize = 0;
            while k < n
                invariant
                    k <= n,
                    buf@ == Seq::new(k as nat, |j: int| 0xfeu8),
                decreases n - k,
            {
                buf.push(0xfe);
                k = k + 1;
            }
            proof {
                lemma_non_ascii_shown(v, buf@);
            }
        }
        self.write_shown(buf.as_slice());
    }

    /// Moves to the start of the next line, scrolling up at the bottom.
    fn newline(&mut self)
        requires
            old(self).wf(),
        ensures
            final(self).wf(),
            final(self)@ == newline_spec(old(self)@),
    {
        if self.row < VGA_HEIGHT - 1 {
            self.row = self.row + 1;
        } else {
            let ghost old_cells = self.buffer@;
            let mut i: usize = 0;
            while i < VGA_WIDTH * (VGA_HEIGHT - 1)
                invariant
                    self.buffer@.len() == VGA_WIDTH * VGA_HEIGHT,
                    self.row == old(self).row,
                    self.col == old(self).col,
                    self.color == old(self).color,
                    self.row < VGA_HEIGHT,
                    self.col <= VGA_WIDTH,
                    old_cells == old(self).buffer@,
                    old_cells.len() == VGA_WIDTH * VGA_HEIGHT,
                    i <= VGA_WIDTH * (VGA_HEIGHT - 1),
                    forall|j: int| 0 <= j < i ==> self.buffer@[j] == old_cells[j + VGA_WIDTH],
                    forall|j: int| i <= j < VGA_WIDTH * VGA_HEIGHT ==> self.buffer@[j] == old_cells[j],
                decreases VGA_WIDTH * (VGA_HEIGHT - 1) - i,
            {
                let ch = self.buffer[i + VGA_WIDTH];
                self.buffer.set(i, ch);
                i = i + 1;
            }
            self.clear_row(VGA_HEIGHT - 1);
            proof {
                assert(self.buffer@ =~= newline_spec(
                    TextScreen { cells: old_cells, row: self.row as int, col: self.col as int, color: self.color },
                ).cells);
            }
        }
        self.col = 0;
    }

    /// Blanks every cell and moves the cursor to the top left.
    pub fn clear(&mut self)
        requires
            old(self).wf(),
        ensures
            final(self).wf(),
            final(self)@.row == 0 && final(self)@.col == 0,
            final(self)@.color == old(self)@.color,
            final(self)@.cells == Seq::new(
                (VGA_WIDTH * VGA_HEIGHT) as nat,
                |i: int| blank(old(self)@.color),
            ),
    {
        let mut row: usize = 0;
        while row < VGA_HEIGHT
            invariant
                self.wf(),
                self.color == old(self).color,
                row <= VGA_HEIGHT,
                forall|j: int| 0 <= j < row * VGA_WIDTH ==> self.buffer@[j] == blank(self.color),
            decreases VGA_HEIGHT - row,
        {
            self.clear_row(row);
            row = row + 1;
        }
        self.row = 0;
        self.col = 0;
        proof {
            assert(self.buffer@ =~= Seq::new(
                (VGA_WIDTH * VGA_HEIGHT) as nat,
                |i: int| blank(old(self)@.color),
            ));
        }
    }

    pub fn set_color(&mut self, fg: Color, bg: Color)
        requires
            old(self).wf(),
        ensures
            final(self).wf(),
            final(self)@.cells == old(self)@.cells,
            final(self)@.row == old(self)@.row,
            final(self)@.col == old(self)@.col,
            final(self)@.color.0 == color_index(bg) * 16 + color_index(fg),
    {
        self.color = ColorCode::new(fg, bg);
    }

    /// Blanks one row in the current colors.
    fn clear_row(&mut self, row: usize)
        requires
            old(self).wf(),
            row < VGA_HEIGHT,
        ensures
            final(self).wf(),
            final(self)@.row == old(self)@.row,
            final(self)@.col == old(self)@.col,
            final(self)@.color == old(self)@.color,
            forall|j: int|
                0 <= j < VGA_WIDTH * VGA_HEIGHT ==> final(self)@.cells[j] == if row * VGA_WIDTH <= j < (row
                    + 1) * VGA_WIDTH {
                    blank(old(self)@.color)
                } else {
                    old(self)@.cells[j]
                },
    {
        let blank_cell = ScreenChar { ascii: 32, color: self.color };
        let mut col: usize = 0;
        while col < VGA_WIDTH
            invariant
                self.wf(),
                self.row == old(self).row,
                self.col == old(self).col,
                self.color == old(self).color,
                blank_cell == blank(self.color),
                row < VGA_HEIGHT,
                col <= VGA_WIDTH,
                forall|j: int|
                    0 <= j < VGA_WIDTH * VGA_HEIGHT ==> self.buffer@[j] == if row * VGA_WIDTH <= j < row
                        * VGA_WIDTH + col {
                        blank(old(self)@.color)
                    } else {
                        old(self)@.cells[j]
                    },
            decreases VGA_WIDTH - col,
        {
            self.buffer.set(row * VGA_WIDTH + col, blank_cell);
            col = col + 1;
        }
    }
}

/// Writes the bytes of a string to the text console, as
/// `Writer::write_str` does.
pub fn print(w: &mut Writer, s: &str)
    requires
        old(w).wf(),
    ensures
        final(w).wf(),
        final(w)@ == put_str_spec(old(w)@, s.spec_bytes()),
{
    w.write_str(s);
}

/// Writes the UTF-8 bytes of a character to the text console, as
/// `Writer::write_char` does.
pub fn print_char(w: &mut Writer, c: char)
    requires
        old(w).wf(),
    ensures
        final(w).wf(),
        final(w)@ == put_str_spec(old(w)@, encode_utf8(seq![c])),
{
    w.write_char(c);
}

/// Blanks the text console in its current colors and moves the cursor to
/// the top left.
pub fn clear(w: &mut Writer)
    requires
        old(w).wf(),
    ensures
        final(w).wf(),
        final(w)@.row == 0 && final(w)@.col == 0,
        final(w)@.color == old(w)@.color,
        final(w)@.cells == Seq::new((VGA_WIDTH * VGA_HEIGHT) as nat, |i: int| blank(old(w)@.color)),
{
    w.clear();
}

/// Sets the text console's colors for what is written next.
pub fn set_color(w: &mut Writer, fg: Color, bg: Color)
    requires
        old(w).wf(),
    ensures
        final(w).wf(),
        final(w)@.cells == old(w)@.cells,
        final(w)@.row == old(w)@.row,
        final(w)@.col == old(w)@.col,
        final(w)@.color.0 == color_index(bg) * 16 + color_index(fg),
{
    w.set_color(fg, bg);
}

/// Writing a byte other than a newline with the cursor inside its row puts
/// it in the cursor cell, in the current colors: a printable ASCII byte
/// as itself, any other byte as the block character 0xfe; the cursor moves
/// one cell right.
pub proof fn law_byte_lands_at_cursor(s: TextScreen, b: u8)
    requires
        screen_ok(s),
        s.col < VGA_WIDTH,
        b != 10,
    ensures
        ({
            let t = put_str_spec(s, seq![b]);
            &&& t.cells[s.row * VGA_WIDTH + s.col] == ScreenChar {
                ascii: if 0x20 <= b <= 0x7e { b } else { 0xfe },
                color: s.color,
            }
            &&& t.row == s.row
            &&& t.col == s.col + 1
            &&& forall|i: int|
                0 <= i < VGA_WIDTH * VGA_HEIGHT && i != s.row * VGA_WIDTH + s.col ==> t.cells[i]
                    == s.cells[i]
        }),
{
    let c = shown_byte(b);
    assert(seq![b].drop_first() =~= Seq::<u8>::empty());
    assert(seq![b][0] == b);
    assert(put_str_spec(s, seq![b]) == put_str_spec(put_byte_spec(s, c), Seq::<u8>::empty()));
    assert(put_str_spec(s, seq![b]) == put_byte_spec(s, c));
    assert(c != 10);
    assert(s.row * VGA_WIDTH + s.col < VGA_WIDTH * VGA_HEIGHT) by (nonlinear_arith)
        requires
            0 <= s.row < VGA_HEIGHT,
            0 <= s.col < VGA_WIDTH,
    ;
}

/// The values to write back to the cursor start and end registers, given
/// what was read from them: a block cursor from scanline 0 to 15, the other
/// bits of the registers kept.
pub fn cursor_shape(start_reg: u8, end_reg: u8) -> (r: (u8, u8))
    ensures
        r == ((start_reg & 0xC0) | 0, (end_reg & 0xE0) | 15),
{
    let start = start_reg & 0xC0;
    let end = end_reg & 0xE0;
    (start | 0, end | 15)
}

/// The UTF-8 bytes of a non-ASCII scalar all show as the block character.
proof fn lemma_non_ascii_shown(v: u32, shown: Seq<u8>)
    requires
        0x80 <= v <= 0x10FFFF,
        !(0xD800 <= v <= 0xDFFF),
        shown.len() == encode_scalar(v).len(),
        forall|j: int| 0 <= j < shown.len() ==> #[trigger] shown[j] == 0xfe,
    ensures
        forall|s: TextScreen| put_str_spec(s, shown) == put_str_spec(s, encode_scalar(v)),
{
    let e = encode_scalar(v);
    assert forall|j: int| 0 <= j < e.len() implies #[trigger] e[j] >= 0x80 by {
        let l1: u8 = ((v >> 6u32) & 0x1Fu32) as u8;
        let l2: u8 = ((v >> 12u32) & 0x0Fu32) as u8;
        let l3: u8 = ((v >> 18u32) & 0x7u32) as u8;
        let c0: u8 = (v & 0x3Fu32) as u8;
        let c1: u8 = ((v >> 6u32) & 0x3Fu32) as u8;
        let c2: u8 = ((v >> 12u32) & 0x3Fu32) as u8;
        assert(0xC0u8 | l1 >= 0x80u8) by (bit_vector);
        assert(0xE0u8 | l2 >= 0x80u8) by (bit_vector);
        assert(0xF0u8 | l3 >= 0x80u8) by (bit_vector);
        assert(0x80u8 | c0 >= 0x80u8) by (bit_vector);
        assert(0x80u8 | c1 >= 0x80u8) by (bit_vector);
        assert(0x80u8 | c2 >= 0x80u8) by (bit_vector);
    }
    assert forall|s: TextScreen| put_str_spec(s, shown) == put_str_spec(s, e) by {
        lemma_same_shown(s, shown, e);
    }
}

/// Strings whose bytes show alike leave the screen alike.
proof fn lemma_same_shown(s: TextScreen, a: Seq<u8>, b: Seq<u8>)
    requires
        a.len() == b.len(),
        forall|j: int| 0 <= j < a.len() ==> shown_byte(a[j]) == shown_byte(#[trigger] b[j]),
    ensures
        put_str_spec(s, a) == put_str_spec(s, b),
    decreases a.len(),
{
    if a.len() > 0 {
        assert(shown_byte(a[0]) == shown_byte(b[0]));
        let t = put_byte_spec(s, shown_byte(a[0]));
        assert forall|j: int| 0 <= j < a.drop_first().len() implies shown_byte(a.drop_first()[j])
            == shown_byte(#[trigger] b.drop_first()[j]) by {
            assert(shown_byte(a[j + 1]) == shown_byte(b[j + 1]));
        }
        lemma_same_shown(t, a.drop_first(), b.drop_first());
    }
}

} // verus!
