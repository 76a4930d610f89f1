//! The VGA text-mode terminal: colors, the screen and its cursor.
use vstd::prelude::*;
use vstd::string::StringSliceAdditionalSpecFns;

verus! {

/// The sixteen VGA text colors.
#[derive(Clone, Copy, PartialEq, Eq, Debug)]
pub enum Color {
    Black,
    Blue,
    Green,
    Cyan,
    Red,
    Magenta,
    Brown,
    LightGray,
    DarkGray,
    LightBlue,
    LightGreen,
    LightCyan,
    LightRed,
    Pink,
    Yellow,
    White,
}

/// The 4-bit VGA code of a color.
pub open spec fn color_code(c: Color) -> u8 {
    match c {
        Color::Black => 0,
        Color::Blue => 1,
        Color::Green => 2,
        Color::Cyan => 3,
        Color::Red => 4,
        Color::Magenta => 5,
        Color::Brown => 6,
        Color::LightGray => 7,
        Color::DarkGray => 8,
        Color::LightBlue => 9,
        Color::LightGreen => 10,
        Color::LightCyan => 11,
        Color::LightRed => 12,
        Color::Pink => 13,
        Color::Yellow => 14,
        Color::White => 15,
    }
}

impl Color {
    /// The 4-bit VGA code of this color.
    pub fn code(&self) -> (r: u8)
        ensures
            r == color_code(*self),
            r < 16,
    {
        match self {
            Color::Black => 0,
            Color::Blue => 1,
            Color::Green => 2,
            Color::Cyan => 3,
            Color::Red => 4,
            Color::Magenta => 5,
            Color::Brown => 6,
            Color::LightGray => 7,
            Color::DarkGray => 8,
            Color::LightBlue => 9,
            Color::LightGreen => 10,
            Color::LightCyan => 11,
            Color::LightRed => 12,
            Color::Pink => 13,
            Color::Yellow => 14,
            Color::White => 15,
        }
    }
}

/// A foreground and background color, as the attribute byte of a screen cell.
#[derive(Clone, Copy, PartialEq, Eq, Debug)]
pub struct ColorCode(pub u8);

impl ColorCode {
    /// Background in the high nibble, foreground in the low one.
    pub fn new(fg: Color, bg: Color) -> (r: ColorCode)
        ensures
            r.0 == color_code(bg) * 16 + color_code(fg),
    {
        let b = bg.code();
        let f = fg.code();
        assert((b << 4u8) | f == b * 16 + f) by (bit_vector)
            requires b < 16u8, f < 16u8;
        ColorCode((b << 4) | f)
    }
}

/// One cell of the screen: a character and its colors.
#[derive(Clone, Copy, PartialEq, Eq, Debug)]
pub struct ScreenChar {
    pub ascii: u8,
    pub color: ColorCode,
}

/// Rows of the screen.
pub const BUFFER_HEIGHT: usize = 25;
/// Columns of the screen.
pub const BUFFER_WIDTH: usize = 80;
/// Size in bytes of the text framebuffer: two bytes per cell.
pub const FB_SIZE: usize = 4000;

/// A blank cell in `color`.
pub open spec fn blank(color: ColorCode) -> ScreenChar {
    ScreenChar { ascii: 32, color }
}

/// What the terminal shows and where its cursor is.
pub struct TextState {
    pub row: int,
    pub col: int,
    pub color: ColorCode,
    pub cells: Seq<ScreenChar>,
}

/// `cells` with row `r` blanked in `color`.
pub open spec fn cleared_row(cells: Seq<ScreenChar>, r: int, color: ColorCode) -> Seq<ScreenChar> {
    Seq::new(cells.len(), |i: int| if r * 80 <= i < r * 80 + 80 { blank(color) } else { cells[i] })
}

/// Every row moved up by one, the last row blanked, the cursor at the start of the row
/// above.
pub open spec fn scrolled(s: TextState) -> TextState {
    TextState {
        row: s.row - 1,
        col: 0,
        color: s.color,
        cells: Seq::new(s.cells.len(), |i: int| if i < 24 * 80 { s.cells[i + 80] } else { blank(s.color) }),
    }
}

/// The cursor to the start of the next row, scrolling when it falls off the screen.
pub open spec fn line_broken(s: TextState) -> TextState {
    let t = TextState { row: s.row + 1, col: 0, ..s };
    if t.row >= 25 { scrolled(t) } else { t }
}

/// The terminal after byte `b` is written: a newline breaks the line; any other byte goes
/// in the cell at the cursor (after a line break when the row is full), and the cursor
/// moves right.
pub open spec fn byte_written(s: TextState, b: u8) -> TextState {
    if b == 10 {
        line_broken(s)
    } else {
        let t = if s.col >= 80 { line_broken(s) } else { s };
        TextState {
            col: t.col + 1,
            cells: t.cells.update(t.row * 80 + t.col, ScreenChar { ascii: b, color: t.color }),
            ..t
        }
    }
}

/// The terminal after the bytes `bs` are written, in order.
pub open spec fn bytes_written(s: TextState, bs: Seq<u8>) -> TextState
    decreases bs.len(),
{
    if bs.len() == 0 {
        s
    } else {
        byte_written(bytes_written(s, bs.drop_last()), bs.last())
    }
}

/// A terminal writer.
pub trait Writer {
    /// The writer's invariant.
    spec fn inv(&self) -> bool;

    /// What the terminal shows and where its cursor is.
    spec fn state(&self) -> TextState;

    /// Writes one byte.
    fn write_byte(&mut self, byte: u8)
        requires
            old(self).inv(),
        ensures
            final(self).inv(),
            final(self).state() == byte_written(old(self).state(), byte),
    ;

    /// Moves to the next line.
    fn line_break(&mut self)
        requires
            old(self).inv(),
        ensures
            final(self).inv(),
    ;

    /// Blanks row `row`.
    fn clear_row(&mut self, row: usize)
        requires
            old(self).inv(),
            row < 25,
        ensures
            final(self).inv(),
    ;

    /// Moves every row up by one.
    fn scroll(&mut self)
        requires
            old(self).inv(),
        ensures
            final(self).inv(),
    ;

    /// Blanks the screen and moves to its top.
    fn clear(&mut self)
        requires
            old(self).inv(),
        ensures
            final(self).inv(),
    ;

    /// Sets the colors of what is written next.
    fn set_color(&mut self, fg: Color, bg: Color)
        requires
            old(self).inv(),
        ensures
            final(self).inv(),
    ;

    /// Writes the bytes of `s`, in order.
    fn write_string(&mut self, s: &str)
        requires
            old(self).inv(),
        ensures
            final(self).inv(),
            final(self).state() == bytes_written(old(self).state(), s.spec_bytes()),
    {
        let bytes = s.as_bytes();
        let n = bytes.len();
        let mut i: usize = 0;
        proof {
            assert(bytes@.take(0) =~= Seq::<u8>::empty());
        }
        while i < n
            invariant
                self.inv(),
                i <= n,
                n == bytes@.len(),
                bytes@ == s.spec_bytes(),
                self.state() == bytes_written(old(self).state(), bytes@.take(i as int)),
            decreases n - i,
        {
            proof {
                assert(bytes@.take(i + 1).drop_last() =~= bytes@.take(i as int));
                assert(bytes@.take(i + 1).last() == bytes@[i as int]);
            }
            self.write_byte(bytes[i]);
            i = i + 1;
        }
        proof {
            assert(bytes@.take(n as int) =~= bytes@);
        }
    }
}

/// The VGA text-mode writer: cursor, colors and the 25 x 80 cells, row after row.
pub struct TextWriter {
    row: usize,
    col: usize,
    color: ColorCode,
    buffer: Vec<ScreenChar>,
}

proof fn lemma_cell(r: int, c: int)
    requires
        0 <= r < 25,
        0 <= c < 80,
    ensures
        0 <= r * 80 + c < 2000,
{
    assert(0 <= r * 80 + c < 2000) by (nonlinear_arith)
        requires 0 <= r < 25, 0 <= c < 80;
}

impl TextWriter {
    pub closed spec fn wf(&self) -> bool {
        &&& self.row < 25
        &&& self.col <= 80
        &&& self.buffer@.len() == 2000
    }

    /// The state of the terminal.
    pub closed spec fn view(&self) -> TextState {
        TextState { row: self.row as int, col: self.col as int, color: self.color, cells: self.buffer@ }
    }

    /// A writer is well formed exactly when its cursor is on the screen (a column of 80
    /// meaning the row is full) and it has 25 x 80 cells.
    pub proof fn lemma_wf(&self)
        ensures
            self.wf() <==> (0 <= self@.row < 25 && 0 <= self@.col <= 80 && self@.cells.len() == 2000),
    {
    }

    /// A writer at the top left of a blank screen, light gray on black.
    pub fn new() -> (r: TextWriter)
        ensures
            r.wf(),
            r.inv(),
            r@.row == 0 && r@.col == 0,
            r@.color.0 == 7,
            r@.cells == Seq::new(2000, |i: int| blank(r@.color)),
    {
        let color = ColorCode::new(Color::LightGray, Color::Black);
        let mut buffer: Vec<ScreenChar> = Vec::new();
        let mut i: usize = 0;
        while i < 2000
            invariant
                i <= 2000,
                buffer@ == Seq::new(i as nat, |j: int| blank(color)),
            decreases 2000 - i,
        {
            buffer.push(ScreenChar { ascii: 32u8, color });
            i = i + 1;
            proof {
                assert(buffer@ =~= Seq::new(i as nat, |j: int| blank(color)));
            }
        }
        TextWriter { row: 0, col: 0, color, buffer }
    }

    /// The cell at row `r`, column `c`.
    pub fn cell(&self, r: usize, c: usize) -> (s: ScreenChar)
        requires
            self.wf(),
            r < 25,
            c < 80,
        ensures
            s == self@.cells[r * 80 + c],
    {
        proof {
            lemma_cell(r as int, c as int);
        }
        self.buffer[r * BUFFER_WIDTH + c]
    }

    /// The cursor: row and column.
    pub fn cursor(&self) -> (r: (usize, usize))
        ensures
            r.0 == self@.row && r.1 == self@.col,
    {
        (self.row, self.col)
    }

    /// The cursor row may be one past the last row, on its way to a scroll.
    closed spec fn loose(&self) -> bool {
        &&& self.row <= 25
        &&& self.col <= 80
        &&& self.buffer@.len() == 2000
    }

    fn do_clear_row(&mut self, row: usize)
        requires
            old(self).loose(),
            row < 25,
        ensures
            final(self).loose(),
            final(self)@ == (TextState { cells: cleared_row(old(self)@.cells, row as int, old(self)@.color), ..old(self)@ }),
    {
        let mut col: usize = 0;
        while col < BUFFER_WIDTH
            invariant
                self.loose(),
                row < 25,
                col <= 80,
                self.row == old(self).row,
                self.col == old(self).col,
                self.color == old(self).color,
                self.buffer@ == Seq::new(2000, |i: int| if row * 80 <= i < row * 80 + col { blank(self.color) } else { old(self).buffer@[i] }),
            decreases 80 - col,
        {
            proof {
                lemma_cell(row as int, col as int);
            }
            self.buffer.set(row * BUFFER_WIDTH + col, ScreenChar { ascii: 32u8, color: self.color });
            col = col + 1;
            proof {
                assert(self.buffer@ =~= Seq::new(2000, |i: int| if row * 80 <= i < row * 80 + col { blank(self.color) } else { old(self).buffer@[i] }));
            }
        }
        proof {
            assert(self.buffer@ =~= cleared_row(old(self)@.cells, row as int, old(self)@.color));
        }
    }

    fn do_scroll(&mut self)
        requires
            old(self).loose(),
            old(self).row >= 1,
        ensures
            final(self).wf(),
            final(self)@ == scrolled(old(self)@),
    {
        let mut i: usize = 0;
        while i < 24 * 80
            invariant
                self.loose(),
                i <= 24 * 80,
                self.row == old(self).row,
                self.col == old(self).col,
                self.color == old(self).color,
                self.buffer@ == Seq::new(2000, |j: int| if j < i { old(self).buffer@[j + 80] } else { old(self).buffer@[j] }),
            decreases 24 * 80 - i,
        {
            let c = self.buffer[i + BUFFER_WIDTH];
            self.buffer.set(i, c);
            i = i + 1;
            proof {
                assert(self.buffer@ =~= Seq::new(2000, |j: int| if j < i { old(self).buffer@[j + 80] } else { old(self).buffer@[j] }));
            }
        }
        self.do_clear_row(BUFFER_HEIGHT - 1);
        self.col = 0;
        self.row = self.row - 1;
        proof {
            assert(self.buffer@ =~= scrolled(old(self)@).cells);
        }
    }

    fn do_line_break(&mut self)
        requires
            old(self).wf(),
        ensures
            final(self).wf(),
            final(self)@ == line_broken(old(self)@),
    {
        self.row = self.row + 1;
        self.col = 0;
        if self.row >= BUFFER_HEIGHT {
            self.do_scroll();
        }
    }

    fn do_write_byte(&mut self, byte: u8)
        requires
            old(self).wf(),
        ensures
            final(self).wf(),
            final(self)@ == byte_written(old(self)@, byte),
    {
        if byte == 10u8 {
            self.do_line_break();
        } else {
            if self.col >= BUFFER_WIDTH {
                self.do_line_break();
            }
            proof {
                lemma_cell(self.row as int, self.col as int);
            }
            self.buffer.set(self.row * BUFFER_WIDTH + self.col, ScreenChar { ascii: byte, color: self.color });
            self.col = self.col + 1;
        }
    }
}

impl Writer for TextWriter {
    open spec fn inv(&self) -> bool {
        self.wf()
    }

    open spec fn state(&self) -> TextState {
        self@
    }

    fn write_byte(&mut self, byte: u8)
        ensures
            final(self)@ == byte_written(old(self)@, byte),
    {
        self.do_write_byte(byte);
    }

    fn line_break(&mut self)
        ensures
            final(self)@ == line_broken(old(self)@),
    {
        self.do_line_break();
    }

    fn clear_row(&mut self, row: usize)
        ensures
            final(self)@ == (TextState { cells: cleared_row(old(self)@.cells, row as int, old(self)@.color), ..old(self)@ }),
    {
        self.do_clear_row(row);
    }

    fn scroll(&mut self)
        ensures
            old(self)@.row >= 1 ==> final(self)@ == scrolled(old(self)@),
            old(self)@.row == 0 ==> final(self)@ == (TextState { row: 0, ..scrolled(TextState { row: 1, ..old(self)@ }) }),
    {
        if self.row == 0 {
            self.row = 1;
            self.do_scroll();
        } else {
            self.do_scroll();
        }
    }

    fn clear(&mut self)
        ensures
            final(self)@ == (TextState { row: 0, col: 0, color: old(self)@.color, cells: Seq::new(2000, |i: int| blank(old(self)@.color)) }),
    {
        let mut i: usize = 0;
        while i < BUFFER_HEIGHT
            invariant
                self.wf(),
                i <= 25,
                self.color == old(self).color,
                self.row == old(self).row,
                self.col == old(self).col,
                self.buffer@ == Seq::new(2000, |j: int| if j < i * 80 { blank(self.color) } else { old(self).buffer@[j] }),
            decreases 25 - i,
        {
            self.do_clear_row(i);
            i = i + 1;
            proof {
                assert(self.buffer@ =~= Seq::new(2000, |j: int| if j < i * 80 { blank(self.color) } else { old(self).buffer@[j] }));
            }
        }
        self.col = 0;
        self.row = 0;
        proof {
            assert(self.buffer@ =~= Seq::new(2000, |i: int| blank(old(self)@.color)));
        }
    }

    fn set_color(&mut self, fg: Color, bg: Color)
        ensures
            final(self)@ == (TextState { color: ColorCode((color_code(bg) * 16 + color_code(fg)) as u8), ..old(self)@ }),
    {
        self.color = ColorCode::new(fg, bg);
    }
}

/// Port writes that move the hardware cursor to column `x`, row `y`: the low byte of the
/// cell index to register 0x0F, then its high byte to register 0x0E.
pub fn mov(x: usize, y: usize) -> (r: Vec<(u16, u8)>)
    requires
        y * 80 + x <= usize::MAX,
    ensures
        r@ == seq![
            (0x3D4u16, 0x0Fu8),
            (0x3D5u16, ((y * 80 + x) % 256) as u8),
            (0x3D4u16, 0x0Eu8),
            (0x3D5u16, (((y * 80 + x) / 256) % 256) as u8),
        ],
{
    let pos = y * BUFFER_WIDTH + x;
    let mut r: Vec<(u16, u8)> = Vec::new();
    r.push((0x3D4, 0x0F));
    r.push((0x3D5, pos as u8));
    r.push((0x3D4, 0x0E));
    r.push((0x3D5, (pos >> 8) as u8));
    proof {
        assert((pos as u8) as int == pos % 256 && ((pos >> 8usize) as u8) as int == (pos / 256) % 256) by (bit_vector);
        assert(r@ =~= seq![
            (0x3D4u16, 0x0Fu8),
            (0x3D5u16, ((y * 80 + x) % 256) as u8),
            (0x3D4u16, 0x0Eu8),
            (0x3D5u16, (((y * 80 + x) / 256) % 256) as u8),
        ]);
    }
    r
}

/// First cursor-shape register: keeps the two high bits read, sets the first scan line 0.
pub fn cursor_start_value(read: u8) -> (r: u8)
    ensures
        r == (read & 0xC0) | 0,
{
    (read & 0xC0) | 0
}

/// Second cursor-shape register: keeps the three high bits read, sets the last scan line 15.
pub fn cursor_end_value(read: u8) -> (r: u8)
    ensures
        r == (read & 0xE0) | 15,
{
    (read & 0xE0) | 15
}

} // verus!
