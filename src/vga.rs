//! A model of the VGA text screen: the colours, the attribute byte and the
//! cells, with a writer that appends bytes to the bottom line and scrolls.
use vstd::prelude::*;

verus! {

/// The sixteen colours of the VGA text mode palette.
#[derive(Debug, Clone, Copy, PartialEq, Eq, Structural)]
pub enum Color {
    Black,
    Blue,
    Green,
    Cyan,
    Red,
    Magenta,
    Brown,
    LightGray,
    DarkGray,
    LightBlue,
    LightGreen,
    LightCyan,
    LightRed,
    Pink,
    Yellow,
    White,
}

/// The palette index of each colour.
pub open spec fn color_index(c: Color) -> u8 {
    match c {
        Color::Black => 0,
        Color::Blue => 1,
        Color::Green => 2,
        Color::Cyan => 3,
        Color::Red => 4,
        Color::Magenta => 5,
        Color::Brown => 6,
        Color::LightGray => 7,
        Color::DarkGray => 8,
        Color::LightBlue => 9,
        Color::LightGreen => 10,
        Color::LightCyan => 11,
        Color::LightRed => 12,
        Color::Pink => 13,
        Color::Yellow => 14,
        Color::White => 15,
    }
}

impl Color {
    /// The colour's palette index.
    pub fn index(self) -> (r: u8)
        ensures
            r == color_index(self),
            r < 16,
    {
        match self {
            Color::Black => 0,
            Color::Blue => 1,
            Color::Green => 2,
            Color::Cyan => 3,
            Color::Red => 4,
            Color::Magenta => 5,
            Color::Brown => 6,
            Color::LightGray => 7,
            Color::DarkGray => 8,
            Color::LightBlue => 9,
            Color::LightGreen => 10,
            Color::LightCyan => 11,
            Color::LightRed => 12,
            Color::Pink => 13,
            Color::Yellow => 14,
            Color::White => 15,
        }
    }
}

/// The attribute byte of a cell: background in the high four bits,
/// foreground in the low four.
#[derive(Debug, Clone, Copy, PartialEq, Eq, Structural)]
pub struct ColorCode(pub u8);

impl ColorCode {
    /// The attribute byte for `foreground` text on `background`.
    pub fn new(foreground: Color, background: Color) -> (r: ColorCode)
        ensures
            r.0 == 16 * color_index(background) + color_index(foreground),
    {
        let fg = foreground.index();
        let bg = background.index();
        let r = ColorCode((bg << 4u8) | fg);
        assert((bg << 4u8) | fg == 16 * bg + fg) by (bit_vector)
            requires
                bg < 16,
                fg < 16,
        ;
        r
    }
}

/// One cell of the screen: a byte of text and its attribute.
#[derive(Debug, Clone, Copy, PartialEq, Eq, Structural)]
pub struct Char {
    pub ascii_char: u8,
    pub color: ColorCode,
}

/// Number of columns of the screen.
pub const BUFFER_WIDTH: usize = 80;

/// Number of lines of the screen.
pub const BUFFER_HEIGHT: usize = 25;

/// Number of cells of the screen.
pub const BUFFER_SIZE: usize = 2000;

/// The cells after scrolling up one line: the top line is lost and a blank
/// line of `blank` cells enters at the bottom.
pub open spec fn scrolled(cells: Seq<Char>, blank: Char) -> Seq<Char> {
    cells.subrange(BUFFER_WIDTH as int, BUFFER_SIZE as int) + Seq::new(
        BUFFER_WIDTH as nat,
        |i: int| blank,
    )
}

/// A blank cell in colour `color`.
pub open spec fn blank_cell(color: ColorCode) -> Char {
    Char { ascii_char: 32, color }
}

/// Writes text at the bottom line of the screen, row by row, from left to
/// right, scrolling the screen up when a line ends.
pub struct Writer {
    column: usize,
    color: ColorCode,
    chars: Vec<Char>,
}

impl Writer {
    /// The cells, line after line from the top.
    pub closed spec fn cells(&self) -> Seq<Char> {
        self.chars@
    }

    /// The column at which the next byte goes.
    pub closed spec fn column(&self) -> int {
        self.column as int
    }

    /// The attribute given to the text written.
    pub closed spec fn color(&self) -> ColorCode {
        self.color
    }

    /// The screen has all its cells and the column is on it or just past it.
    pub closed spec fn wf(&self) -> bool {
        self.chars@.len() == BUFFER_SIZE && self.column <= BUFFER_WIDTH
    }

    /// A blank screen that writes in `color`, from column 0.
    pub fn new(color: ColorCode) -> (r: Writer)
        ensures
            r.wf(),
            r.cells() == Seq::new(BUFFER_SIZE as nat, |i: int| blank_cell(color)),
            r.column() == 0,
            r.color() == color,
    {
        let mut chars: Vec<Char> = Vec::new();
        let mut i: usize = 0;
        while i < BUFFER_SIZE
            invariant
                i <= BUFFER_SIZE,
                chars@ == Seq::new(i as nat, |k: int| blank_cell(color)),
            decreases BUFFER_SIZE - i,
        {
            chars.push(Char { ascii_char: 32u8, color });
            i += 1;
            assert(chars@ =~= Seq::new(i as nat, |k: int| blank_cell(color)));
        }
        Writer { column: 0, color, chars }
    }

    /// The cell at `row` and `col`.
    pub fn cell(&self, row: usize, col: usize) -> (r: Char)
        requires
            self.wf(),
            row < BUFFER_HEIGHT,
            col < BUFFER_WIDTH,
        ensures
            r == self.cells()[row * BUFFER_WIDTH + col],
    {
        self.chars[row * BUFFER_WIDTH + col]
    }

    /// Writes `byte` at the end of the bottom line; a newline byte ends the
    /// line instead. When the bottom line is full, the screen scrolls first.
    pub fn write_byte(&mut self, byte: u8)
        requires
            old(self).wf(),
        ensures
            final(self).wf(),
            final(self).color() == old(self).color(),
            byte == 10 ==> final(self).cells() == scrolled(
                old(self).cells(),
                blank_cell(old(self).color()),
            ) && final(self).column() == 0,
            byte != 10 && old(self).column() < BUFFER_WIDTH ==> final(self).cells()
                == old(self).cells().update(
                (BUFFER_SIZE - BUFFER_WIDTH) + old(self).column(),
                Char { ascii_char: byte, color: old(self).color() },
            ) && final(self).column() == old(self).column() + 1,
            byte != 10 && old(self).column() >= BUFFER_WIDTH ==> final(self).cells()
                == scrolled(old(self).cells(), blank_cell(old(self).color())).update(
                (BUFFER_SIZE - BUFFER_WIDTH) as int,
                Char { ascii_char: byte, color: old(self).color() },
            ) && final(self).column() == 1,
    {
        if byte == 10u8 {
            self.new_line();
        } else {
            if self.column >= BUFFER_WIDTH {
                self.new_line();
            }
            let col = self.column;
            let row = BUFFER_HEIGHT - 1;
            let color_code = self.color;
            self.chars[row * BUFFER_WIDTH + col] = Char { ascii_char: byte, color: color_code };
            self.column += 1;
        }
    }

    /// Scrolls the screen up one line, blanks the bottom line and goes back
    /// to column 0.
    fn new_line(&mut self)
        requires
            old(self).wf(),
        ensures
            final(self).wf(),
            final(self).color() == old(self).color(),
            final(self).cells() == scrolled(old(self).cells(), blank_cell(old(self).color())),
            final(self).column() == 0,
    {
        let ghost before = self.chars@;
        let mut i: usize = BUFFER_WIDTH;
        while i < BUFFER_SIZE
            invariant
                BUFFER_WIDTH <= i <= BUFFER_SIZE,
                self.chars@.len() == BUFFER_SIZE,
                self.color == old(self).color,
                before == old(self).chars@,
                forall|k: int| 0 <= k < i - BUFFER_WIDTH ==> #[trigger] self.chars@[k] == before[k + BUFFER_WIDTH],
                forall|k: int| i - BUFFER_WIDTH <= k < BUFFER_SIZE ==> #[trigger] self.chars@[k] == before[k],
            decreases BUFFER_SIZE - i,
        {
            let c = self.chars[i];
            self.chars[i - BUFFER_WIDTH] = c;
            i += 1;
        }
        self.column = 0;
        let color = self.color;
        let mut col: usize = 0;
        while col < BUFFER_WIDTH
            invariant
                col <= BUFFER_WIDTH,
                self.chars@.len() == BUFFER_SIZE,
                self.color == color,
                self.column == 0,
                color == old(self).color,
                before == old(self).chars@,
                forall|k: int| 0 <= k < BUFFER_SIZE - BUFFER_WIDTH ==> #[trigger] self.chars@[k] == before[k + BUFFER_WIDTH],
                forall|k: int| BUFFER_SIZE - BUFFER_WIDTH <= k < BUFFER_SIZE - BUFFER_WIDTH + col ==> #[trigger] self.chars@[k] == blank_cell(color),
            decreases BUFFER_WIDTH - col,
        {
            self.chars[BUFFER_SIZE - BUFFER_WIDTH + col] = Char { ascii_char: 32u8, color };
            col += 1;
        }
        assert(self.chars@ =~= scrolled(before, blank_cell(color)));
    }
}

} // verus!
