use vstd::prelude::*;
use vstd::string::StringSliceAdditionalSpecFns;

verus! {

/// The sixteen colours of the text-mode palette.
#[derive(Clone, Copy, Debug, PartialEq, Eq, Structural)]
pub enum Color {
    Black,
    Blue,
    Green,
    Cyan,
    Red,
    Magenta,
    Brown,
    LightGray,
    DarkGray,
    LightBlue,
    LightGreen,
    LightCyan,
    LightRed,
    Pink,
    Yellow,
    White,
}

/// The palette number of a colour, in the order of the palette.
pub open spec fn color_number(c: Color) -> u8 {
    match c {
        Color::Black => 0,
        Color::Blue => 1,
        Color::Green => 2,
        Color::Cyan => 3,
        Color::Red => 4,
        Color::Magenta => 5,
        Color::Brown => 6,
        Color::LightGray => 7,
        Color::DarkGray => 8,
        Color::LightBlue => 9,
        Color::LightGreen => 10,
        Color::LightCyan => 11,
        Color::LightRed => 12,
        Color::Pink => 13,
        Color::Yellow => 14,
        Color::White => 15,
    }
}

impl Color {
    /// The colour's palette number.
    pub fn as_u8(self) -> (r: u8)
        ensures
            r == color_number(self),
            r < 16,
    {
        match self {
            Color::Black => 0,
            Color::Blue => 1,
            Color::Green => 2,
            Color::Cyan => 3,
            Color::Red => 4,
            Color::Magenta => 5,
            Color::Brown => 6,
            Color::LightGray => 7,
            Color::DarkGray => 8,
            Color::LightBlue => 9,
            Color::LightGreen => 10,
            Color::LightCyan => 11,
            Color::LightRed => 12,
            Color::Pink => 13,
            Color::Yellow => 14,
            Color::White => 15,
        }
    }
}

/// A foreground and background colour packed in one attribute byte.
#[derive(Clone, Copy, Debug, PartialEq, Eq, Structural)]
pub struct ColorCode(pub u8);

impl ColorCode {
    /// Background in the high four bits, foreground in the low four.
    pub fn new(fore: Color, back: Color) -> (r: Self)
        ensures
            r.0 == 16 * color_number(back) + color_number(fore),
    {
        let f = fore.as_u8();
        let b = back.as_u8();
        let packed = (b << 4u8) | f;
        assert(((b << 4u8) | f) == 16 * b + f) by (bit_vector)
            requires
                b < 16,
                f < 16,
        ;
        ColorCode(packed)
    }
}

/// Rows of the text screen.
pub const BUFFER_HEIGHT: usize = 25;

/// Columns of the text screen.
pub const BUFFER_WIDTH: usize = 80;

/// Cells of the text screen, row after row.
pub const BUFFER_CELLS: usize = 2000;

/// One cell of the text screen: a character and its colours.
#[derive(Clone, Copy, Debug, PartialEq, Eq, Structural)]
pub struct ScreenChar {
    pub ascii_ch: u8,
    pub color: ColorCode,
}

/// A space in the given colours.
pub open spec fn blank(color: ColorCode) -> ScreenChar {
    ScreenChar { ascii_ch: 0x20, color }
}

/// The screen moved up one row: the top row is lost and the bottom row is blank.
pub open spec fn scrolled(cells: Seq<ScreenChar>, color: ColorCode) -> Seq<ScreenChar> {
    Seq::new(
        BUFFER_CELLS as nat,
        |i: int|
            if i < BUFFER_CELLS - BUFFER_WIDTH {
                cells[i + BUFFER_WIDTH]
            } else {
                blank(color)
            },
    )
}

/// The screen and column after writing byte `b`: a newline scrolls; any
/// other byte goes to the bottom row at the column, after a scroll when the
/// row is full.
pub open spec fn put_byte(cells: Seq<ScreenChar>, col: int, color: ColorCode, b: u8) -> (Seq<ScreenChar>, int) {
    if b == 10 {
        (scrolled(cells, color), 0)
    } else if col >= BUFFER_WIDTH {
        (scrolled(cells, color).update(BUFFER_CELLS - BUFFER_WIDTH, ScreenChar { ascii_ch: b, color }), 1)
    } else {
        (cells.update(BUFFER_CELLS - BUFFER_WIDTH + col, ScreenChar { ascii_ch: b, color }), col + 1)
    }
}

/// The byte shown for `b`: printable ASCII and newline as they are, any
/// other byte as a block.
pub open spec fn shown(b: u8) -> u8 {
    if (0x20 <= b && b <= 0x7e) || b == 10 {
        b
    } else {
        0xfe
    }
}

/// The screen and column after writing the bytes `bs` in order.
pub open spec fn put_bytes(cells: Seq<ScreenChar>, col: int, color: ColorCode, bs: Seq<u8>) -> (Seq<ScreenChar>, int)
    decreases bs.len(),
{
    if bs.len() == 0 {
        (cells, col)
    } else {
        let prev = put_bytes(cells, col, color, bs.drop_last());
        put_byte(prev.0, prev.1, color, shown(bs.last()))
    }
}

/// The text screen as the kernel writes it: new text goes to the bottom row
/// and older rows scroll up. The cells mirror the text-mode buffer; showing
/// them is left to the caller.
pub struct Writer {
    col: usize,
    color: ColorCode,
    cells: [ScreenChar; BUFFER_CELLS],
}

impl Writer {
    pub closed spec fn cells(&self) -> Seq<ScreenChar> {
        self.cells@
    }

    /// The column of the bottom row the next character goes to.
    pub closed spec fn col(&self) -> int {
        self.col as int
    }

    pub closed spec fn color(&self) -> ColorCode {
        self.color
    }

    pub closed spec fn wf(&self) -> bool {
        self.col <= BUFFER_WIDTH
    }

    /// A blank screen written in `color`.
    pub fn new(color: ColorCode) -> (r: Self)
        ensures
            r.wf(),
            r.col() == 0,
            r.color() == color,
            r.cells() == Seq::new(BUFFER_CELLS as nat, |i: int| blank(color)),
    {
        let r = Writer { col: 0, color, cells: [ScreenChar { ascii_ch: 0x20, color }; BUFFER_CELLS] };
        assert(r.cells() =~= Seq::new(BUFFER_CELLS as nat, |i: int| blank(color)));
        r
    }

    /// The cell at `index`, row after row.
    pub fn cell(&self, index: usize) -> (r: ScreenChar)
        requires
            index < BUFFER_CELLS,
        ensures
            r == self.cells()[index as int],
    {
        self.cells[index]
    }

    /// Fills row `row` with blanks.
    pub fn clear_row(&mut self, row: usize)
        requires
            row < BUFFER_HEIGHT,
        ensures
            final(self).col() == old(self).col(),
            final(self).color() == old(self).color(),
            final(self).cells() == Seq::new(
                BUFFER_CELLS as nat,
                |i: int|
                    if row * BUFFER_WIDTH <= i < (row + 1) * BUFFER_WIDTH {
                        blank(old(self).color())
                    } else {
                        old(self).cells()[i]
                    },
            ),
    {
        let b = ScreenChar { ascii_ch: 0x20, color: self.color };
        let base = row * BUFFER_WIDTH;
        let mut c: usize = 0;
        while c < BUFFER_WIDTH
            invariant
                c <= BUFFER_WIDTH,
                base == row * BUFFER_WIDTH,
                row < BUFFER_HEIGHT,
                b == blank(old(self).color()),
                self.col == old(self).col,
                self.color == old(self).color,
                forall|i: int|
                    0 <= i < BUFFER_CELLS ==> #[trigger] self.cells@[i] == if base <= i < base + c {
                        b
                    } else {
                        old(self).cells@[i]
                    },
            decreases BUFFER_WIDTH - c,
        {
            self.cells[base + c] = b;
            c = c + 1;
        }
        assert(self.cells() =~= Seq::new(
            BUFFER_CELLS as nat,
            |i: int|
                if row * BUFFER_WIDTH <= i < (row + 1) * BUFFER_WIDTH {
                    blank(old(self).color())
                } else {
                    old(self).cells()[i]
                },
        ));
    }

    /// Moves every row up one, blanks the bottom row, and starts it at column 0.
    pub fn new_line(&mut self)
        ensures
            final(self).wf(),
            final(self).col() == 0,
            final(self).color() == old(self).color(),
            final(self).cells() == scrolled(old(self).cells(), old(self).color()),
    {
        let mut i: usize = 0;
        while i < BUFFER_CELLS - BUFFER_WIDTH
            invariant
                i <= BUFFER_CELLS - BUFFER_WIDTH,
                self.color == old(self).color,
                forall|j: int|
                    0 <= j < BUFFER_CELLS ==> #[trigger] self.cells@[j] == if j < i {
                        old(self).cells@[j + BUFFER_WIDTH]
                    } else {
                        old(self).cells@[j]
                    },
            decreases BUFFER_CELLS - BUFFER_WIDTH - i,
        {
            let c = self.cells[i + BUFFER_WIDTH];
            self.cells[i] = c;
            i = i + 1;
        }
        self.clear_row(BUFFER_HEIGHT - 1);
        self.col = 0;
        assert(self.cells() =~= scrolled(old(self).cells(), old(self).color()));
    }

    /// Blanks every row but the top one and starts the bottom row at column 0.
    pub fn clear(&mut self)
        ensures
            final(self).wf(),
            final(self).col() == 0,
            final(self).color() == old(self).color(),
            final(self).cells() == Seq::new(
                BUFFER_CELLS as nat,
                |i: int|
                    if i < BUFFER_WIDTH {
                        old(self).cells()[i]
                    } else {
                        blank(old(self).color())
                    },
            ),
    {
        let mut row: usize = 1;
        while row < BUFFER_HEIGHT
            invariant
                1 <= row <= BUFFER_HEIGHT,
                self.color == old(self).color,
                forall|j: int|
                    0 <= j < BUFFER_CELLS ==> #[trigger] self.cells@[j] == if BUFFER_WIDTH <= j < row
                        * BUFFER_WIDTH {
                        blank(old(self).color)
                    } else {
                        old(self).cells@[j]
                    },
            decreases BUFFER_HEIGHT - row,
        {
            self.clear_row(row);
            row = row + 1;
        }
        self.col = 0;
        assert(self.cells() =~= Seq::new(
            BUFFER_CELLS as nat,
            |i: int|
                if i < BUFFER_WIDTH {
                    old(self).cells()[i]
                } else {
                    blank(old(self).color())
                },
        ));
    }

    /// Writes one byte: a newline scrolls; any other byte goes to the bottom
    /// row, after a scroll when the row is full.
    pub fn write_byte(&mut self, b: u8)
        requires
            old(self).wf(),
        ensures
            final(self).wf(),
            final(self).color() == old(self).color(),
            (final(self).cells(), final(self).col()) == put_byte(
                old(self).cells(),
                old(self).col(),
                old(self).color(),
                b,
            ),
    {
        if b == 10 {
            self.new_line();
        } else {
            if self.col >= BUFFER_WIDTH {
                self.new_line();
            }
            let row = BUFFER_HEIGHT - 1;
            let col = self.col;
            let color = self.color;
            self.cells[row * BUFFER_WIDTH + col] = ScreenChar { ascii_ch: b, color };
            self.col = self.col + 1;
            proof {
                let expect = put_byte(old(self).cells(), old(self).col(), old(self).color(), b);
                assert(self.cells() =~= expect.0);
            }
        }
    }

    /// Writes a string byte by byte; a byte that is neither printable ASCII
    /// nor a newline shows as a block.
    pub fn write_string(&mut self, s: &str)
        requires
            old(self).wf(),
        ensures
            final(self).wf(),
            final(self).color() == old(self).color(),
            (final(self).cells(), final(self).col()) == put_bytes(
                old(self).cells(),
                old(self).col(),
                old(self).color(),
                s.spec_bytes(),
            ),
    {
        let bytes = s.as_bytes();
        let mut i: usize = 0;
        while i < bytes.len()
            invariant
                i <= bytes@.len(),
                bytes@ == s.spec_bytes(),
                self.wf(),
                self.color == old(self).color,
                (self.cells(), self.col()) == put_bytes(
                    old(self).cells(),
                    old(self).col(),
                    old(self).color(),
                    bytes@.take(i as int),
                ),
            decreases bytes@.len() - i,
        {
            let byte = bytes[i];
            let out = if (0x20 <= byte && byte <= 0x7e) || byte == 10 {
                byte
            } else {
                0xfe
            };
            self.write_byte(out);
            proof {
                assert(bytes@.take(i + 1).drop_last() =~= bytes@.take(i as int));
            }
            i = i + 1;
        }
        proof {
            assert(bytes@.take(bytes@.len() as int) =~= bytes@);
        }
    }
}

impl Default for Writer {
    /// A blank screen in yellow on black.
    fn default() -> (r: Self)
        ensures
            r.wf(),
            r.col() == 0,
            r.color().0 == 16 * color_number(Color::Black) + color_number(Color::Yellow),
            r.cells() == Seq::new(BUFFER_CELLS as nat, |i: int| blank(r.color())),
    {
        Writer::new(ColorCode::new(Color::Yellow, Color::Black))
    }
}

} // verus!
