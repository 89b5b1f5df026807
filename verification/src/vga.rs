//! Model of the text-mode screen: color codes, character cells, and a
//! writer that appends at the bottom row and scrolls. The memory-mapped
//! hardware buffer itself lives outside this crate; the model holds the
//! cells as plain values, so every write is bounds-checked and the
//! scrolling behaviour is pinned down exactly.

use vstd::prelude::*;
use vstd::string::StringSliceAdditionalSpecFns;

verus! {

/// Height of the screen buffer in rows.
pub const BUFFER_HEIGHT: usize = 25;

/// Width of the screen buffer in columns.
pub const BUFFER_WIDTH: usize = 80;

/// The sixteen hardware text-mode colors.
#[derive(Debug, Clone, Copy, PartialEq, Eq, Structural)]
pub enum VGAColor {
    Black,
    Blue,
    Green,
    Cyan,
    Red,
    Magenta,
    Brown,
    LightGray,
    DarkGray,
    LightBlue,
    LightGreen,
    LightCyan,
    LightRed,
    Pink,
    Yellow,
    White,
}

impl VGAColor {
    /// The 4-bit hardware code of the color.
    pub open spec fn spec_code(self) -> u8 {
        match self {
            VGAColor::Black => 0,
            VGAColor::Blue => 1,
            VGAColor::Green => 2,
            VGAColor::Cyan => 3,
            VGAColor::Red => 4,
            VGAColor::Magenta => 5,
            VGAColor::Brown => 6,
            VGAColor::LightGray => 7,
            VGAColor::DarkGray => 8,
            VGAColor::LightBlue => 9,
            VGAColor::LightGreen => 10,
            VGAColor::LightCyan => 11,
            VGAColor::LightRed => 12,
            VGAColor::Pink => 13,
            VGAColor::Yellow => 14,
            VGAColor::White => 15,
        }
    }

    /// The 4-bit hardware code of the color.
    pub fn code(self) -> (r: u8)
        ensures
            r == self.spec_code(),
            r < 16,
    {
        match self {
            VGAColor::Black => 0,
            VGAColor::Blue => 1,
            VGAColor::Green => 2,
            VGAColor::Cyan => 3,
            VGAColor::Red => 4,
            VGAColor::Magenta => 5,
            VGAColor::Brown => 6,
            VGAColor::LightGray => 7,
            VGAColor::DarkGray => 8,
            VGAColor::LightBlue => 9,
            VGAColor::LightGreen => 10,
            VGAColor::LightCyan => 11,
            VGAColor::LightRed => 12,
            VGAColor::Pink => 13,
            VGAColor::Yellow => 14,
            VGAColor::White => 15,
        }
    }
}

/// A foreground and background color packed into one attribute byte:
/// background in the high nibble, foreground in the low one.
#[derive(Debug, Clone, Copy, PartialEq, Eq, Structural)]
pub struct VGAColorCode(pub u8);

impl VGAColorCode {
    /// Pack a foreground and a background color into one byte.
    pub fn new(foreground: VGAColor, background: VGAColor) -> (r: VGAColorCode)
        ensures
            r.0 == background.spec_code() * 16 + foreground.spec_code(),
    {
        let f = foreground.code();
        let b = background.code();
        proof {
            assert(b < 16 && f < 16 ==> ((b << 4) | f) == b * 16 + f) by (bit_vector);
        }
        VGAColorCode((b << 4) | f)
    }
}

/// One character cell: an ASCII byte and its color attribute.
#[derive(Debug, Clone, Copy, PartialEq, Eq, Structural)]
pub struct VGAEntry {
    /// The character shown in the cell.
    pub ascii_char: u8,
    /// The color attribute of the cell.
    pub color_code: VGAColorCode,
}

/// The text buffer: `BUFFER_HEIGHT` rows of `BUFFER_WIDTH` cells each.
pub struct VGABuffer {
    /// The rows, top first.
    pub chars: Vec<Vec<VGAEntry>>,
}

/// A blank cell in the given color.
pub open spec fn blank_cell(color: VGAColorCode) -> VGAEntry {
    VGAEntry { ascii_char: 32, color_code: color }
}

/// A whole row of blank cells.
pub open spec fn blank_row(color: VGAColorCode) -> Seq<VGAEntry> {
    Seq::new(BUFFER_WIDTH as nat, |i: int| blank_cell(color))
}

/// The rows moved up by one, with a fresh blank row at the bottom.
pub open spec fn scrolled(rows: Seq<Seq<VGAEntry>>, color: VGAColorCode) -> Seq<Seq<VGAEntry>> {
    Seq::new(
        BUFFER_HEIGHT as nat,
        |r: int| if r < BUFFER_HEIGHT - 1 {
            rows[r + 1]
        } else {
            blank_row(color)
        },
    )
}

/// What one byte does to the screen: a newline scrolls; any other byte
/// lands at the current column of the bottom row, scrolling first when
/// the row is full; the column advances past the written cell.
pub open spec fn putchar_step(
    rows: Seq<Seq<VGAEntry>>,
    col: int,
    color: VGAColorCode,
    byte: u8,
) -> (Seq<Seq<VGAEntry>>, int) {
    let cell = VGAEntry { ascii_char: byte, color_code: color };
    if byte == 10 {
        (scrolled(rows, color), 0)
    } else if col >= BUFFER_WIDTH {
        let s = scrolled(rows, color);
        (s.update(BUFFER_HEIGHT - 1, s[BUFFER_HEIGHT - 1].update(0, cell)), 1)
    } else {
        (rows.update(BUFFER_HEIGHT - 1, rows[BUFFER_HEIGHT - 1].update(col, cell)), col + 1)
    }
}

/// What a whole byte sequence does to the screen, byte by byte.
pub open spec fn write_bytes(
    rows: Seq<Seq<VGAEntry>>,
    col: int,
    color: VGAColorCode,
    bytes: Seq<u8>,
) -> (Seq<Seq<VGAEntry>>, int)
    decreases bytes.len(),
{
    if bytes.len() == 0 {
        (rows, col)
    } else {
        let stepped = putchar_step(rows, col, color, bytes[0]);
        write_bytes(stepped.0, stepped.1, color, bytes.skip(1))
    }
}

/// Writer that appends at the bottom row of the screen buffer.
pub struct ScreenWriter {
    /// Next column of the bottom row to write.
    pub column_position: usize,
    /// The color every written cell gets.
    pub color_code: VGAColorCode,
    /// The modeled screen contents.
    pub buffer: VGABuffer,
}

impl ScreenWriter {
    /// The screen contents, row by row.
    pub open spec fn rows(self) -> Seq<Seq<VGAEntry>> {
        Seq::new(BUFFER_HEIGHT as nat, |r: int| self.buffer.chars@[r]@)
    }

    pub open spec fn wf(self) -> bool {
        &&& self.buffer.chars@.len() == BUFFER_HEIGHT
        &&& forall|r: int|
            0 <= r < BUFFER_HEIGHT ==> (#[trigger] self.buffer.chars@[r])@.len() == BUFFER_WIDTH
        &&& self.column_position <= BUFFER_WIDTH
    }

    /// A writer over a blank screen.
    pub fn new(color_code: VGAColorCode) -> (r: ScreenWriter)
        ensures
            r.wf(),
            r.column_position == 0,
            r.color_code == color_code,
            forall|i: int| 0 <= i < BUFFER_HEIGHT ==> r.rows()[i] == blank_row(color_code),
    {
        let mut chars: Vec<Vec<VGAEntry>> = Vec::new();
        let mut r: usize = 0;
        while r < BUFFER_HEIGHT
            invariant
                r <= BUFFER_HEIGHT,
                chars@.len() == r,
                forall|i: int| 0 <= i < r ==> (#[trigger] chars@[i])@ == blank_row(color_code),
            decreases BUFFER_HEIGHT - r,
        {
            let row = Self::blank_row_vec(color_code);
            chars.push(row);
            r += 1;
        }
        ScreenWriter { column_position: 0, color_code, buffer: VGABuffer { chars } }
    }

    /// A freshly blanked row.
    fn blank_row_vec(color: VGAColorCode) -> (r: Vec<VGAEntry>)
        ensures
            r@ == blank_row(color),
    {
        let mut row: Vec<VGAEntry> = Vec::new();
        let mut c: usize = 0;
        while c < BUFFER_WIDTH
            invariant
                c <= BUFFER_WIDTH,
                row@.len() == c,
                forall|i: int| 0 <= i < c ==> row@[i] == blank_cell(color),
            decreases BUFFER_WIDTH - c,
        {
            row.push(VGAEntry { ascii_char: 32, color_code: color });
            c += 1;
        }
        proof {
            assert(row@ =~= blank_row(color));
        }
        row
    }

    /// Clear row `row` to blanks in the writer's color.
    pub fn clear_row(&mut self, row: usize)
        requires
            old(self).wf(),
            row < BUFFER_HEIGHT,
        ensures
            final(self).wf(),
            final(self).column_position == old(self).column_position,
            final(self).color_code == old(self).color_code,
            final(self).rows() =~= old(self).rows().update(
                row as int,
                blank_row(old(self).color_code),
            ),
    {
        let blank = Self::blank_row_vec(self.color_code);
        self.buffer.chars[row] = blank;
        proof {
            assert(final(self).rows() =~= old(self).rows().update(
                row as int,
                blank_row(old(self).color_code),
            ));
        }
    }

    /// Move every row up by one and blank the bottom row.
    fn new_line(&mut self)
        requires
            old(self).wf(),
        ensures
            final(self).wf(),
            final(self).color_code == old(self).color_code,
            final(self).column_position == 0,
            final(self).rows() =~= scrolled(old(self).rows(), old(self).color_code),
    {
        let _dropped = self.buffer.chars.remove(0);
        let blank = Self::blank_row_vec(self.color_code);
        self.buffer.chars.push(blank);
        self.column_position = 0;
        proof {
            assert(final(self).rows() =~= scrolled(old(self).rows(), old(self).color_code));
        }
    }

    /// Write one byte at the current position; a newline only scrolls.
    pub fn putchar(&mut self, byte: u8)
        requires
            old(self).wf(),
        ensures
            final(self).wf(),
            final(self).color_code == old(self).color_code,
            (final(self).rows(), final(self).column_position as int) == putchar_step(
                old(self).rows(),
                old(self).column_position as int,
                old(self).color_code,
                byte,
            ),
    {
        let ghost step = putchar_step(
            old(self).rows(),
            old(self).column_position as int,
            old(self).color_code,
            byte,
        );
        if byte == 10 {
            self.new_line();
            proof {
                assert(final(self).rows() == step.0 && final(self).column_position as int
                    == step.1);
            }
        } else {
            if self.column_position >= BUFFER_WIDTH {
                self.new_line();
            }
            let ghost mid = *self;
            let col = self.column_position;
            let cell = VGAEntry { ascii_char: byte, color_code: self.color_code };
            let mut row = self.buffer.chars.pop().unwrap();
            row[col] = cell;
            self.buffer.chars.push(row);
            self.column_position = col + 1;
            proof {
                assert(final(self).rows() =~= mid.rows().update(
                    BUFFER_HEIGHT - 1,
                    mid.rows()[BUFFER_HEIGHT - 1].update(col as int, cell),
                ));
                assert(final(self).rows() == step.0 && final(self).column_position as int
                    == step.1);
            }
        }
    }

    /// Write the bytes of `s` in order, treating each newline byte as a
    /// line break.
    pub fn putstr(&mut self, s: &str)
        requires
            old(self).wf(),
        ensures
            final(self).wf(),
            final(self).color_code == old(self).color_code,
            (final(self).rows(), final(self).column_position as int) == write_bytes(
                old(self).rows(),
                old(self).column_position as int,
                old(self).color_code,
                s.spec_bytes(),
            ),
    {
        let bytes = s.as_bytes();
        self.put_bytes(bytes, 0);
        proof {
            assert(bytes@.skip(0) =~= s.spec_bytes());
        }
    }

    /// Write `bytes[i..]` in order.
    fn put_bytes(&mut self, bytes: &[u8], i: usize)
        requires
            old(self).wf(),
            i <= bytes@.len(),
        ensures
            final(self).wf(),
            final(self).color_code == old(self).color_code,
            (final(self).rows(), final(self).column_position as int) == write_bytes(
                old(self).rows(),
                old(self).column_position as int,
                old(self).color_code,
                bytes@.skip(i as int),
            ),
        decreases bytes@.len() - i,
    {
        if i < bytes.len() {
            let b = bytes[i];
            self.putchar(b);
            self.put_bytes(bytes, i + 1);
            proof {
                assert(bytes@.skip(i as int)[0] == b);
                assert(bytes@.skip(i as int).skip(1) =~= bytes@.skip(i as int + 1));
            }
        } else {
            proof {
                assert(bytes@.skip(i as int).len() == 0);
            }
        }
    }
}

/// Write a string through the given writer.
pub fn print(writer: &mut ScreenWriter, s: &str)
    requires
        old(writer).wf(),
    ensures
        final(writer).wf(),
        final(writer).color_code == old(writer).color_code,
        (final(writer).rows(), final(writer).column_position as int) == write_bytes(
            old(writer).rows(),
            old(writer).column_position as int,
            old(writer).color_code,
            s.spec_bytes(),
        ),
{
    writer.putstr(s);
}

/// Blank every row of the screen.
pub fn clear_screen(writer: &mut ScreenWriter)
    requires
        old(writer).wf(),
    ensures
        final(writer).wf(),
        final(writer).color_code == old(writer).color_code,
        final(writer).column_position == old(writer).column_position,
        forall|r: int|
            0 <= r < BUFFER_HEIGHT ==> final(writer).rows()[r] == blank_row(
                old(writer).color_code,
            ),
{
    let mut row: usize = 0;
    while row < BUFFER_HEIGHT
        invariant
            old(writer).wf(),
            writer.wf(),
            row <= BUFFER_HEIGHT,
            writer.color_code == old(writer).color_code,
            writer.column_position == old(writer).column_position,
            forall|r: int|
                0 <= r < row ==> writer.rows()[r] == blank_row(old(writer).color_code),
        decreases BUFFER_HEIGHT - row,
    {
        writer.clear_row(row);
        row += 1;
    }
}

} // verus!
