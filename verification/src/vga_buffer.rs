//! The text screen: 25 rows of 80 cells, each a character and its colours.

use vstd::prelude::*;
use vstd::string::StringSliceAdditionalSpecFns;

verus! {

/// The sixteen colours of the text screen.
#[allow(dead_code)]
#[derive(Debug, Clone, Copy, PartialEq, Eq, Structural)]
pub enum Color {
    Black,
    Blue,
    Green,
    Cyan,
    Red,
    Magenta,
    Brown,
    LightGray,
    DarkGray,
    LightBlue,
    LightGreen,
    LightCyan,
    LightRed,
    Pink,
    Yellow,
    White,
}

impl Color {
    /// The number of the colour, from 0 for black to 15 for white.
    pub open spec fn number(self) -> int {
        match self {
            Color::Black => 0,
            Color::Blue => 1,
            Color::Green => 2,
            Color::Cyan => 3,
            Color::Red => 4,
            Color::Magenta => 5,
            Color::Brown => 6,
            Color::LightGray => 7,
            Color::DarkGray => 8,
            Color::LightBlue => 9,
            Color::LightGreen => 10,
            Color::LightCyan => 11,
            Color::LightRed => 12,
            Color::Pink => 13,
            Color::Yellow => 14,
            Color::White => 15,
        }
    }

    /// The number of the colour.
    pub fn as_u8(self) -> (number: u8)
        ensures
            number == self.number(),
    {
        match self {
            Color::Black => 0,
            Color::Blue => 1,
            Color::Green => 2,
            Color::Cyan => 3,
            Color::Red => 4,
            Color::Magenta => 5,
            Color::Brown => 6,
            Color::LightGray => 7,
            Color::DarkGray => 8,
            Color::LightBlue => 9,
            Color::LightGreen => 10,
            Color::LightCyan => 11,
            Color::LightRed => 12,
            Color::Pink => 13,
            Color::Yellow => 14,
            Color::White => 15,
        }
    }
}

/// The colours of a cell in one byte: the background in the high four bits,
/// the foreground in the low four.
#[derive(Debug, Clone, Copy, PartialEq, Eq, Structural)]
pub struct ColorCode(pub u8);

impl ColorCode {
    /// The code of `foreground` on `background`.
    pub fn new(foreground: Color, background: Color) -> (code: ColorCode)
        ensures
            code.0 == background.number() * 16 + foreground.number(),
    {
        let high = background.as_u8();
        let low = foreground.as_u8();
        assert((high << 4 | low) == high * 16 + low) by (bit_vector)
            requires
                high < 16,
                low < 16,
        ;
        ColorCode(high << 4 | low)
    }
}

/// A cell of the screen.
#[derive(Debug, Clone, Copy, PartialEq, Eq, Structural)]
pub struct ScreenChar {
    pub ascii_character: u8,
    pub color_code: ColorCode,
}

/// The number of rows of the screen.
pub const BUFFER_HEIGHT: usize = 25;

/// The number of cells in a row.
pub const BUFFER_WIDTH: usize = 80;

/// The ASCII newline.
pub const NEWLINE: u8 = 0x0a;

/// The ASCII space.
pub const SPACE: u8 = 0x20;

/// The byte shown in place of one that the screen cannot show.
pub const UNPRINTABLE: u8 = 0xfe;

/// The byte that `write_string` writes for `byte`: the byte itself where it
/// is a printable ASCII character or a newline, `UNPRINTABLE` otherwise.
pub open spec fn shown_byte(byte: u8) -> u8 {
    if 0x20 <= byte <= 0x7e || byte == NEWLINE {
        byte
    } else {
        UNPRINTABLE
    }
}

/// The abstract state of a writer.
pub struct ScreenState {
    /// The column of the last row that the next character goes to.
    pub column_position: usize,
    pub color_code: ColorCode,
    /// The rows of the screen, the top row first.
    pub rows: Seq<Seq<ScreenChar>>,
}

impl ScreenState {
    /// The screen has `BUFFER_HEIGHT` rows of `BUFFER_WIDTH` cells, and the
    /// column is on a row or just behind it.
    pub open spec fn wf(self) -> bool {
        &&& self.column_position <= BUFFER_WIDTH
        &&& self.rows.len() == BUFFER_HEIGHT
        &&& forall|row: int| 0 <= row < BUFFER_HEIGHT ==> (#[trigger] self.rows[row]).len() == BUFFER_WIDTH
    }

    /// A space in the writer's colours.
    pub open spec fn blank(self) -> ScreenChar {
        ScreenChar { ascii_character: SPACE, color_code: self.color_code }
    }

    /// The state after `row` was cleared: the row holds blanks.
    pub open spec fn after_clear_row(self, row: int) -> ScreenState {
        ScreenState {
            rows: self.rows.update(row, Seq::new(BUFFER_WIDTH as nat, |col: int| self.blank())),
            ..self
        }
    }

    /// The state after a line break: every row has moved up by one, the top
    /// row is gone, the last row is blank and the column is its first.
    pub open spec fn after_new_line(self) -> ScreenState {
        ScreenState {
            column_position: 0,
            rows: self.rows.drop_first().push(Seq::new(BUFFER_WIDTH as nat, |col: int| self.blank())),
            ..self
        }
    }

    /// The state after `byte` was written: a newline breaks the line; any
    /// other byte goes to the column in the last row, after a line break
    /// where the row is full, and the column moves on by one.
    pub open spec fn after_write_byte(self, byte: u8) -> ScreenState {
        if byte == NEWLINE {
            self.after_new_line()
        } else {
            let at = if self.column_position >= BUFFER_WIDTH {
                self.after_new_line()
            } else {
                self
            };
            let last = BUFFER_HEIGHT - 1;
            ScreenState {
                column_position: (at.column_position + 1) as usize,
                rows: at.rows.update(
                    last,
                    at.rows[last].update(
                        at.column_position as int,
                        ScreenChar { ascii_character: byte, color_code: at.color_code },
                    ),
                ),
                ..at
            }
        }
    }

    /// The state after the bytes of a string were written, each as
    /// `shown_byte` gives it.
    pub open spec fn after_write_string(self, bytes: Seq<u8>) -> ScreenState
        decreases bytes.len(),
    {
        if bytes.len() == 0 {
            self
        } else {
            self.after_write_string(bytes.drop_last()).after_write_byte(shown_byte(bytes.last()))
        }
    }

    /// Writing keeps a well-formed state well formed, and the colours that
    /// the writer writes in.
    pub proof fn lemma_write_byte_keeps_wf(self, byte: u8)
        requires
            self.wf(),
        ensures
            self.after_write_byte(byte).wf(),
            self.after_write_byte(byte).color_code == self.color_code,
    {
    }

    /// Writing a string keeps a well-formed state well formed.
    pub proof fn lemma_write_string_keeps_wf(self, bytes: Seq<u8>)
        requires
            self.wf(),
        ensures
            self.after_write_string(bytes).wf(),
            self.after_write_string(bytes).color_code == self.color_code,
        decreases bytes.len(),
    {
        if bytes.len() > 0 {
            self.lemma_write_string_keeps_wf(bytes.drop_last());
            self.after_write_string(bytes.drop_last()).lemma_write_byte_keeps_wf(
                shown_byte(bytes.last()),
            );
        }
    }
}

/// The cells of the screen.
pub struct Buffer {
    chars: [[ScreenChar; BUFFER_WIDTH]; BUFFER_HEIGHT],
}

impl View for Buffer {
    type V = Seq<Seq<ScreenChar>>;

    closed spec fn view(&self) -> Seq<Seq<ScreenChar>> {
        Seq::new(BUFFER_HEIGHT as nat, |row: int| self.chars@[row]@)
    }
}

impl Buffer {
    fn get(&self, row: usize, col: usize) -> (cell: ScreenChar)
        requires
            row < BUFFER_HEIGHT,
            col < BUFFER_WIDTH,
        ensures
            cell == self@[row as int][col as int],
    {
        self.chars[row][col]
    }

    fn set(&mut self, row: usize, col: usize, cell: ScreenChar)
        requires
            row < BUFFER_HEIGHT,
            col < BUFFER_WIDTH,
        ensures
            final(self)@ == old(self)@.update(
                row as int,
                old(self)@[row as int].update(col as int, cell),
            ),
    {
        self.chars[row][col] = cell;
        assert(self@ =~~= old(self)@.update(
            row as int,
            old(self)@[row as int].update(col as int, cell),
        ));
    }
}

/// Writes characters to the last row of the screen, and moves all rows up
/// by one when that row is full or a newline is written.
pub struct Writer {
    column_position: usize,
    color_code: ColorCode,
    buffer: Buffer,
}

impl View for Writer {
    type V = ScreenState;

    closed spec fn view(&self) -> ScreenState {
        ScreenState {
            column_position: self.column_position,
            color_code: self.color_code,
            rows: self.buffer@,
        }
    }
}

impl Writer {
    /// The state of the writer is well formed.
    pub open spec fn wf(&self) -> bool {
        self@.wf()
    }

    /// A writer in the given colours at the start of the last row of a
    /// blank screen.
    pub fn new(color_code: ColorCode) -> (writer: Writer)
        ensures
            writer.wf(),
            writer@.column_position == 0,
            writer@.color_code == color_code,
            forall|row: int, col: int|
                0 <= row < BUFFER_HEIGHT && 0 <= col < BUFFER_WIDTH ==> #[trigger] writer@.rows[row][col]
                    == (ScreenChar { ascii_character: SPACE, color_code }),
    {
        let blank = ScreenChar { ascii_character: SPACE, color_code };
        Writer {
            column_position: 0,
            color_code,
            buffer: Buffer { chars: [[blank; BUFFER_WIDTH]; BUFFER_HEIGHT] },
        }
    }

    /// A writer in the given colours at the start of the last row of a
    /// screen that shows `chars`, the top row first.
    pub fn with_screen(
        color_code: ColorCode,
        chars: [[ScreenChar; BUFFER_WIDTH]; BUFFER_HEIGHT],
    ) -> (writer: Writer)
        ensures
            writer.wf(),
            writer@.column_position == 0,
            writer@.color_code == color_code,
            forall|row: int, col: int|
                0 <= row < BUFFER_HEIGHT && 0 <= col < BUFFER_WIDTH ==> #[trigger] writer@.rows[row][col]
                    == chars@[row]@[col],
    {
        Writer { column_position: 0, color_code, buffer: Buffer { chars } }
    }

    /// Writes one byte: a newline breaks the line, any other byte is shown
    /// as it is.
    pub fn write_byte(&mut self, byte: u8)
        requires
            old(self).wf(),
        ensures
            final(self).wf(),
            final(self)@ == old(self)@.after_write_byte(byte),
    {
        if byte == NEWLINE {
            self.new_line();
        } else {
            if self.column_position >= BUFFER_WIDTH {
                self.new_line();
            }
            let row = BUFFER_HEIGHT - 1;
            let col = self.column_position;
            let color_code = self.color_code;
            self.buffer.set(row, col, ScreenChar { ascii_character: byte, color_code });
            self.column_position += 1;
            assert(self@.rows =~~= old(self)@.after_write_byte(byte).rows);
        }
    }

    /// Writes the bytes of `s`, with `UNPRINTABLE` in place of each byte that
    /// is neither a printable ASCII character nor a newline.
    pub fn write_string(&mut self, s: &str)
        requires
            old(self).wf(),
        ensures
            final(self).wf(),
            final(self)@ == old(self)@.after_write_string(s.spec_bytes()),
    {
        let bytes = s.as_bytes();
        let mut i: usize = 0;
        while i < bytes.len()
            invariant
                0 <= i <= bytes@.len(),
                bytes@ == s.spec_bytes(),
                self.wf(),
                self@ == old(self)@.after_write_string(bytes@.take(i as int)),
            decreases bytes@.len() - i,
        {
            let byte = bytes[i];
            assert(bytes@.take(i + 1).drop_last() =~= bytes@.take(i as int));
            if (0x20 <= byte && byte <= 0x7e) || byte == NEWLINE {
                self.write_byte(byte);
            } else {
                self.write_byte(UNPRINTABLE);
            }
            i += 1;
        }
        assert(bytes@.take(bytes@.len() as int) =~= bytes@);
    }

    /// Moves every row up by one and starts a blank last row.
    fn new_line(&mut self)
        requires
            old(self).wf(),
        ensures
            final(self).wf(),
            final(self)@ == old(self)@.after_new_line(),
    {
        let mut row: usize = 1;
        while row < BUFFER_HEIGHT
            invariant
                1 <= row <= BUFFER_HEIGHT,
                self.wf(),
                self.column_position == old(self).column_position,
                self.color_code == old(self).color_code,
                forall|r: int| 0 <= r < row - 1 ==> #[trigger] self@.rows[r] == old(self)@.rows[r + 1],
                forall|r: int|
                    row - 1 <= r < BUFFER_HEIGHT ==> #[trigger] self@.rows[r] == old(self)@.rows[r],
            decreases BUFFER_HEIGHT - row,
        {
            let ghost before = self@.rows;
            let mut col: usize = 0;
            while col < BUFFER_WIDTH
                invariant
                    1 <= row < BUFFER_HEIGHT,
                    0 <= col <= BUFFER_WIDTH,
                    self.wf(),
                    before.len() == BUFFER_HEIGHT,
                    before[row - 1].len() == BUFFER_WIDTH,
                    self.column_position == old(self).column_position,
                    self.color_code == old(self).color_code,
                    forall|r: int|
                        0 <= r < BUFFER_HEIGHT && r != row - 1 ==> #[trigger] self@.rows[r] == before[r],
                    forall|c: int|
                        0 <= c < col ==> #[trigger] self@.rows[row - 1][c] == before[row as int][c],
                    forall|c: int|
                        col <= c < BUFFER_WIDTH ==> #[trigger] self@.rows[row - 1][c] == before[row
                            - 1][c],
                decreases BUFFER_WIDTH - col,
            {
                let character = self.buffer.get(row, col);
                self.buffer.set(row - 1, col, character);
                col += 1;
            }
            assert(self@.rows[row - 1] =~= before[row as int]);
            row += 1;
        }
        self.clear_row(BUFFER_HEIGHT - 1);
        self.column_position = 0;
        assert(self@.rows =~= old(self)@.after_new_line().rows);
    }

    /// Fills a row with blanks.
    fn clear_row(&mut self, row: usize)
        requires
            old(self).wf(),
            row < BUFFER_HEIGHT,
        ensures
            final(self).wf(),
            final(self)@ == old(self)@.after_clear_row(row as int),
    {
        let blank = ScreenChar { ascii_character: SPACE, color_code: self.color_code };
        let mut col: usize = 0;
        while col < BUFFER_WIDTH
            invariant
                0 <= col <= BUFFER_WIDTH,
                row < BUFFER_HEIGHT,
                self.wf(),
                blank == old(self)@.blank(),
                self.column_position == old(self).column_position,
                self.color_code == old(self).color_code,
                forall|r: int|
                    0 <= r < BUFFER_HEIGHT && r != row ==> #[trigger] self@.rows[r] == old(self)@.rows[r],
                forall|c: int| 0 <= c < col ==> #[trigger] self@.rows[row as int][c] == blank,
            decreases BUFFER_WIDTH - col,
        {
            self.buffer.set(row, col, blank);
            col += 1;
        }
        assert(self@.rows[row as int] =~= Seq::new(
            BUFFER_WIDTH as nat,
            |col: int| old(self)@.blank(),
        ));
        assert(self@.rows =~= old(self)@.after_clear_row(row as int).rows);
    }

    /// The cell in row `row` and column `col` of the screen.
    pub fn read(&self, row: usize, col: usize) -> (cell: ScreenChar)
        requires
            row < BUFFER_HEIGHT,
            col < BUFFER_WIDTH,
        ensures
            cell == self@.rows[row as int][col as int],
    {
        self.buffer.get(row, col)
    }

    /// The column of the last row that the next character goes to.
    pub fn column_position(&self) -> (col: usize)
        ensures
            col == self@.column_position,
    {
        self.column_position
    }
}

} // verus!
