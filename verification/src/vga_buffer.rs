//! The text screen: 25 rows of 80 cells, written in the last row and
//! scrolled upwards.

use crate::collections::double_array_map::{position, DoubleArrayMap};
use crate::stack_string::StackString;
use vstd::prelude::*;

verus! {

/// The number of rows of the screen.
pub const BUFFER_HEIGHT: usize = 25;

/// The number of cells in a row.
pub const BUFFER_WIDTH: usize = 80;

/// The byte of the space character.
pub const SPACE: u8 = 0x20;

/// The byte of the line feed.
pub const LINE_FEED: u8 = 0x0a;

/// The byte shown for a character that the screen has no glyph for.
pub const UNKNOWN_GLYPH: u8 = 0xfe;

/// The colours of the text screen.
#[derive(Debug, Clone, Copy, PartialEq, Eq, Structural)]
pub enum Color {
    Black,
    Blue,
    Green,
    Cyan,
    Red,
    Magenta,
    Brown,
    LightGray,
    DarkGray,
    LightBlue,
    LightGreen,
    LightCyan,
    LightRed,
    Pink,
    Yellow,
    White,
}

impl Color {
    /// The number that the hardware knows the colour by.
    pub open spec fn number(self) -> int {
        match self {
            Color::Black => 0,
            Color::Blue => 1,
            Color::Green => 2,
            Color::Cyan => 3,
            Color::Red => 4,
            Color::Magenta => 5,
            Color::Brown => 6,
            Color::LightGray => 7,
            Color::DarkGray => 8,
            Color::LightBlue => 9,
            Color::LightGreen => 10,
            Color::LightCyan => 11,
            Color::LightRed => 12,
            Color::Pink => 13,
            Color::Yellow => 14,
            Color::White => 15,
        }
    }

    /// The number that the hardware knows the colour by.
    pub fn code(self) -> (number: u8)
        ensures
            number == self.number(),
    {
        match self {
            Color::Black => 0,
            Color::Blue => 1,
            Color::Green => 2,
            Color::Cyan => 3,
            Color::Red => 4,
            Color::Magenta => 5,
            Color::Brown => 6,
            Color::LightGray => 7,
            Color::DarkGray => 8,
            Color::LightBlue => 9,
            Color::LightGreen => 10,
            Color::LightCyan => 11,
            Color::LightRed => 12,
            Color::Pink => 13,
            Color::Yellow => 14,
            Color::White => 15,
        }
    }
}

/// The byte of `foreground` on `background`.
pub open spec fn color_byte(foreground: Color, background: Color) -> u8 {
    (background.number() * 16 + foreground.number()) as u8
}

/// A colour for the text and one for what is behind it, in one byte.
#[derive(Debug, Clone, Copy, PartialEq, Eq, Structural)]
pub struct ColorCode(pub u8);

impl ColorCode {
    /// The byte with the background in its high half and the foreground in
    /// its low half.
    pub fn new(foreground: Color, background: Color) -> (code: ColorCode)
        ensures
            code == ColorCode(color_byte(foreground, background)),
    {
        let high = background.code();
        let low = foreground.code();
        assert((high << 4) | low == high * 16 + low) by (bit_vector)
            requires
                high < 16,
                low < 16,
        ;
        ColorCode((high << 4) | low)
    }
}

/// White on black, the colours of ordinary text.
pub fn default_color_code() -> (code: ColorCode)
    ensures
        code == ColorCode(color_byte(Color::White, Color::Black)),
{
    ColorCode::new(Color::White, Color::Black)
}

/// White on black.
pub fn white_on_black() -> (code: ColorCode)
    ensures
        code == ColorCode(color_byte(Color::White, Color::Black)),
{
    ColorCode::new(Color::White, Color::Black)
}

/// Red on black.
pub fn red_on_black() -> (code: ColorCode)
    ensures
        code == ColorCode(color_byte(Color::Red, Color::Black)),
{
    ColorCode::new(Color::Red, Color::Black)
}

/// Red on white, the colours of error text.
pub fn red_on_white() -> (code: ColorCode)
    ensures
        code == ColorCode(color_byte(Color::Red, Color::White)),
{
    ColorCode::new(Color::Red, Color::White)
}

/// Green on black.
pub fn green_on_black() -> (code: ColorCode)
    ensures
        code == ColorCode(color_byte(Color::Green, Color::Black)),
{
    ColorCode::new(Color::Green, Color::Black)
}

/// Blue on black.
pub fn blue_on_black() -> (code: ColorCode)
    ensures
        code == ColorCode(color_byte(Color::Blue, Color::Black)),
{
    ColorCode::new(Color::Blue, Color::Black)
}

/// What one cell of the screen shows.
#[derive(Debug, Clone, Copy, PartialEq, Eq, Structural)]
pub struct ScreenChar {
    pub ascii_character: u8,
    pub color_code: ColorCode,
}

/// The cell that shows nothing.
pub open spec fn blank() -> ScreenChar {
    ScreenChar {
        ascii_character: SPACE,
        color_code: ColorCode(color_byte(Color::White, Color::Black)),
    }
}

/// What the screen shows and where the next byte goes in the last row.
pub struct ScreenModel {
    pub column: int,
    pub rows: Seq<Seq<ScreenChar>>,
}

impl ScreenModel {
    /// The state after a line feed: every row has moved up by one, the last
    /// row is blank, and writing goes on at its start.
    pub open spec fn new_line(self) -> ScreenModel {
        ScreenModel {
            column: 0,
            rows: Seq::new(
                BUFFER_HEIGHT as nat,
                |row: int|
                    if row < BUFFER_HEIGHT - 1 {
                        self.rows[row + 1]
                    } else {
                        Seq::new(BUFFER_WIDTH as nat, |col: int| blank())
                    },
            ),
        }
    }

    /// The state after `byte` was written in colour `color_code`: a line
    /// feed begins a new line; any other byte goes into the next cell of the
    /// last row, after a new line was begun if that row is full.
    pub open spec fn write_byte(self, byte: u8, color_code: ColorCode) -> ScreenModel {
        if byte == LINE_FEED {
            self.new_line()
        } else {
            let at = if self.column >= BUFFER_WIDTH {
                self.new_line()
            } else {
                self
            };
            ScreenModel {
                column: at.column + 1,
                rows: at.rows.update(
                    BUFFER_HEIGHT - 1,
                    at.rows[BUFFER_HEIGHT - 1].update(
                        at.column,
                        ScreenChar { ascii_character: byte, color_code },
                    ),
                ),
            }
        }
    }

    /// The state after the bytes of `bytes` were written one by one.
    pub open spec fn write_bytes(self, bytes: Seq<u8>, color_code: ColorCode) -> ScreenModel
        decreases bytes.len(),
    {
        if bytes.len() == 0 {
            self
        } else {
            self.write_bytes(bytes.drop_last(), color_code).write_byte(bytes.last(), color_code)
        }
    }

    /// The state after the last byte written in the last row was erased.
    pub open spec fn remove_last(self) -> ScreenModel {
        if self.column > 0 {
            ScreenModel {
                column: self.column - 1,
                rows: self.rows.update(
                    BUFFER_HEIGHT - 1,
                    self.rows[BUFFER_HEIGHT - 1].update(self.column - 1, blank()),
                ),
            }
        } else {
            self
        }
    }
}

/// The bytes that the screen shows for the character `c`: an ASCII
/// character is its own byte; the ligatures of o and e are shown as two
/// letters; any other character is looked up in `glyphs` by its code point,
/// and shown as `UNKNOWN_GLYPH` where it is not found.
pub open spec fn glyph_bytes(c: char, glyphs: Seq<(u32, u8)>) -> Seq<u8> {
    if (c as u32) < 128 {
        seq![c as u8]
    } else if c == 'œ' {
        seq![0x6fu8, 0x65u8]
    } else if c == 'Œ' {
        seq![0x4fu8, 0x45u8]
    } else {
        match position(glyphs, c as u32) {
            Some(i) => seq![glyphs[i].1],
            None => seq![UNKNOWN_GLYPH],
        }
    }
}

/// The bytes that the screen shows for the characters `chars`.
pub open spec fn text_bytes(chars: Seq<char>, glyphs: Seq<(u32, u8)>) -> Seq<u8>
    decreases chars.len(),
{
    if chars.len() == 0 {
        Seq::empty()
    } else {
        text_bytes(chars.drop_last(), glyphs) + glyph_bytes(chars.last(), glyphs)
    }
}

/// Writing one run of bytes and then another is writing the two runs joined.
pub proof fn lemma_write_bytes_add(
    m: ScreenModel,
    first: Seq<u8>,
    second: Seq<u8>,
    color_code: ColorCode,
)
    ensures
        m.write_bytes(first + second, color_code) == m.write_bytes(first, color_code).write_bytes(
            second,
            color_code,
        ),
    decreases second.len(),
{
    if second.len() == 0 {
        assert(first + second =~= first);
    } else {
        lemma_write_bytes_add(m, first, second.drop_last(), color_code);
        assert((first + second).drop_last() =~= first + second.drop_last());
    }
}

/// Writing a run of one or two bytes is writing the first and, if there is
/// one, the second.
pub proof fn lemma_write_few(m: ScreenModel, bytes: Seq<u8>, color_code: ColorCode)
    requires
        1 <= bytes.len() <= 2,
    ensures
        m.write_bytes(bytes, color_code) == if bytes.len() == 1 {
            m.write_byte(bytes[0], color_code)
        } else {
            m.write_byte(bytes[0], color_code).write_byte(bytes[1], color_code)
        },
{
    let head = bytes.subrange(0, 1);
    assert(head.drop_last() =~= Seq::<u8>::empty());
    assert(m.write_bytes(head.drop_last(), color_code) == m);
    assert(m.write_bytes(head, color_code) == m.write_byte(bytes[0], color_code));
    if bytes.len() == 1 {
        assert(head =~= bytes);
    } else {
        assert(bytes.drop_last() =~= head);
    }
}

/// The writer of the text screen. It keeps what the screen shows; whoever
/// owns the screen copies the cells there.
pub struct VgaBufferWriter {
    column_position: usize,
    buffer: [[ScreenChar; 80]; 25],
}

impl View for VgaBufferWriter {
    type V = ScreenModel;

    closed spec fn view(&self) -> ScreenModel {
        ScreenModel {
            column: self.column_position as int,
            rows: Seq::new(BUFFER_HEIGHT as nat, |row: int| self.buffer@[row]@),
        }
    }
}

impl VgaBufferWriter {
    #[verifier::type_invariant]
    spec fn column_in_row(self) -> bool {
        self.column_position <= BUFFER_WIDTH
    }

    /// A writer for a blank screen.
    pub fn new() -> (writer: Self)
        ensures
            writer@.column == 0,
            forall|row: int, col: int|
                0 <= row < BUFFER_HEIGHT && 0 <= col < BUFFER_WIDTH ==> (
                #[trigger] writer@.rows[row][col]) == blank(),
    {
        let cell = ScreenChar { ascii_character: SPACE, color_code: default_color_code() };
        VgaBufferWriter { column_position: 0, buffer: [[cell;80];25] }
    }

    /// The cell in row `row` and column `col`.
    pub fn cell(&self, row: usize, col: usize) -> (cell: ScreenChar)
        requires
            row < BUFFER_HEIGHT,
            col < BUFFER_WIDTH,
        ensures
            cell == self@.rows[row as int][col as int],
    {
        self.buffer[row][col]
    }

    /// The column of the last row that the next byte goes to.
    pub fn column(&self) -> (column: usize)
        ensures
            column == self@.column,
            column <= BUFFER_WIDTH,
    {
        proof {
            use_type_invariant(self);
        }
        self.column_position
    }

    /// Writes the characters of `s` in colour `color_code`, each as the
    /// bytes that `glyphs` and the rules for ASCII and the ligatures give.
    pub fn write_string_color<const GLYPHS: usize>(
        &mut self,
        s: &str,
        color_code: ColorCode,
        glyphs: &DoubleArrayMap<GLYPHS, u32, u8>,
    )
        ensures
            final(self)@ == old(self)@.write_bytes(
                text_bytes(s@, glyphs.pairs()),
                color_code,
            ),
    {
        let ghost table = glyphs.pairs();
        assert(s@.subrange(0, 0) =~= Seq::<char>::empty());
        for c in it: s.chars()
            invariant
                it.seq() == s@,
                table == glyphs.pairs(),
                self@ == old(self)@.write_bytes(
                    text_bytes(s@.subrange(0, it.index() as int), table),
                    color_code,
                ),
        {
            let ghost done = s@.subrange(0, it.index() as int);
            let ghost before = self@;
            assert(c == s@[it.index() as int]);
            assert(s@.subrange(0, it.index() + 1).drop_last() =~= done);
            let b = if (c as u32) < 128 {
                c as u8
            } else if c == 'œ' {
                // The screen has no glyph for this ligature.
                self.write_byte(0x6f, color_code);
                0x65
            } else if c == 'Œ' {
                self.write_byte(0x4f, color_code);
                0x45
            } else {
                match glyphs.get(&(c as u32)) {
                    Some(byte) => *byte,
                    None => UNKNOWN_GLYPH,
                }
            };

            self.write_byte(b, color_code);
            proof {
                let bytes = glyph_bytes(c, table);
                lemma_write_bytes_add(old(self)@, text_bytes(done, table), bytes, color_code);
                lemma_write_few(before, bytes, color_code);
            }
        }
        assert(s@.subrange(0, s@.len() as int) =~= s@);
    }

    /// Writes `byte` in colour `color_code`: a line feed begins a new line;
    /// any other byte goes into the next cell of the last row, after a new
    /// line was begun if that row is full.
    pub fn write_byte(&mut self, byte: u8, color_code: ColorCode)
        ensures
            final(self)@ == old(self)@.write_byte(byte, color_code),
    {
        proof {
            use_type_invariant(&*self);
        }
        if byte == LINE_FEED {
            self.new_line();
        } else {
            if self.column_position >= BUFFER_WIDTH {
                self.new_line();
            }
            proof {
                use_type_invariant(&*self);
            }
            let ghost at = self@;
            let row = BUFFER_HEIGHT - 1;
            let col = self.column_position;

            self.buffer[row][col] = ScreenChar { ascii_character: byte, color_code };
            self.column_position += 1;
            assert(self@.rows =~= at.rows.update(
                BUFFER_HEIGHT - 1,
                at.rows[BUFFER_HEIGHT - 1].update(
                    at.column,
                    ScreenChar { ascii_character: byte, color_code },
                ),
            ));
        }
    }

    /// The last row as text, each byte taken as the character of that
    /// number.
    pub fn get_line(&self) -> (line: StackString<BUFFER_WIDTH>)
        ensures
            line@ == Seq::new(
                BUFFER_WIDTH as nat,
                |col: int| self@.rows[BUFFER_HEIGHT - 1][col].ascii_character as char,
            ),
    {
        let mut result = StackString::<BUFFER_WIDTH>::default();

        let row = BUFFER_HEIGHT - 1;
        let mut col: usize = 0;
        while col < BUFFER_WIDTH
            invariant
                col <= BUFFER_WIDTH,
                row == BUFFER_HEIGHT - 1,
                result@ == Seq::new(
                    col as nat,
                    |c: int| self@.rows[BUFFER_HEIGHT - 1][c].ascii_character as char,
                ),
            decreases BUFFER_WIDTH - col,
        {
            let _ = result.push(self.buffer[row][col].ascii_character as char);
            col += 1;
            assert(result@ =~= Seq::new(
                col as nat,
                |c: int| self@.rows[BUFFER_HEIGHT - 1][c].ascii_character as char,
            ));
        }

        result
    }

    /// Erases the last byte written in the last row, if there is one.
    pub fn remove_last(&mut self)
        ensures
            final(self)@ == old(self)@.remove_last(),
    {
        proof {
            use_type_invariant(&*self);
        }
        if self.column_position > 0 {
            self.column_position -= 1;

            let row = BUFFER_HEIGHT - 1;
            let col = self.column_position;

            self.buffer[row][col] = ScreenChar {
                ascii_character: SPACE,
                color_code: default_color_code(),
            };
            assert(self@.rows =~= old(self)@.rows.update(
                BUFFER_HEIGHT - 1,
                old(self)@.rows[BUFFER_HEIGHT - 1].update(old(self)@.column - 1, blank()),
            ));
        } else {
            assert(self@.rows =~= old(self)@.rows);
        }
    }

    /// Moves every row up by one, blanks the last row and goes on at its
    /// start.
    fn new_line(&mut self)
        ensures
            final(self)@ == old(self)@.new_line(),
    {
        proof {
            use_type_invariant(&*self);
        }
        let mut row: usize = 1;
        while row < BUFFER_HEIGHT
            invariant
                1 <= row <= BUFFER_HEIGHT,
                self.column_position <= BUFFER_WIDTH,
                self.column_position == old(self).column_position,
                forall|r: int| 0 <= r < row - 1 ==> self.buffer@[r]@ == old(self).buffer@[r + 1]@,
                forall|r: int|
                    row - 1 <= r < BUFFER_HEIGHT ==> self.buffer@[r] == old(self).buffer@[r],
            decreases BUFFER_HEIGHT - row,
        {
            let mut col: usize = 0;
            while col < BUFFER_WIDTH
                invariant
                    1 <= row < BUFFER_HEIGHT,
                    col <= BUFFER_WIDTH,
                    self.column_position <= BUFFER_WIDTH,
                    self.column_position == old(self).column_position,
                    forall|r: int|
                        0 <= r < row - 1 ==> self.buffer@[r]@ == old(self).buffer@[r + 1]@,
                    forall|r: int|
                        row <= r < BUFFER_HEIGHT ==> self.buffer@[r] == old(self).buffer@[r],
                    forall|c: int|
                        0 <= c < col ==> self.buffer@[row - 1]@[c] == old(
                            self,
                        ).buffer@[row as int]@[c],
                decreases BUFFER_WIDTH - col,
            {
                let character = self.buffer[row][col];
                self.buffer[row - 1][col] = character;
                col += 1;
            }
            assert(self.buffer@[row - 1]@ =~= old(self).buffer@[row as int]@);
            row += 1;
        }
        self.clear_row(BUFFER_HEIGHT - 1);
        self.column_position = 0;
        assert(self@.rows =~= old(self)@.new_line().rows);
    }

    /// Blanks row `row`.
    fn clear_row(&mut self, row: usize)
        requires
            row < BUFFER_HEIGHT,
        ensures
            final(self).column_position == old(self).column_position,
            forall|r: int|
                0 <= r < BUFFER_HEIGHT && r != row ==> final(self).buffer@[r] == old(
                    self,
                ).buffer@[r],
            final(self).buffer@[row as int]@ == Seq::new(BUFFER_WIDTH as nat, |col: int| blank()),
    {
        proof {
            use_type_invariant(&*self);
        }
        let mut col: usize = 0;
        while col < BUFFER_WIDTH
            invariant
                row < BUFFER_HEIGHT,
                col <= BUFFER_WIDTH,
                self.column_position <= BUFFER_WIDTH,
                self.column_position == old(self).column_position,
                forall|r: int|
                    0 <= r < BUFFER_HEIGHT && r != row ==> self.buffer@[r] == old(self).buffer@[r],
                forall|c: int| 0 <= c < col ==> self.buffer@[row as int]@[c] == blank(),
            decreases BUFFER_WIDTH - col,
        {
            self.buffer[row][col] = ScreenChar {
                ascii_character: SPACE,
                color_code: default_color_code(),
            };
            col += 1;
        }
        assert(self.buffer@[row as int]@ =~= Seq::new(BUFFER_WIDTH as nat, |col: int| blank()));
    }
}

} // verus!
