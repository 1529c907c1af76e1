//! A model of the VGA text writer: a 25 x 80 cell grid written at the
//! bottom row, scrolling up on newlines and when a row fills up.

use vstd::prelude::*;

verus! {

pub const BUF_HEIGHT: usize = 25;

pub const BUF_WIDTH: usize = 80;

#[derive(Clone, Copy, PartialEq, Eq, Structural, Debug)]
pub enum Colour {
    Black,
    Blue,
    Green,
    Cyan,
    Red,
    Magenta,
    Brown,
    LightGrey,
    DarkGrey,
    LightBlue,
    LightGreen,
    LightCyan,
    LightRed,
    Pink,
    Yellow,
    White,
}

impl Colour {
    /// The hardware palette number of the colour.
    pub open spec fn code_spec(self) -> u8 {
        match self {
            Colour::Black => 0,
            Colour::Blue => 1,
            Colour::Green => 2,
            Colour::Cyan => 3,
            Colour::Red => 4,
            Colour::Magenta => 5,
            Colour::Brown => 6,
            Colour::LightGrey => 7,
            Colour::DarkGrey => 8,
            Colour::LightBlue => 9,
            Colour::LightGreen => 10,
            Colour::LightCyan => 11,
            Colour::LightRed => 12,
            Colour::Pink => 13,
            Colour::Yellow => 14,
            Colour::White => 15,
        }
    }

    pub fn code(&self) -> (r: u8)
        ensures
            r == self.code_spec(),
            r < 16,
    {
        match self {
            Colour::Black => 0,
            Colour::Blue => 1,
            Colour::Green => 2,
            Colour::Cyan => 3,
            Colour::Red => 4,
            Colour::Magenta => 5,
            Colour::Brown => 6,
            Colour::LightGrey => 7,
            Colour::DarkGrey => 8,
            Colour::LightBlue => 9,
            Colour::LightGreen => 10,
            Colour::LightCyan => 11,
            Colour::LightRed => 12,
            Colour::Pink => 13,
            Colour::Yellow => 14,
            Colour::White => 15,
        }
    }
}

/// Foreground and background palette numbers packed into one byte.
#[derive(Clone, Copy, PartialEq, Eq, Structural, Debug)]
pub struct ColourCode(pub u8);

impl ColourCode {
    pub fn new(fg: Colour, bg: Colour) -> (r: ColourCode)
        ensures
            r.0 == bg.code_spec() * 16 + fg.code_spec(),
    {
        let f = fg.code();
        let b = bg.code();
        proof {
            assert(f < 16 && b < 16 ==> ((b << 4) | f) == b * 16 + f) by (bit_vector);
        }
        ColourCode((b << 4) | f)
    }
}

/// One character cell of the screen.
#[derive(Clone, Copy, PartialEq, Eq, Structural, Debug)]
pub struct ScreenCell {
    pub character: u8,
    pub colour_code: ColourCode,
}

/// A blank cell in the given colour.
pub open spec fn blank_cell(colour: ColourCode) -> ScreenCell {
    ScreenCell { character: 32, colour_code: colour }
}

/// The screen contents after scrolling one row up: every row moves up,
/// and the bottom row becomes blank.
pub open spec fn scrolled(cells: Seq<ScreenCell>, colour: ColourCode) -> Seq<ScreenCell> {
    Seq::new(2000, |i: int| if i < 1920 {
        cells[i + 80]
    } else {
        blank_cell(colour)
    })
}

/// The state of the screen and of the cursor in the bottom row.
#[verifier::ext_equal]
pub struct ScreenState {
    pub cells: Seq<ScreenCell>,
    pub pos: int,
}

/// The screen after one byte is written: a newline scrolls, a byte in a
/// full row scrolls first, any other byte lands at the cursor of the
/// bottom row.
pub open spec fn put_byte(s: ScreenState, colour: ColourCode, byte: u8) -> ScreenState {
    if byte == 10 {
        ScreenState { cells: scrolled(s.cells, colour), pos: 0 }
    } else if s.pos >= 80 {
        ScreenState {
            cells: scrolled(s.cells, colour).update(
                1920,
                ScreenCell { character: byte, colour_code: colour },
            ),
            pos: 1,
        }
    } else {
        ScreenState {
            cells: s.cells.update(1920 + s.pos, ScreenCell { character: byte, colour_code: colour }),
            pos: s.pos + 1,
        }
    }
}

/// The screen after a whole byte string is written, front to back.
pub open spec fn put_bytes(s: ScreenState, colour: ColourCode, bytes: Seq<u8>) -> ScreenState
    decreases bytes.len(),
{
    if bytes.len() == 0 {
        s
    } else {
        put_bytes(put_byte(s, colour, bytes[0]), colour, bytes.skip(1))
    }
}

/// The model of the VGA writer: the cell grid as one flat vector, row
/// major, with the write position in the bottom row.
pub struct Writer {
    pos: usize,
    colour_code: ColourCode,
    cells: Vec<ScreenCell>,
}

impl Writer {
    pub closed spec fn view_of(self) -> ScreenState {
        ScreenState { cells: self.cells@, pos: self.pos as int }
    }

    pub closed spec fn colour_of(self) -> ColourCode {
        self.colour_code
    }

    pub open spec fn wf(self) -> bool {
        self.view_of().cells.len() == 2000 && 0 <= self.view_of().pos <= 80
    }

    /// A blank screen in the given colour.
    pub fn new(colour_code: ColourCode) -> (r: Writer)
        ensures
            r.wf(),
            r.colour_of() == colour_code,
            r.view_of().pos == 0,
            forall|i: int| 0 <= i < 2000 ==> r.view_of().cells[i] == blank_cell(colour_code),
    {
        let mut cells: Vec<ScreenCell> = Vec::new();
        let mut i: usize = 0;
        while i < 2000
            invariant
                i <= 2000,
                cells@.len() == i,
                forall|j: int| 0 <= j < i ==> cells@[j] == blank_cell(colour_code),
            decreases 2000 - i,
        {
            cells.push(ScreenCell { character: 32, colour_code });
            i = i + 1;
        }
        Writer { pos: 0, colour_code, cells }
    }

    /// The cell at `row`, `col` of the grid.
    pub fn cell_at(&self, row: usize, col: usize) -> (r: ScreenCell)
        requires
            self.wf(),
            row < 25,
            col < 80,
        ensures
            r == self.view_of().cells[80 * row + col],
    {
        self.cells[80 * row + col]
    }

    /// The write position in the bottom row.
    pub fn position(&self) -> (r: usize)
        ensures
            r == self.view_of().pos,
    {
        self.pos
    }

    /// Scroll one row up and blank the bottom row.
    fn new_line(&mut self)
        requires
            old(self).wf(),
        ensures
            final(self).wf(),
            final(self).colour_of() == old(self).colour_of(),
            final(self).view_of().cells =~= scrolled(
                old(self).view_of().cells,
                old(self).colour_of(),
            ),
            final(self).view_of().pos == 0,
    {
        let mut i: usize = 0;
        while i < 1920
            invariant
                old(self).wf(),
                i <= 1920,
                self.colour_code == old(self).colour_code,
                self.pos == old(self).pos,
                self.cells@.len() == 2000,
                forall|j: int| 0 <= j < i ==> self.cells@[j] == old(self).cells@[j + 80],
                forall|j: int| i <= j < 2000 ==> self.cells@[j] == old(self).cells@[j],
            decreases 1920 - i,
        {
            let moved = self.cells[i + 80];
            self.cells.set(i, moved);
            i = i + 1;
        }
        let mut c: usize = 1920;
        while c < 2000
            invariant
                old(self).wf(),
                1920 <= c <= 2000,
                self.colour_code == old(self).colour_code,
                self.pos == old(self).pos,
                self.cells@.len() == 2000,
                forall|j: int| 0 <= j < 1920 ==> self.cells@[j] == old(self).cells@[j + 80],
                forall|j: int|
                    1920 <= j < c ==> self.cells@[j] == blank_cell(old(self).colour_code),
            decreases 2000 - c,
        {
            let blank = ScreenCell { character: 32, colour_code: self.colour_code };
            self.cells.set(c, blank);
            c = c + 1;
        }
        self.pos = 0;
    }

    /// Write one byte at the cursor of the bottom row, scrolling on a
    /// newline or when the row is full.
    pub fn write_byte(&mut self, byte: u8)
        requires
            old(self).wf(),
        ensures
            final(self).wf(),
            final(self).colour_of() == old(self).colour_of(),
            final(self).view_of().cells =~= put_byte(
                old(self).view_of(),
                old(self).colour_of(),
                byte,
            ).cells,
            final(self).view_of().pos == put_byte(
                old(self).view_of(),
                old(self).colour_of(),
                byte,
            ).pos,
    {
        if byte == 10 {
            self.new_line();
        } else {
            if self.pos >= 80 {
                self.new_line();
            }
            let pos = self.pos;
            let colour_code = self.colour_code;
            self.cells.set(1920 + pos, ScreenCell { character: byte, colour_code });
            self.pos = pos + 1;
        }
    }

    /// Write every byte of `s` in order.
    pub fn write_str(&mut self, s: &[u8])
        requires
            old(self).wf(),
        ensures
            final(self).wf(),
            final(self).colour_of() == old(self).colour_of(),
            final(self).view_of().cells =~= put_bytes(
                old(self).view_of(),
                old(self).colour_of(),
                s@,
            ).cells,
            final(self).view_of().pos == put_bytes(
                old(self).view_of(),
                old(self).colour_of(),
                s@,
            ).pos,
    {
        let n = s.len();
        let mut i: usize = 0;
        while i < n
            invariant
                i <= n,
                n == s@.len(),
                self.wf(),
                self.colour_of() == old(self).colour_of(),
                self.view_of().cells =~= put_bytes(
                    old(self).view_of(),
                    old(self).colour_of(),
                    s@.take(i as int),
                ).cells,
                self.view_of().pos == put_bytes(
                    old(self).view_of(),
                    old(self).colour_of(),
                    s@.take(i as int),
                ).pos,
            decreases n - i,
        {
            let ghost pre = self.view_of();
            self.write_byte(s[i]);
            proof {
                lemma_put_bytes_snoc(old(self).view_of(), old(self).colour_of(), s@, i as int);
                assert(pre.cells =~= put_bytes(
                    old(self).view_of(),
                    old(self).colour_of(),
                    s@.take(i as int),
                ).cells);
                assert(pre == put_bytes(
                    old(self).view_of(),
                    old(self).colour_of(),
                    s@.take(i as int),
                ));
            }
            i = i + 1;
        }
        proof {
            assert(s@.take(n as int) =~= s@);
        }
    }
}

/// Writing one more byte extends the fold by one step.
proof fn lemma_put_bytes_snoc(s: ScreenState, colour: ColourCode, bytes: Seq<u8>, i: int)
    requires
        0 <= i < bytes.len(),
    ensures
        put_bytes(s, colour, bytes.take(i + 1)) == put_byte(
            put_bytes(s, colour, bytes.take(i)),
            colour,
            bytes[i],
        ),
    decreases i,
{
    if i == 0 {
        assert(bytes.take(1) =~= seq![bytes[0]]);
        assert(bytes.take(1).skip(1) =~= Seq::<u8>::empty());
        assert(bytes.take(0) =~= Seq::<u8>::empty());
        assert(put_bytes(s, colour, bytes.take(0)) =~= s);
        assert(put_bytes(put_byte(s, colour, bytes[0]), colour, Seq::<u8>::empty()) =~= put_byte(
            s,
            colour,
            bytes[0],
        ));
        assert(put_bytes(s, colour, bytes.take(1)) =~= put_byte(
            put_bytes(s, colour, bytes.take(0)),
            colour,
            bytes[0],
        ));
    } else {
        let s1 = put_byte(s, colour, bytes[0]);
        lemma_put_bytes_snoc(s1, colour, bytes.skip(1), i - 1);
        assert(bytes.take(i + 1)[0] == bytes[0]);
        assert(bytes.take(i + 1).skip(1) =~= bytes.skip(1).take(i));
        assert(bytes.take(i).skip(1) =~= bytes.skip(1).take(i - 1));
        assert(bytes.skip(1)[i - 1] == bytes[i]);
        assert(bytes.take(i + 1).len() == i + 1 && bytes.take(i).len() == i);
        assert(put_bytes(s, colour, bytes.take(i + 1)) =~= put_bytes(
            s1,
            colour,
            bytes.skip(1).take(i),
        ));
        assert(put_bytes(s, colour, bytes.take(i)) =~= put_bytes(
            s1,
            colour,
            bytes.skip(1).take(i - 1),
        ));
        assert(put_bytes(s1, colour, bytes.skip(1).take(i)) =~= put_byte(
            put_bytes(s1, colour, bytes.skip(1).take(i - 1)),
            colour,
            bytes[i],
        ));
    }
}

/// Write a string to the given writer.
pub fn print(writer: &mut Writer, s: &[u8])
    requires
        old(writer).wf(),
    ensures
        final(writer).wf(),
        final(writer).colour_of() == old(writer).colour_of(),
        final(writer).view_of().cells =~= put_bytes(
            old(writer).view_of(),
            old(writer).colour_of(),
            s@,
        ).cells,
        final(writer).view_of().pos == put_bytes(
            old(writer).view_of(),
            old(writer).colour_of(),
            s@,
        ).pos,
{
    writer.write_str(s);
}

} // verus!
