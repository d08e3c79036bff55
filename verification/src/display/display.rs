//! The 80x25 VGA text console: a cursor that fills the screen row by row
//! and wraps back to the top, and the cells it writes to video memory.

use vstd::prelude::*;

verus! {

pub const BUFFER_HEIGHT: usize = 25;

pub const BUFFER_WIDTH: usize = 80;

/// The sixteen colours of VGA text mode.
#[derive(Debug, Clone, Copy, PartialEq, Eq, Structural)]
pub enum Color {
    Black,
    Blue,
    Green,
    Cyan,
    Red,
    Magenta,
    Brown,
    LightGray,
    DarkGray,
    LightBlue,
    LightGreen,
    LightCyan,
    LightRed,
    Pink,
    Yellow,
    White,
}

/// The palette index of a colour.
pub open spec fn color_value(c: Color) -> u8 {
    match c {
        Color::Black => 0,
        Color::Blue => 1,
        Color::Green => 2,
        Color::Cyan => 3,
        Color::Red => 4,
        Color::Magenta => 5,
        Color::Brown => 6,
        Color::LightGray => 7,
        Color::DarkGray => 8,
        Color::LightBlue => 9,
        Color::LightGreen => 10,
        Color::LightCyan => 11,
        Color::LightRed => 12,
        Color::Pink => 13,
        Color::Yellow => 14,
        Color::White => 15,
    }
}

impl Color {
    /// The palette index of the colour.
    pub fn value(self) -> (v: u8)
        ensures
            v == color_value(self),
    {
        match self {
            Color::Black => 0,
            Color::Blue => 1,
            Color::Green => 2,
            Color::Cyan => 3,
            Color::Red => 4,
            Color::Magenta => 5,
            Color::Brown => 6,
            Color::LightGray => 7,
            Color::DarkGray => 8,
            Color::LightBlue => 9,
            Color::LightGreen => 10,
            Color::LightCyan => 11,
            Color::LightRed => 12,
            Color::Pink => 13,
            Color::Yellow => 14,
            Color::White => 15,
        }
    }
}

/// A write to video memory: the character byte goes at `offset` and the
/// colour byte right after it.
#[derive(Debug, Clone, Copy, PartialEq, Eq)]
pub struct VgaCell {
    pub offset: usize,
    pub character: u8,
    pub color: u8,
}

/// The cell a character goes to from cursor `pos` (column, row): past the
/// last column the cursor moves to the start of the next row, and past the
/// last row it wraps to the top.
pub open spec fn target_cell(pos: (usize, usize)) -> (int, int) {
    let (col, row) = if pos.0 >= BUFFER_WIDTH {
        (0int, pos.1 + 1)
    } else {
        (pos.0 as int, pos.1 as int)
    };
    if row >= BUFFER_HEIGHT {
        (col, 0int)
    } else {
        (col, row)
    }
}

/// The cursor can move on from `pos` without its row overflowing.
pub open spec fn can_advance(pos: (usize, usize)) -> bool {
    pos.0 >= BUFFER_WIDTH ==> pos.1 < usize::MAX
}

/// The console after printing `chr` from `screen` and cursor `pos`, and
/// the video memory cell written.
pub open spec fn print_step(screen: Seq<char>, pos: (usize, usize), chr: char, color: u8) -> (Seq<char>, (usize, usize), VgaCell) {
    let (col, row) = target_cell(pos);
    (
        screen.update(row * BUFFER_WIDTH + col, chr),
        ((col + 1) as usize, row as usize),
        VgaCell { offset: (2 * (row * BUFFER_WIDTH + col)) as usize, character: chr as u8, color },
    )
}

/// The console after printing `s` from `screen` and cursor `pos`, and the
/// video memory cells written on the way, in order.
pub open spec fn print_seq(screen: Seq<char>, pos: (usize, usize), s: Seq<char>, color: u8) -> (Seq<char>, (usize, usize), Seq<VgaCell>)
    decreases s.len(),
{
    if s.len() == 0 {
        (screen, pos, Seq::empty())
    } else {
        let (screen1, pos1, cells1) = print_seq(screen, pos, s.drop_last(), color);
        let (screen2, pos2, cell) = print_step(screen1, pos1, s.last(), color);
        (screen2, pos2, cells1.push(cell))
    }
}

/// A text console: what each cell shows and where the next character goes.
pub struct Display {
    screen_content: Vec<char>,
    current_position: (usize, usize),
}

impl Display {
    /// The characters shown, row by row.
    pub closed spec fn screen(&self) -> Seq<char> {
        self.screen_content@
    }

    /// The cursor: column, then row.
    pub closed spec fn position(&self) -> (usize, usize) {
        self.current_position
    }

    /// The console holds one character per cell.
    pub closed spec fn wf(&self) -> bool {
        self.screen_content@.len() == BUFFER_WIDTH * BUFFER_HEIGHT
    }

    /// A well-formed console holds one character per cell.
    pub proof fn lemma_wf(&self)
        requires
            self.wf(),
        ensures
            self.screen().len() == BUFFER_WIDTH * BUFFER_HEIGHT,
    {
    }

    /// A blank console with the cursor in the top-left corner.
    pub fn new() -> (d: Self)
        ensures
            d.wf(),
            d.screen() == Seq::new((BUFFER_WIDTH * BUFFER_HEIGHT) as nat, |i: int| '\0'),
            d.position() == (0usize, 0usize),
    {
        let mut screen_content: Vec<char> = Vec::new();
        let mut i: usize = 0;
        while i < BUFFER_WIDTH * BUFFER_HEIGHT
            invariant
                i <= BUFFER_WIDTH * BUFFER_HEIGHT,
                screen_content@ == Seq::new(i as nat, |j: int| '\0'),
            decreases BUFFER_WIDTH * BUFFER_HEIGHT - i,
        {
            screen_content.push('\0');
            i += 1;
        }
        Display { screen_content, current_position: (0, 0) }
    }

    /// The attribute byte for foreground `fg` on background `bg`.
    pub fn get_color(bg: Color, fg: Color) -> (c: u8)
        ensures
            c == color_value(bg) * 16 + color_value(fg),
    {
        let b = bg.value();
        let f = fg.value();
        proof {
            assert((b << 4u8) | f == b * 16 + f) by (bit_vector)
                requires
                    b < 16,
                    f < 16,
            ;
        }
        (b << 4u8) | f
    }

    /// Moves the cursor.
    pub fn set_current_position(&mut self, current_position: (usize, usize))
        requires
            old(self).wf(),
        ensures
            final(self).wf(),
            final(self).screen() == old(self).screen(),
            final(self).position() == current_position,
    {
        self.current_position = current_position;
    }

    /// Prints one character at the cursor and advances it; returns the
    /// write the video memory needs.
    pub fn print_chr(&mut self, chr: char, color: u8) -> (cell: VgaCell)
        requires
            old(self).wf(),
            can_advance(old(self).position()),
        ensures
            final(self).wf(),
            ({
                let (screen, pos, expected) = print_step(old(self).screen(), old(self).position(), chr, color);
                &&& final(self).screen() == screen
                &&& final(self).position() == pos
                &&& cell == expected
            }),
    {
        if self.current_position.0 >= BUFFER_WIDTH {
            self.current_position.0 = 0;
            self.current_position.1 = self.current_position.1 + 1;
        }
        if self.current_position.1 >= BUFFER_HEIGHT {
            self.current_position.1 = 0;
        }
        let (col, row) = self.current_position;
        let index = row * BUFFER_WIDTH + col;
        self.screen_content.set(index, chr);
        let offset = index * 2;
        self.current_position.0 = col + 1;
        VgaCell { offset, character: chr as u8, color }
    }

    /// Prints `content` character by character; returns the writes the
    /// video memory needs, in order.
    pub fn print_str(&mut self, content: &str, color: u8) -> (cells: Vec<VgaCell>)
        requires
            old(self).wf(),
            content@.len() > 0 ==> can_advance(old(self).position()),
        ensures
            final(self).wf(),
            ({
                let (screen, pos, expected) = print_seq(old(self).screen(), old(self).position(), content@, color);
                &&& final(self).screen() == screen
                &&& final(self).position() == pos
                &&& cells@ == expected
            }),
    {
        let mut cells: Vec<VgaCell> = Vec::new();
        let n = content.unicode_len();
        let mut i: usize = 0;
        while i < n
            invariant
                n == content@.len(),
                i <= n,
                self.wf(),
                i > 0 ==> self.position().0 <= BUFFER_WIDTH && self.position().1 < BUFFER_HEIGHT,
                n > 0 ==> can_advance(old(self).position()),
                ({
                    let (screen, pos, expected) = print_seq(
                        old(self).screen(),
                        old(self).position(),
                        content@.take(i as int),
                        color,
                    );
                    &&& self.screen() == screen
                    &&& self.position() == pos
                    &&& cells@ == expected
                }),
            decreases n - i,
        {
            let chr = content.get_char(i);
            let ghost before = (self.screen(), self.position(), cells@);
            let cell = self.print_chr(chr, color);
            cells.push(cell);
            proof {
                assert(content@.take(i + 1).drop_last() =~= content@.take(i as int));
                assert(content@.take(i + 1).last() == chr);
            }
            i += 1;
        }
        proof {
            assert(content@.take(n as int) =~= content@);
        }
        cells
    }
}

/// Printing `s1` and then `s2` leaves the console as printing `s1 + s2`
/// does, and writes the cells of the first print followed by those of the
/// second.
pub proof fn print_concat(screen: Seq<char>, pos: (usize, usize), s1: Seq<char>, s2: Seq<char>, color: u8)
    ensures
        ({
            let (screen1, pos1, cells1) = print_seq(screen, pos, s1, color);
            let (screen2, pos2, cells2) = print_seq(screen1, pos1, s2, color);
            print_seq(screen, pos, s1 + s2, color) == (screen2, pos2, cells1 + cells2)
        }),
    decreases s2.len(),
{
    if s2.len() == 0 {
        assert(s1 + s2 =~= s1);
        let (screen1, pos1, cells1) = print_seq(screen, pos, s1, color);
        assert(cells1 + Seq::<VgaCell>::empty() =~= cells1);
    } else {
        print_concat(screen, pos, s1, s2.drop_last(), color);
        assert((s1 + s2).drop_last() =~= s1 + s2.drop_last());
        assert((s1 + s2).last() == s2.last());
        let (screen1, pos1, cells1) = print_seq(screen, pos, s1, color);
        let (screen2, pos2, cells2) = print_seq(screen1, pos1, s2.drop_last(), color);
        let (screen3, pos3, cell) = print_step(screen2, pos2, s2.last(), color);
        assert((cells1 + cells2).push(cell) =~= cells1 + cells2.push(cell));
    }
}

/// Once something has been printed the cursor is on the screen: at most
/// one column past the last one, on one of the rows, and every cell
/// written lies in video memory.
pub proof fn print_stays_on_screen(screen: Seq<char>, pos: (usize, usize), s: Seq<char>, color: u8)
    requires
        s.len() > 0,
    ensures
        ({
            let (screen1, pos1, cells) = print_seq(screen, pos, s, color);
            &&& 1 <= pos1.0 <= BUFFER_WIDTH
            &&& pos1.1 < BUFFER_HEIGHT
            &&& forall|i: int| 0 <= i < cells.len() ==> (#[trigger] cells[i]).offset + 1 < 2 * BUFFER_WIDTH * BUFFER_HEIGHT
        }),
    decreases s.len(),
{
    if s.len() > 1 {
        print_stays_on_screen(screen, pos, s.drop_last(), color);
    } else {
        assert(s.drop_last().len() == 0);
    }
    let (screen1, pos1, cells1) = print_seq(screen, pos, s.drop_last(), color);
    let (screen2, pos2, cell) = print_step(screen1, pos1, s.last(), color);
    let cells = cells1.push(cell);
    assert forall|i: int| 0 <= i < cells.len() implies (#[trigger] cells[i]).offset + 1 < 2 * BUFFER_WIDTH * BUFFER_HEIGHT by {
        if i < cells1.len() {
            assert(cells[i] == cells1[i]);
        }
    }
}

/// The VGA text-mode palette: each colour has its fixed hardware index, and
/// an attribute byte holds the foreground index in its low four bits and
/// the background index in its high four bits.
pub proof fn vga_palette(bg: Color, fg: Color)
    ensures
        color_value(Color::Black) == 0,
        color_value(Color::Blue) == 1,
        color_value(Color::Green) == 2,
        color_value(Color::Cyan) == 3,
        color_value(Color::Red) == 4,
        color_value(Color::Magenta) == 5,
        color_value(Color::Brown) == 6,
        color_value(Color::LightGray) == 7,
        color_value(Color::DarkGray) == 8,
        color_value(Color::LightBlue) == 9,
        color_value(Color::LightGreen) == 10,
        color_value(Color::LightCyan) == 11,
        color_value(Color::LightRed) == 12,
        color_value(Color::Pink) == 13,
        color_value(Color::Yellow) == 14,
        color_value(Color::White) == 15,
        (color_value(bg) * 16 + color_value(fg)) % 16 == color_value(fg),
        (color_value(bg) * 16 + color_value(fg)) / 16 == color_value(bg),
        color_value(bg) * 16 + color_value(fg) <= 0xFF,
{
}

/// The console fills its 80 x 25 cells row by row: a character printed
/// with the cursor on a cell of the screen goes to that cell, whose video
/// memory bytes are the character and the colour at twice the cell's
/// index, and the cursor moves one column right; with the cursor past the
/// end of a row the character goes to the start of the next row, or of the
/// top row after the last one. No other cell changes.
pub proof fn console_fills_row_by_row(screen: Seq<char>, pos: (usize, usize), chr: char, color: u8)
    requires
        screen.len() == 80 * 25,
        pos.0 <= 80,
        pos.1 < 25,
    ensures
        ({
            let (after, next, cell) = print_step(screen, pos, chr, color);
            let (col, row) = if pos.0 < 80 {
                (pos.0 as int, pos.1 as int)
            } else if pos.1 < 24 {
                (0int, pos.1 + 1)
            } else {
                (0int, 0int)
            };
            &&& after.len() == screen.len()
            &&& after[80 * row + col] == chr
            &&& forall|i: int| 0 <= i < 80 * 25 && i != 80 * row + col ==> #[trigger] after[i] == screen[i]
            &&& cell == VgaCell { offset: (2 * (80 * row + col)) as usize, character: chr as u8, color }
            &&& next == ((col + 1) as usize, row as usize)
        }),
{
}

} // verus!
