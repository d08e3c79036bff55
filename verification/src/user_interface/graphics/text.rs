//! The text typed so far, kept as fixed-width lines, and the bitmap font
//! used to draw it.

use vstd::prelude::*;
use vstd::slice::slice_subrange;

verus! {

/// Bytes of the bitmap font: 256 glyphs of 16 rows, one byte per row.
pub const FONT_SIZE: usize = 4096;

/// Rows of a glyph.
pub const CHAR_HEIGHT: usize = 16;

/// Columns of a glyph.
pub const CHAR_WIDTH: usize = 8;

/// Characters held by one line of text.
pub const NB_CHAR_BY_LINE: usize = 230;

/// Offset in the font of the glyph drawn for `c`; code points past 255
/// share the last glyph.
pub open spec fn glyph_offset(c: char) -> int {
    (if (c as int) < 255 { c as int } else { 255 }) * 16
}

/// The glyph of `c` in `font`.
pub open spec fn glyph(font: Seq<u8>, c: char) -> Seq<u8> {
    font.subrange(glyph_offset(c), glyph_offset(c) + 16)
}

/// `c` is an ASCII letter or digit.
pub open spec fn is_ascii_alphanumeric(c: char) -> bool {
    ||| 48 <= (c as int) <= 57
    ||| 65 <= (c as int) <= 90
    ||| 97 <= (c as int) <= 122
}

/// A fresh line holding `c` followed by NUL characters.
pub open spec fn fresh_line(c: char) -> Seq<char> {
    Seq::new(NB_CHAR_BY_LINE as nat, |i: int| if i == 0 { c } else { '\0' })
}

/// The characters of each line.
pub open spec fn line_views(lines: Seq<[char; 230]>) -> Seq<Seq<char>> {
    Seq::new(lines.len(), |i: int| lines[i]@)
}

/// The lines and last-line count after one more character `c` is typed:
/// letters and digits go to the last line while it has room and to a fresh
/// line otherwise; anything else is ignored.
pub open spec fn add_char_step(lines: Seq<Seq<char>>, count: int, c: char) -> (Seq<Seq<char>>, int) {
    if !is_ascii_alphanumeric(c) {
        (lines, count)
    } else if count < NB_CHAR_BY_LINE && lines.len() > 0 {
        let last = lines.len() - 1;
        (lines.update(last, lines[last].update(count, c)), count + 1)
    } else {
        (lines.push(fresh_line(c)), 1)
    }
}

/// The lines and last-line count after typing `cs` into an empty text.
pub open spec fn text_after(cs: Seq<char>) -> (Seq<Seq<char>>, int)
    decreases cs.len(),
{
    if cs.len() == 0 {
        (Seq::empty(), 0)
    } else {
        let (lines, count) = text_after(cs.drop_last());
        add_char_step(lines, count, cs.last())
    }
}

/// Typing keeps exactly the ASCII letters and digits: a character in
/// `'0'..='9'`, `'A'..='Z'` or `'a'..='z'` is written at the cursor (the
/// next cell of the last line, or the first cell of a fresh line once the
/// last one is full or there is none) and moves the count on by one; any
/// other character leaves the text and the count as they were.
pub proof fn typing_keeps_letters_and_digits(lines: Seq<Seq<char>>, count: int, c: char)
    requires
        0 <= count <= 230,
        lines.len() > 0 ==> lines.last().len() == 230,
    ensures
        ({
            let (after, n) = add_char_step(lines, count, c);
            let kept = ('0' <= c && c <= '9') || ('A' <= c && c <= 'Z') || ('a' <= c && c <= 'z');
            &&& !kept ==> after == lines && n == count
            &&& kept && lines.len() > 0 && count < 230 ==> {
                &&& after.len() == lines.len()
                &&& after.last()[count] == c
                &&& forall|j: int| 0 <= j < 230 && j != count ==> #[trigger] after.last()[j] == lines.last()[j]
                &&& forall|i: int| 0 <= i < lines.len() - 1 ==> #[trigger] after[i] == lines[i]
                &&& n == count + 1
            }
            &&& kept && !(lines.len() > 0 && count < 230) ==> {
                &&& after.len() == lines.len() + 1
                &&& after.last().len() == 230
                &&& after.last()[0] == c
                &&& forall|j: int| 1 <= j < 230 ==> #[trigger] after.last()[j] == '\0'
                &&& forall|i: int| 0 <= i < lines.len() ==> #[trigger] after[i] == lines[i]
                &&& n == 1
            }
        }),
{
}

/// The letters and digits of `cs`, in order.
pub open spec fn alnum_chars(cs: Seq<char>) -> Seq<char>
    decreases cs.len(),
{
    if cs.len() == 0 {
        Seq::empty()
    } else if is_ascii_alphanumeric(cs.last()) {
        alnum_chars(cs.drop_last()).push(cs.last())
    } else {
        alnum_chars(cs.drop_last())
    }
}

/// The layout of typed text: the letters and digits typed so far fill the
/// lines in order, 230 to a line, the last line holds the rest followed by
/// NUL characters, and its count says how many it holds.
pub proof fn text_layout(cs: Seq<char>)
    ensures
        ({
            let (lines, count) = text_after(cs);
            let s = alnum_chars(cs);
            let n = s.len() as int;
            &&& n == 0 ==> lines.len() == 0 && count == 0
            &&& n > 0 ==> {
                &&& lines.len() == (n + 229) / 230
                &&& count == n - 230 * (lines.len() - 1)
                &&& 1 <= count <= 230
            }
            &&& forall|i: int| 0 <= i < lines.len() ==> (#[trigger] lines[i]).len() == NB_CHAR_BY_LINE
            &&& forall|i: int, j: int|
                0 <= i < lines.len() && 0 <= j < NB_CHAR_BY_LINE ==> #[trigger] lines[i][j] == if 230 * i + j < n {
                    s[230 * i + j]
                } else {
                    '\0'
                }
        }),
    decreases cs.len(),
{
    if cs.len() > 0 {
        text_layout(cs.drop_last());
        let (lines0, count0) = text_after(cs.drop_last());
        let s0 = alnum_chars(cs.drop_last());
        let n0 = s0.len() as int;
        let c = cs.last();
        let (lines, count) = text_after(cs);
        let s = alnum_chars(cs);
        let n = s.len() as int;
        if is_ascii_alphanumeric(c) {
            assert(s == s0.push(c));
            if count0 < NB_CHAR_BY_LINE && lines0.len() > 0 {
                let last = lines0.len() - 1;
                assert forall|i: int, j: int|
                    0 <= i < lines.len() && 0 <= j < NB_CHAR_BY_LINE implies #[trigger] lines[i][j] == if 230 * i + j < n {
                        s[230 * i + j]
                    } else {
                        '\0'
                    } by {
                    if i == last && j == count0 {
                        assert(230 * i + j == n0);
                    } else {
                        assert(lines[i][j] == lines0[i][j]);
                    }
                }
            } else {
                assert(n0 == 230 * lines0.len());
                assert forall|i: int, j: int|
                    0 <= i < lines.len() && 0 <= j < NB_CHAR_BY_LINE implies #[trigger] lines[i][j] == if 230 * i + j < n {
                        s[230 * i + j]
                    } else {
                        '\0'
                    } by {
                    if i < lines0.len() {
                        assert(lines[i] == lines0[i]);
                        assert(lines[i][j] == lines0[i][j]);
                    } else {
                        assert(i == lines0.len());
                        assert(lines[i] == fresh_line(c));
                    }
                }
            }
        } else {
            assert(s == s0);
        }
    }
}

/// The lines of typed text; only the last one receives characters.
pub struct TextManager {
    text_lines: Vec<[char; 230]>,
    current_line_char_count: usize,
}

impl TextManager {
    /// The lines, first to last.
    pub closed spec fn lines(&self) -> Seq<[char; 230]> {
        self.text_lines@
    }

    /// How many characters the last line holds.
    pub closed spec fn count(&self) -> int {
        self.current_line_char_count as int
    }

    /// The 16 rows of the glyph of `c`.
    pub fn lookup_char(font: &[u8], c: char) -> (g: &[u8])
        requires
            font@.len() == FONT_SIZE,
        ensures
            g@ == glyph(font@, c),
    {
        let code = c as u32;
        let ascii_val: usize = if code < 255 { code as usize } else { 255 };
        let start_offset = ascii_val * 16;
        slice_subrange(font, start_offset, start_offset + 16)
    }

    /// Appends `c` to the text when it is an ASCII letter or digit: to the
    /// last line while it has room, to a fresh line otherwise.
    pub fn add_char(&mut self, c: char)
        ensures
            (line_views(final(self).lines()), final(self).count()) == add_char_step(
                line_views(old(self).lines()),
                old(self).count(),
                c,
            ),
            old(self).count() <= NB_CHAR_BY_LINE ==> final(self).count() <= NB_CHAR_BY_LINE,
            !is_ascii_alphanumeric(c) ==> final(self).lines() == old(self).lines() && final(self).count()
                == old(self).count(),
            is_ascii_alphanumeric(c) && old(self).count() < NB_CHAR_BY_LINE && old(self).lines().len()
                > 0 ==> {
                let last = old(self).lines().len() - 1;
                &&& final(self).lines().len() == old(self).lines().len()
                &&& forall|i: int| 0 <= i < last ==> #[trigger] final(self).lines()[i] == old(self).lines()[i]
                &&& final(self).lines()[last]@ == old(self).lines()[last]@.update(old(self).count(), c)
                &&& final(self).count() == old(self).count() + 1
            },
            is_ascii_alphanumeric(c) && !(old(self).count() < NB_CHAR_BY_LINE && old(self).lines().len()
                > 0) ==> {
                &&& final(self).lines().len() == old(self).lines().len() + 1
                &&& forall|i: int| 0 <= i < old(self).lines().len() ==> #[trigger] final(self).lines()[i] == old(self).lines()[i]
                &&& final(self).lines().last()@ == fresh_line(c)
                &&& final(self).count() == 1
            },
    {
        let code = c as u32;
        let alnum = (48 <= code && code <= 57) || (65 <= code && code <= 90) || (97 <= code && code <= 122);
        if !alnum {
            return;
        }
        let n = self.text_lines.len();
        if self.current_line_char_count < NB_CHAR_BY_LINE && n > 0 {
            let mut line = self.text_lines[n - 1];
            line[self.current_line_char_count] = c;
            self.text_lines.set(n - 1, line);
            self.current_line_char_count += 1;
            assert(line_views(self.lines()) =~= line_views(old(self).lines()).update(
                n - 1,
                line_views(old(self).lines())[n - 1].update(old(self).count(), c),
            ));
        } else {
            let mut line = ['\0'; 230];
            line[0] = c;
            self.text_lines.push(line);
            self.current_line_char_count = 1;
            assert(line@ =~= fresh_line(c));
            assert(line_views(self.lines()) =~= line_views(old(self).lines()).push(fresh_line(c)));
        }
    }

    /// An empty text.
    pub fn new() -> (t: Self)
        ensures
            t.lines().len() == 0,
            t.count() == 0,
            (line_views(t.lines()), t.count()) == text_after(Seq::empty()),
    {
        TextManager { text_lines: Vec::new(), current_line_char_count: 0 }
    }

    /// The lines, first to last.
    pub fn text_lines(&self) -> (l: &Vec<[char; 230]>)
        ensures
            l@ == self.lines(),
    {
        &self.text_lines
    }

    /// How many characters the last line holds.
    pub fn current_line_char_count(&self) -> (n: usize)
        ensures
            n == self.count(),
    {
        self.current_line_char_count
    }
}

} // verus!
