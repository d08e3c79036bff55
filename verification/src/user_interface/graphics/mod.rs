pub mod helper;
pub mod text;

use crate::user_interface::graphics::helper::{
    draw_points,
    glyph_fits,
    glyph_pixels,
    lemma_glyph_fits_small,
    text_color,
    Color,
    GraphicsHelper,
    Point,
    GLYPH_COLUMNS,
    GLYPH_ROWS,
};
use crate::user_interface::graphics::text::{FONT_SIZE, NB_CHAR_BY_LINE};
use crate::BootConfig;
use vstd::prelude::*;

verus! {

/// Height in pixels of a text line.
pub const LINE_HEIGHT: u32 = 16;

/// Width in pixels of a character cell.
pub const CELL_WIDTH: u32 = 8;

/// The characters among the first `n` of `line` that are drawn (all but
/// NUL), each with the position of its cell: drawn characters sit side by
/// side from the left edge, on row `y`.
pub open spec fn line_placements(line: Seq<char>, y: u32, n: nat) -> Seq<(char, u32, u32)>
    decreases n,
{
    if n == 0 {
        Seq::empty()
    } else {
        let prev = line_placements(line, y, (n - 1) as nat);
        let ch = line[n - 1];
        if ch == '\0' {
            prev
        } else {
            prev.push((ch, (CELL_WIDTH * prev.len()) as u32, y))
        }
    }
}

/// The characters of the first `n` lines that fit on a screen `height`
/// pixels tall: line `l` is drawn on row `16 * l` while a whole line fits
/// below it.
pub open spec fn text_placements(lines: Seq<[char; 230]>, height: u32, n: nat) -> Seq<(char, u32, u32)>
    decreases n,
{
    if n == 0 {
        Seq::empty()
    } else {
        let prev = text_placements(lines, height, (n - 1) as nat);
        let y = LINE_HEIGHT * (n - 1);
        if y + LINE_HEIGHT < height {
            prev + line_placements(lines[n - 1]@, y as u32, NB_CHAR_BY_LINE as nat)
        } else {
            prev
        }
    }
}

/// `buf` after the characters of `pls` are drawn, first to last.
pub open spec fn draw_glyphs(c: BootConfig, buf: Seq<u8>, font: Seq<u8>, pls: Seq<(char, u32, u32)>) -> Seq<u8>
    decreases pls.len(),
{
    if pls.len() == 0 {
        buf
    } else {
        let p = pls.last();
        draw_points(
            c,
            draw_glyphs(c, buf, font, pls.drop_last()),
            glyph_pixels(font, p.0, p.1, p.2, (GLYPH_ROWS * GLYPH_COLUMNS) as nat),
            text_color(),
        )
    }
}

/// Moving from one line to the next never overflows the row coordinate.
pub open spec fn rows_fit(n: int, height: u32) -> bool {
    forall|l: int| 0 <= l < n && #[trigger] (LINE_HEIGHT * l) < height ==> LINE_HEIGHT * l + LINE_HEIGHT <= u32::MAX
}

proof fn lemma_draw_glyphs_push(c: BootConfig, buf: Seq<u8>, font: Seq<u8>, pls: Seq<(char, u32, u32)>, p: (char, u32, u32))
    ensures
        draw_glyphs(c, buf, font, pls.push(p)) == draw_points(
            c,
            draw_glyphs(c, buf, font, pls),
            glyph_pixels(font, p.0, p.1, p.2, (GLYPH_ROWS * GLYPH_COLUMNS) as nat),
            text_color(),
        ),
{
    assert(pls.push(p).drop_last() =~= pls);
}

/// Draws the text `lines` from the top-left corner of the screen: one line
/// per 16-pixel row while a whole row still fits, the non-NUL characters of
/// a line side by side in 8-pixel cells.
pub fn render_lines(graphics: &mut GraphicsHelper, lines: &Vec<[char; 230]>, font: &[u8])
    requires
        font@.len() == FONT_SIZE,
        rows_fit(lines@.len() as int, old(graphics).config().fb_height),
    ensures
        final(graphics).config() == old(graphics).config(),
        final(graphics).buffer() == draw_glyphs(
            old(graphics).config(),
            old(graphics).buffer(),
            font@,
            text_placements(lines@, old(graphics).config().fb_height, lines@.len()),
        ),
{
    let ghost cfg = graphics.config();
    let ghost buf0 = graphics.buffer();
    let max_height = graphics.boot_config().fb_height;
    let mut y: u32 = 0;
    let mut l: usize = 0;
    while l < lines.len()
        invariant_except_break
            y == LINE_HEIGHT * l,
            graphics.buffer() == draw_glyphs(cfg, buf0, font@, text_placements(lines@, max_height, l as nat)),
            y < max_height || l == 0,
        invariant
            l <= lines@.len(),
            font@.len() == FONT_SIZE,
            max_height == cfg.fb_height,
            rows_fit(lines@.len() as int, max_height),
            graphics.config() == cfg,
        ensures
            graphics.buffer() == draw_glyphs(
                cfg,
                buf0,
                font@,
                text_placements(lines@, max_height, lines@.len()),
            ),
        decreases lines@.len() - l,
    {
        assert(y + LINE_HEIGHT <= u32::MAX) by {
            if l > 0 {
                assert(LINE_HEIGHT * (l as int) < max_height);
            }
        }
        if y + LINE_HEIGHT >= max_height {
            proof {
                assert forall|m: nat| l <= m <= lines@.len() implies text_placements(lines@, max_height, m)
                    == text_placements(lines@, max_height, l as nat) by {
                    lemma_placements_stop(lines@, max_height, l as nat, m);
                }
            }
            break;
        }
        let line = lines[l];
        let ghost before = text_placements(lines@, max_height, l as nat);
        let mut x: u32 = 0;
        let mut k: usize = 0;
        while k < NB_CHAR_BY_LINE
            invariant
                k <= NB_CHAR_BY_LINE,
                l < lines@.len(),
                line == lines@[l as int],
                font@.len() == FONT_SIZE,
                y + LINE_HEIGHT < max_height,
                max_height == cfg.fb_height,
                graphics.config() == cfg,
                x == CELL_WIDTH * line_placements(line@, y, k as nat).len(),
                line_placements(line@, y, k as nat).len() <= k,
                graphics.buffer() == draw_glyphs(
                    cfg,
                    buf0,
                    font@,
                    before + line_placements(line@, y, k as nat),
                ),
            decreases NB_CHAR_BY_LINE - k,
        {
            let ch = line[k];
            let ghost prev = line_placements(line@, y, k as nat);
            if ch != '\0' {
                proof {
                    lemma_glyph_fits_small(font@, ch, x, y);
                    lemma_draw_glyphs_push(cfg, buf0, font@, before + prev, (ch, x, y));
                    assert((before + prev).push((ch, x, y)) =~= before + prev.push((ch, x, y)));
                }
                graphics.print_char(ch, &Point { x, y }, font);
                x += CELL_WIDTH;
            }
            k += 1;
        }
        y += LINE_HEIGHT;
        l += 1;
    }
}

proof fn lemma_placements_stop(lines: Seq<[char; 230]>, height: u32, l: nat, m: nat)
    requires
        l <= m,
        LINE_HEIGHT * l + LINE_HEIGHT >= height,
    ensures
        text_placements(lines, height, m) == text_placements(lines, height, l),
    decreases m - l,
{
    if m > l {
        lemma_placements_stop(lines, height, l, (m - 1) as nat);
    }
}

/// How many lines of text a screen `height` pixels tall shows, out of the
/// first `n`: line `l` is shown when its 16-pixel row ends above the
/// bottom edge, `16 * l + 16 < height`.
pub open spec fn shown_lines(height: u32, n: nat) -> nat {
    if height == 0 {
        0
    } else {
        let fit = ((height - 1) / 16) as nat;
        if n <= fit {
            n
        } else {
            fit
        }
    }
}

/// A line is laid out left to right on its row: the drawn characters are
/// the non-NUL characters among the first `n` of the line, in order, and
/// the `i`-th of them sits in the cell `8 * i` pixels from the left edge,
/// on row `y`.
pub proof fn line_layout(line: Seq<char>, y: u32, n: nat)
    requires
        n <= line.len(),
        n <= 230,
    ensures
        ({
            let p = line_placements(line, y, n);
            &&& p.map_values(|t: (char, u32, u32)| t.0) == line.take(n as int).filter(|c: char| c != '\0')
            &&& forall|i: int| 0 <= i < p.len() ==> (#[trigger] p[i]).1 == 8 * i && p[i].2 == y
            &&& p.len() <= n
        }),
    decreases n,
{
    broadcast use Seq::lemma_filter_push;

    if n == 0 {
        assert(line.take(0) =~= Seq::<char>::empty());
        reveal(Seq::filter);
        assert(line_placements(line, y, 0).map_values(|t: (char, u32, u32)| t.0) =~= Seq::<char>::empty());
    } else {
        line_layout(line, y, (n - 1) as nat);
        let prev = line_placements(line, y, (n - 1) as nat);
        let p = line_placements(line, y, n);
        assert(line.take(n as int) =~= line.take(n - 1).push(line[n - 1]));
        if line[n - 1] == '\0' {
            assert(p == prev);
        } else {
            assert(p == prev.push((line[n - 1], (CELL_WIDTH * prev.len()) as u32, y)));
            assert(p.map_values(|t: (char, u32, u32)| t.0) =~= prev.map_values(|t: (char, u32, u32)| t.0).push(
                line[n - 1],
            ));
        }
    }
}

/// The text is drawn line after line from the top of the screen: what is
/// drawn is the layout of line 0 on row 0, then that of line 1 on row 16,
/// and so on, for every line whose row fits on the screen, and nothing else.
pub proof fn text_layout_by_rows(lines: Seq<[char; 230]>, height: u32, n: nat)
    requires
        n <= lines.len(),
    ensures
        text_placements(lines, height, n) == Seq::new(
            shown_lines(height, n),
            |l: int| line_placements(lines[l]@, (16 * l) as u32, 230nat),
        ).flatten(),
    decreases n,
{
    let rows = |m: nat| Seq::new(m, |l: int| line_placements(lines[l]@, (16 * l) as u32, 230nat));
    if n == 0 {
        assert(rows(0) =~= Seq::<Seq<(char, u32, u32)>>::empty());
    } else {
        text_layout_by_rows(lines, height, (n - 1) as nat);
        let m0 = shown_lines(height, (n - 1) as nat);
        let m = shown_lines(height, n);
        if LINE_HEIGHT * (n - 1) + LINE_HEIGHT < height {
            assert(m0 == n - 1 && m == n);
            assert(rows(m) =~= rows(m0).push(line_placements(lines[n - 1]@, (16 * (n - 1)) as u32, 230nat)));
            rows(m0).lemma_flatten_push(line_placements(lines[n - 1]@, (16 * (n - 1)) as u32, 230nat));
        } else {
            assert(m == m0);
        }
    }
}

} // verus!
