//! Software rendering into a back buffer laid out like the linear
//! framebuffer: `fb_pitch` bytes per row, `fb_bpp / 8` bytes per pixel, and
//! each pixel stored blue, green, red.

use crate::user_interface::graphics::text::{glyph, glyph_offset, TextManager, FONT_SIZE};
use crate::utils::NotInitError;
use crate::BootConfig;
use vstd::prelude::*;

verus! {

/// A pixel position.
#[derive(Clone, Copy, Debug, PartialEq, Eq)]
pub struct Point {
    pub x: u32,
    pub y: u32,
}

impl Point {
    pub fn new(x: u32, y: u32) -> (r: Self)
        ensures
            r == (Point { x, y }),
    {
        Self { x, y }
    }
}

impl From<(u32, u32)> for Point {
    fn from(value: (u32, u32)) -> (r: Self) {
        Self { x: value.0, y: value.1 }
    }
}

impl vstd::std_specs::convert::FromSpecImpl<(u32, u32)> for Point {
    open spec fn obeys_from_spec() -> bool {
        true
    }

    open spec fn from_spec(v: (u32, u32)) -> Self {
        Point { x: v.0, y: v.1 }
    }
}

impl core::ops::Add for Point {
    type Output = Point;

    fn add(self, rhs: Point) -> (r: Point) {
        Point { x: self.x + rhs.x, y: self.y + rhs.y }
    }
}

impl vstd::std_specs::ops::AddSpecImpl for Point {
    open spec fn obeys_add_spec() -> bool {
        true
    }

    open spec fn add_req(self, rhs: Point) -> bool {
        self.x + rhs.x <= u32::MAX && self.y + rhs.y <= u32::MAX
    }

    open spec fn add_spec(self, rhs: Point) -> Point {
        Point { x: (self.x + rhs.x) as u32, y: (self.y + rhs.y) as u32 }
    }
}

impl<'a> core::ops::Add<Point> for &'a Point {
    type Output = Point;

    fn add(self, rhs: Point) -> (r: Point) {
        Point { x: self.x + rhs.x, y: self.y + rhs.y }
    }
}

impl<'a> vstd::std_specs::ops::AddSpecImpl<Point> for &'a Point {
    open spec fn obeys_add_spec() -> bool {
        true
    }

    open spec fn add_req(self, rhs: Point) -> bool {
        self.x + rhs.x <= u32::MAX && self.y + rhs.y <= u32::MAX
    }

    open spec fn add_spec(self, rhs: Point) -> Point {
        Point { x: (self.x + rhs.x) as u32, y: (self.y + rhs.y) as u32 }
    }
}

impl<'a> core::ops::Add<Point> for &'a mut Point {
    type Output = Point;

    fn add(self, rhs: Point) -> (r: Point) {
        Point { x: self.x + rhs.x, y: self.y + rhs.y }
    }
}

impl<'a> vstd::std_specs::ops::AddSpecImpl<Point> for &'a mut Point {
    open spec fn obeys_add_spec() -> bool {
        true
    }

    open spec fn add_req(self, rhs: Point) -> bool {
        self.x + rhs.x <= u32::MAX && self.y + rhs.y <= u32::MAX
    }

    open spec fn add_spec(self, rhs: Point) -> Point {
        Point { x: (self.x + rhs.x) as u32, y: (self.y + rhs.y) as u32 }
    }
}

/// A 24-bit colour.
#[derive(Clone, Copy, Debug, PartialEq, Eq)]
pub struct Color {
    pub r: u8,
    pub g: u8,
    pub b: u8,
}

impl Color {
    pub fn new(r: u8, g: u8, b: u8) -> (c: Self)
        ensures
            c == (Color { r, g, b }),
    {
        Self { r, g, b }
    }
}

impl From<(u8, u8, u8)> for Color {
    fn from(value: (u8, u8, u8)) -> (c: Self) {
        Self { r: value.0, g: value.1, b: value.2 }
    }
}

impl vstd::std_specs::convert::FromSpecImpl<(u8, u8, u8)> for Color {
    open spec fn obeys_from_spec() -> bool {
        true
    }

    open spec fn from_spec(v: (u8, u8, u8)) -> Self {
        Color { r: v.0, g: v.1, b: v.2 }
    }
}

/// Byte offset of pixel `(x, y)` in the buffer, or `None` when the pixel
/// lies outside the screen or its offset does not fit in a `usize`.
pub open spec fn pixel_offset(c: BootConfig, x: u32, y: u32) -> Option<int> {
    if x >= c.fb_width || y >= c.fb_height {
        None
    } else {
        let y_offset = y * c.fb_pitch;
        let x_offset = x * (c.fb_bpp / 8);
        if y_offset > usize::MAX || x_offset > usize::MAX || y_offset + x_offset > usize::MAX {
            None
        } else {
            Some(y_offset + x_offset)
        }
    }
}

/// `buf` after pixel `(x, y)` is painted `color`: the blue, green and red
/// bytes go at the pixel's offset when all three fit in the buffer.
pub open spec fn put_pixel(c: BootConfig, buf: Seq<u8>, x: u32, y: u32, color: Color) -> Seq<u8> {
    match pixel_offset(c, x, y) {
        Some(o) => if o + 2 < buf.len() {
            buf.update(o, color.b).update(o + 1, color.g).update(o + 2, color.r)
        } else {
            buf
        },
        None => buf,
    }
}

/// `buf` after the points of `pts` are painted, first to last; a point is
/// taken modulo 2^32 on each axis.
pub open spec fn draw_points(c: BootConfig, buf: Seq<u8>, pts: Seq<(int, int)>, color: Color) -> Seq<u8>
    decreases pts.len(),
{
    if pts.len() == 0 {
        buf
    } else {
        put_pixel(
            c,
            draw_points(c, buf, pts.drop_last(), color),
            pts.last().0 as u32,
            pts.last().1 as u32,
            color,
        )
    }
}

/// The points that Bresenham's algorithm visits from `(x, y)` to
/// `(x2, y2)`, given the running error term and the line's steps; `fuel`
/// bounds the number of points.
pub open spec fn line_from(
    x: int,
    y: int,
    x2: int,
    y2: int,
    err: int,
    dx: int,
    dy: int,
    sx: int,
    sy: int,
    fuel: nat,
) -> Seq<(int, int)>
    decreases fuel,
{
    if fuel == 0 {
        Seq::empty()
    } else if x == x2 && y == y2 {
        seq![(x, y)]
    } else {
        let e2 = 2 * err;
        let err1 = if e2 > -dy { err - dy } else { err };
        let nx = if e2 > -dy { x + sx } else { x };
        let err2 = if e2 < dx { err1 + dx } else { err1 };
        let ny = if e2 < dx { y + sy } else { y };
        seq![(x, y)] + line_from(nx, ny, x2, y2, err2, dx, dy, sx, sy, (fuel - 1) as nat)
    }
}

pub open spec fn abs(v: int) -> int {
    if v < 0 {
        -v
    } else {
        v
    }
}

/// The points of the line from `a` to `b`, coordinates read as `i32`.
pub open spec fn line_points(a: Point, b: Point) -> Seq<(int, int)> {
    let x1 = a.x as i32 as int;
    let y1 = a.y as i32 as int;
    let x2 = b.x as i32 as int;
    let y2 = b.y as i32 as int;
    let dx = abs(x2 - x1);
    let dy = abs(y2 - y1);
    let sx = if x1 < x2 { 1int } else { -1int };
    let sy = if y1 < y2 { 1int } else { -1int };
    line_from(x1, y1, x2, y2, dx - dy, dx, dy, sx, sy, (dx + dy + 1) as nat)
}

/// `v` fits in an `i32`.
pub open spec fn fits_i32(v: int) -> bool {
    i32::MIN <= v <= i32::MAX
}

/// Running Bresenham's algorithm from the given state, for at most `fuel`
/// steps, keeps every intermediate value of its error term (`2 * err`,
/// `err - dy`, `err + dx`) within `i32`.
pub open spec fn line_steps_fit(
    x: int,
    y: int,
    x2: int,
    y2: int,
    err: int,
    dx: int,
    dy: int,
    sx: int,
    sy: int,
    fuel: nat,
) -> bool
    decreases fuel,
{
    if fuel == 0 || (x == x2 && y == y2) {
        true
    } else {
        let e2 = 2 * err;
        let err1 = if e2 > -dy { err - dy } else { err };
        let nx = if e2 > -dy { x + sx } else { x };
        let err2 = if e2 < dx { err1 + dx } else { err1 };
        let ny = if e2 < dx { y + sy } else { y };
        &&& fits_i32(e2)
        &&& fits_i32(err1)
        &&& fits_i32(err2)
        &&& line_steps_fit(nx, ny, x2, y2, err2, dx, dy, sx, sy, (fuel - 1) as nat)
    }
}

/// Drawing the line from `a` to `b` stays within `i32` arithmetic: the
/// coordinate differences fit and have an absolute value, and no error
/// term of the run overflows.
pub open spec fn line_in_range(a: Point, b: Point) -> bool {
    let x1 = a.x as i32 as int;
    let y1 = a.y as i32 as int;
    let x2 = b.x as i32 as int;
    let y2 = b.y as i32 as int;
    let dx = abs(x2 - x1);
    let dy = abs(y2 - y1);
    let sx = if x1 < x2 { 1int } else { -1int };
    let sy = if y1 < y2 { 1int } else { -1int };
    &&& i32::MIN < x2 - x1 <= i32::MAX
    &&& i32::MIN < y2 - y1 <= i32::MAX
    &&& line_steps_fit(x1, y1, x2, y2, dx - dy, dx, dy, sx, sy, (dx + dy + 1) as nat)
}

/// A back buffer together with the framebuffer geometry it mirrors.
pub struct GraphicsHelper {
    boot_config: BootConfig,
    back_buffer: Vec<u8>,
}

impl GraphicsHelper {
    /// The geometry the buffer is laid out for.
    pub closed spec fn config(&self) -> BootConfig {
        self.boot_config
    }

    /// The content of the back buffer.
    pub closed spec fn buffer(&self) -> Seq<u8> {
        self.back_buffer@
    }

    /// A helper for the framebuffer that `config` describes, with a cleared
    /// back buffer of `fb_pitch * fb_height` bytes; fails when the boot
    /// configuration is not known yet.
    pub fn new(config: Option<BootConfig>) -> (r: Result<Self, NotInitError>)
        requires
            config matches Some(c) ==> c.fb_pitch * c.fb_height <= u32::MAX,
        ensures
            match config {
                Some(c) => r matches Ok(h) && h.config() == c && h.buffer() == Seq::new(
                    (c.fb_pitch * c.fb_height) as nat,
                    |i: int| 0u8,
                ),
                None => r == Err::<Self, NotInitError>(NotInitError),
            },
    {
        match config {
            Some(c) => {
                let fb_size = (c.fb_pitch * c.fb_height) as usize;
                let back_buffer = vec![0u8; fb_size];
                let helper = GraphicsHelper { boot_config: c, back_buffer };
                assert(helper.buffer() =~= Seq::new((c.fb_pitch * c.fb_height) as nat, |i: int| 0u8));
                Ok(helper)
            },
            None => Err(NotInitError),
        }
    }

    /// The geometry the buffer is laid out for.
    pub fn boot_config(&self) -> (c: BootConfig)
        ensures
            c == self.config(),
    {
        self.boot_config
    }

    /// The back buffer, ready to be copied to the framebuffer.
    pub fn back_buffer(&self) -> (b: &Vec<u8>)
        ensures
            b@ == self.buffer(),
    {
        &self.back_buffer
    }

    /// Byte offset of pixel `(x, y)`.
    pub fn get_pixel_offset(&self, x: u32, y: u32) -> (r: Option<usize>)
        ensures
            match pixel_offset(self.config(), x, y) {
                Some(o) => r == Some(o as usize),
                None => r is None,
            },
    {
        if x >= self.boot_config.fb_width || y >= self.boot_config.fb_height {
            return None;
        }
        let pitch = self.boot_config.fb_pitch as usize;
        let bpp = (self.boot_config.fb_bpp as usize) / 8;
        let y_offset = match (y as usize).checked_mul(pitch) {
            Some(v) => v,
            None => return None,
        };
        let x_offset = match (x as usize).checked_mul(bpp) {
            Some(v) => v,
            None => return None,
        };
        y_offset.checked_add(x_offset)
    }

    /// Paints one pixel; pixels off the screen or past the buffer are
    /// dropped.
    pub fn draw_pixel(&mut self, point: Point, color: Color)
        ensures
            final(self).config() == old(self).config(),
            final(self).buffer() == put_pixel(old(self).config(), old(self).buffer(), point.x, point.y, color),
    {
        if let Some(offset) = self.get_pixel_offset(point.x, point.y) {
            let len = self.back_buffer.len();
            if offset < len && len - offset > 2 {
                self.back_buffer[offset] = color.b;
                self.back_buffer[offset + 1] = color.g;
                self.back_buffer[offset + 2] = color.r;
            }
        }
    }

    /// Fills the back buffer with zeros.
    pub fn clear_screen(&mut self)
        ensures
            final(self).config() == old(self).config(),
            final(self).buffer() == Seq::new(old(self).buffer().len(), |i: int| 0u8),
    {
        let len = self.back_buffer.len();
        let mut i: usize = 0;
        while i < len
            invariant
                i <= len,
                len == old(self).buffer().len(),
                self.back_buffer@.len() == len,
                self.boot_config == old(self).config(),
                forall|j: int| 0 <= j < i ==> #[trigger] self.back_buffer@[j] == 0u8,
            decreases len - i,
        {
            self.back_buffer[i] = 0;
            i += 1;
        }
        assert(self.buffer() =~= Seq::new(old(self).buffer().len(), |i: int| 0u8));
    }
}

proof fn lemma_line_x_stays(dx: int, dy: int, ny: int)
    by (nonlinear_arith)
    requires
        0 <= ny < dy,
        0 <= dx,
    ensures
        2 * (dx - dy - dy * dx + dx * ny) <= -dy,
{
    assert(dx * (1 + ny - dy) <= 0);
}

proof fn lemma_line_y_stays(dx: int, dy: int, nx: int)
    by (nonlinear_arith)
    requires
        0 <= nx < dx,
        0 <= dy,
    ensures
        2 * (dx - dy - dy * nx + dx * dy) >= dx,
{
    assert(dy * (1 + nx) <= dy * dx);
}

proof fn lemma_line_err_step(dx: int, dy: int, nx: int, ny: int)
    by (nonlinear_arith)
    ensures
        dx - dy - dy * (nx + 1) + dx * ny == (dx - dy - dy * nx + dx * ny) - dy,
        dx - dy - dy * nx + dx * (ny + 1) == (dx - dy - dy * nx + dx * ny) + dx,
{
}

proof fn lemma_draw_points_push(c: BootConfig, buf: Seq<u8>, pts: Seq<(int, int)>, p: (int, int), color: Color)
    ensures
        draw_points(c, buf, pts.push(p), color) == put_pixel(
            c,
            draw_points(c, buf, pts, color),
            p.0 as u32,
            p.1 as u32,
            color,
        ),
{
    assert(pts.push(p).drop_last() =~= pts);
}

impl GraphicsHelper {
    /// Draws the line from `a` to `b` with Bresenham's algorithm; the
    /// coordinates are read as `i32`, and points that fall off the screen
    /// are dropped.
    pub fn draw_line(&mut self, a: Point, b: Point, color: Color)
        requires
            line_in_range(a, b),
        ensures
            final(self).config() == old(self).config(),
            final(self).buffer() == draw_points(
                old(self).config(),
                old(self).buffer(),
                line_points(a, b),
                color,
            ),
            final(self).buffer().len() == old(self).buffer().len(),
    {
        proof {
            drawing_keeps_buffer_length(self.config(), self.buffer(), line_points(a, b), color);
        }
        let mut x1: i32 = #[verifier::truncate] (a.x as i32);
        let mut y1: i32 = #[verifier::truncate] (a.y as i32);
        let x2: i32 = #[verifier::truncate] (b.x as i32);
        let y2: i32 = #[verifier::truncate] (b.y as i32);
        let ddx: i32 = x2 - x1;
        let ddy: i32 = y2 - y1;
        let dx: i32 = if ddx < 0 { -ddx } else { ddx };
        let dy: i32 = if ddy < 0 { -ddy } else { ddy };
        let sx: i32 = if x1 < x2 { 1 } else { -1 };
        let sy: i32 = if y1 < y2 { 1 } else { -1 };
        let mut err: i32 = dx - dy;
        let ghost x0: int = x1 as int;
        let ghost y0: int = y1 as int;
        let ghost mut nx: int = 0;
        let ghost mut ny: int = 0;
        let ghost mut fuel: nat = (dx + dy + 1) as nat;
        let ghost mut drawn: Seq<(int, int)> = Seq::empty();
        let ghost c = self.config();
        let ghost buf0 = self.buffer();
        let ghost full = line_points(a, b);
        assert(full == drawn + line_from(
            x1 as int,
            y1 as int,
            x2 as int,
            y2 as int,
            err as int,
            dx as int,
            dy as int,
            sx as int,
            sy as int,
            fuel,
        ));
        loop
            invariant_except_break
                full == drawn + line_from(
                    x1 as int,
                    y1 as int,
                    x2 as int,
                    y2 as int,
                    err as int,
                    dx as int,
                    dy as int,
                    sx as int,
                    sy as int,
                    fuel,
                ),
            invariant
                0 <= dx,
                0 <= dy,
                sx == 1 || sx == -1,
                sy == 1 || sy == -1,
                0 <= nx <= dx,
                0 <= ny <= dy,
                if sx == 1 { x1 == x0 + nx && x2 == x0 + dx } else { x1 == x0 - nx && x2 == x0 - dx },
                if sy == 1 { y1 == y0 + ny && y2 == y0 + dy } else { y1 == y0 - ny && y2 == y0 - dy },
                err == dx - dy - dy * nx + dx * ny,
                line_steps_fit(
                    x1 as int,
                    y1 as int,
                    x2 as int,
                    y2 as int,
                    err as int,
                    dx as int,
                    dy as int,
                    sx as int,
                    sy as int,
                    fuel,
                ),
                fuel >= (dx - nx) + (dy - ny) + 1,
                self.config() == c,
                self.buffer() == draw_points(c, buf0, drawn, color),
            ensures
                self.config() == c,
                self.buffer() == draw_points(c, buf0, full, color),
            decreases (dx - nx) + (dy - ny),
        {
            self.draw_pixel((#[verifier::truncate] (x1 as u32), #[verifier::truncate] (y1 as u32)).into(), color);
            proof {
                lemma_draw_points_push(c, buf0, drawn, (x1 as int, y1 as int), color);
                drawn = drawn.push((x1 as int, y1 as int));
            }
            if x1 == x2 && y1 == y2 {
                proof {
                    assert(full == drawn);
                }
                break;
            }
            let e2: i32 = 2 * err;
            proof {
                if nx == dx {
                    lemma_line_x_stays(dx as int, dy as int, ny);
                }
                if ny == dy {
                    lemma_line_y_stays(dx as int, dy as int, nx);
                }
                lemma_line_err_step(dx as int, dy as int, nx, ny);
                lemma_line_err_step(dx as int, dy as int, nx + 1, ny);
                lemma_line_err_step(dx as int, dy as int, nx, ny + 1);
            }
            if e2 > -dy {
                err -= dy;
                x1 += sx;
                proof {
                    nx = nx + 1;
                }
            }
            if e2 < dx {
                err += dx;
                y1 += sy;
                proof {
                    ny = ny + 1;
                }
            }
            proof {
                fuel = (fuel - 1) as nat;
                assert(full == drawn + line_from(
                    x1 as int,
                    y1 as int,
                    x2 as int,
                    y2 as int,
                    err as int,
                    dx as int,
                    dy as int,
                    sx as int,
                    sy as int,
                    fuel,
                ));
            }
        }
    }
}

/// Two points touch: they differ by at most one on each axis.
pub open spec fn adjacent(p: (int, int), q: (int, int)) -> bool {
    &&& -1 <= q.0 - p.0 <= 1
    &&& -1 <= q.1 - p.1 <= 1
}

/// Each step of `pts` moves by 0 or `sx` on the first axis and by 0 or `sy`
/// on the second.
pub open spec fn steps_toward(pts: Seq<(int, int)>, sx: int, sy: int) -> bool {
    forall|i: int|
        0 <= i < pts.len() - 1 ==> {
            let d0 = pts[i + 1].0 - (#[trigger] pts[i]).0;
            let d1 = pts[i + 1].1 - pts[i].1;
            (d0 == 0 || d0 == sx) && (d1 == 0 || d1 == sy)
        }
}

/// Each pair of consecutive points of `pts` touch.
pub open spec fn connected(pts: Seq<(int, int)>) -> bool {
    forall|i: int| 0 <= i < pts.len() - 1 ==> adjacent(#[trigger] pts[i], pts[i + 1])
}

proof fn lemma_line_from_shape(
    x: int,
    y: int,
    x2: int,
    y2: int,
    err: int,
    dx: int,
    dy: int,
    sx: int,
    sy: int,
    fuel: nat,
    x0: int,
    y0: int,
    nx: int,
    ny: int,
)
    requires
        sx == 1 || sx == -1,
        sy == 1 || sy == -1,
        0 <= nx <= dx,
        0 <= ny <= dy,
        if sx == 1 { x == x0 + nx && x2 == x0 + dx } else { x == x0 - nx && x2 == x0 - dx },
        if sy == 1 { y == y0 + ny && y2 == y0 + dy } else { y == y0 - ny && y2 == y0 - dy },
        err == dx - dy - dy * nx + dx * ny,
        fuel >= (dx - nx) + (dy - ny) + 1,
    ensures
        ({
            let pts = line_from(x, y, x2, y2, err, dx, dy, sx, sy, fuel);
            &&& pts.len() >= 1
            &&& pts[0] == (x, y)
            &&& pts.last() == (x2, y2)
            &&& connected(pts)
            &&& steps_toward(pts, sx, sy)
        }),
    decreases fuel,
{
    let pts = line_from(x, y, x2, y2, err, dx, dy, sx, sy, fuel);
    if x == x2 && y == y2 {
        assert(pts == seq![(x, y)]);
    } else {
        let e2 = 2 * err;
        if nx == dx {
            lemma_line_x_stays(dx, dy, ny);
        }
        if ny == dy {
            lemma_line_y_stays(dx, dy, nx);
        }
        lemma_line_err_step(dx, dy, nx, ny);
        lemma_line_err_step(dx, dy, nx + 1, ny);
        let err1 = if e2 > -dy { err - dy } else { err };
        let nx1 = if e2 > -dy { nx + 1 } else { nx };
        let x1 = if e2 > -dy { x + sx } else { x };
        let err2 = if e2 < dx { err1 + dx } else { err1 };
        let ny1 = if e2 < dx { ny + 1 } else { ny };
        let y1 = if e2 < dx { y + sy } else { y };
        lemma_line_from_shape(x1, y1, x2, y2, err2, dx, dy, sx, sy, (fuel - 1) as nat, x0, y0, nx1, ny1);
        let rest = line_from(x1, y1, x2, y2, err2, dx, dy, sx, sy, (fuel - 1) as nat);
        assert(pts == seq![(x, y)] + rest);
        assert forall|i: int| 0 <= i < pts.len() - 1 implies adjacent(#[trigger] pts[i], pts[i + 1]) by {
            if i > 0 {
                assert(pts[i] == rest[i - 1]);
                assert(pts[i + 1] == rest[i]);
            }
        }
        assert forall|i: int| 0 <= i < pts.len() - 1 implies {
            let d0 = pts[i + 1].0 - (#[trigger] pts[i]).0;
            let d1 = pts[i + 1].1 - pts[i].1;
            (d0 == 0 || d0 == sx) && (d1 == 0 || d1 == sy)
        } by {
            if i > 0 {
                assert(pts[i] == rest[i - 1]);
                assert(pts[i + 1] == rest[i]);
            }
        }
    }
}

proof fn lemma_line_diagonal(dx: int, dy: int, nx: int, ny: int)
    by (nonlinear_arith)
    requires
        dy - ny == dx - nx,
        dy - ny >= 1,
        dy > dx,
    ensures
        dx - dy - dy * nx + dx * ny >= 0,
{
    assert(dx - dy - dy * nx + dx * ny == (dy - dx) * ((dy - ny) - 1));
}

proof fn lemma_line_diagonal_flat(dx: int, dy: int, nx: int, ny: int)
    by (nonlinear_arith)
    requires
        dy - ny == dx - nx,
        dx - nx >= 1,
        dx >= dy,
    ensures
        dx - dy - dy * nx + dx * ny <= 0,
        dx == dy ==> dx - dy - dy * nx + dx * ny == 0,
{
    assert(dx - dy - dy * nx + dx * ny == (dx - dy) * (1 - (dx - nx)));
}

pub open spec fn max(a: int, b: int) -> int {
    if a >= b {
        a
    } else {
        b
    }
}

proof fn lemma_line_from_len(
    x: int,
    y: int,
    x2: int,
    y2: int,
    err: int,
    dx: int,
    dy: int,
    sx: int,
    sy: int,
    fuel: nat,
    x0: int,
    y0: int,
    nx: int,
    ny: int,
)
    requires
        sx == 1 || sx == -1,
        sy == 1 || sy == -1,
        0 <= nx <= dx,
        0 <= ny <= dy,
        if sx == 1 { x == x0 + nx && x2 == x0 + dx } else { x == x0 - nx && x2 == x0 - dx },
        if sy == 1 { y == y0 + ny && y2 == y0 + dy } else { y == y0 - ny && y2 == y0 - dy },
        err == dx - dy - dy * nx + dx * ny,
        fuel >= (dx - nx) + (dy - ny) + 1,
        dx >= dy ==> dx - nx >= dy - ny && (nx < dx ==> 2 * err > -dy),
        dx == dy ==> nx == ny,
        dy > dx ==> dy - ny >= dx - nx && (ny < dy ==> 2 * err < dx),
    ensures
        line_from(x, y, x2, y2, err, dx, dy, sx, sy, fuel).len() == max(dx - nx, dy - ny) + 1,
    decreases fuel,
{
    if !(x == x2 && y == y2) {
        let e2 = 2 * err;
        if nx == dx {
            lemma_line_x_stays(dx, dy, ny);
        }
        if ny == dy {
            lemma_line_y_stays(dx, dy, nx);
        }
        if dy > dx && dy - ny == dx - nx && dy - ny >= 1 {
            lemma_line_diagonal(dx, dy, nx, ny);
        }
        if dx >= dy && dy - ny == dx - nx && dx - nx >= 1 {
            lemma_line_diagonal_flat(dx, dy, nx, ny);
        }
        lemma_line_err_step(dx, dy, nx, ny);
        lemma_line_err_step(dx, dy, nx + 1, ny);
        let err1 = if e2 > -dy { err - dy } else { err };
        let nx1 = if e2 > -dy { nx + 1 } else { nx };
        let x1 = if e2 > -dy { x + sx } else { x };
        let err2 = if e2 < dx { err1 + dx } else { err1 };
        let ny1 = if e2 < dx { ny + 1 } else { ny };
        let y1 = if e2 < dx { y + sy } else { y };
        lemma_line_from_len(x1, y1, x2, y2, err2, dx, dy, sx, sy, (fuel - 1) as nat, x0, y0, nx1, ny1);
    }
}

/// The line from `a` to `b` starts at `a`, ends at `b` (both read as
/// `i32`), has no gaps, moves towards `b` on each axis at every step, and
/// has one point per step along its longer axis.
pub proof fn line_joins_endpoints(a: Point, b: Point)
    ensures
        line_points(a, b).len() >= 1,
        line_points(a, b)[0] == (a.x as i32 as int, a.y as i32 as int),
        line_points(a, b).last() == (b.x as i32 as int, b.y as i32 as int),
        connected(line_points(a, b)),
        steps_toward(
            line_points(a, b),
            if (a.x as i32) < (b.x as i32) { 1int } else { -1int },
            if (a.y as i32) < (b.y as i32) { 1int } else { -1int },
        ),
        line_points(a, b).len() == max(
            abs(b.x as i32 - a.x as i32),
            abs(b.y as i32 - a.y as i32),
        ) + 1,
{
    let x1 = a.x as i32 as int;
    let y1 = a.y as i32 as int;
    let x2 = b.x as i32 as int;
    let y2 = b.y as i32 as int;
    let dx = abs(x2 - x1);
    let dy = abs(y2 - y1);
    let sx = if x1 < x2 { 1int } else { -1int };
    let sy = if y1 < y2 { 1int } else { -1int };
    lemma_line_err_step(dx, dy, 0, 0);
    assert(dx - dy - dy * 0 + dx * 0 == dx - dy) by (nonlinear_arith);
    lemma_line_from_shape(x1, y1, x2, y2, dx - dy, dx, dy, sx, sy, (dx + dy + 1) as nat, x1, y1, 0, 0);
    lemma_line_from_len(x1, y1, x2, y2, dx - dy, dx, dy, sx, sy, (dx + dy + 1) as nat, x1, y1, 0, 0);
}

/// How far point `p` lies off the exact line, scaled: with `(px, py)` the
/// point's distance from the start along each axis, `dy * px - dx * py`.
pub open spec fn line_offset(p: (int, int), x0: int, y0: int, dx: int, dy: int, sx: int, sy: int) -> int {
    let px = if sx == 1 { p.0 - x0 } else { x0 - p.0 };
    let py = if sy == 1 { p.1 - y0 } else { y0 - p.1 };
    dy * px - dx * py
}

proof fn lemma_line_near(
    x: int,
    y: int,
    x2: int,
    y2: int,
    err: int,
    dx: int,
    dy: int,
    sx: int,
    sy: int,
    fuel: nat,
    x0: int,
    y0: int,
    nx: int,
    ny: int,
)
    requires
        sx == 1 || sx == -1,
        sy == 1 || sy == -1,
        0 <= nx <= dx,
        0 <= ny <= dy,
        if sx == 1 { x == x0 + nx && x2 == x0 + dx } else { x == x0 - nx && x2 == x0 - dx },
        if sy == 1 { y == y0 + ny && y2 == y0 + dy } else { y == y0 - ny && y2 == y0 - dy },
        err == dx - dy - dy * nx + dx * ny,
        2 * abs(dy * nx - dx * ny) <= max(dx, dy),
    ensures
        forall|i: int|
            0 <= i < line_from(x, y, x2, y2, err, dx, dy, sx, sy, fuel).len() ==> 2 * abs(
                line_offset(#[trigger] line_from(x, y, x2, y2, err, dx, dy, sx, sy, fuel)[i], x0, y0, dx, dy, sx, sy),
            ) <= max(dx, dy),
    decreases fuel,
{
    let pts = line_from(x, y, x2, y2, err, dx, dy, sx, sy, fuel);
    assert(line_offset((x, y), x0, y0, dx, dy, sx, sy) == dy * nx - dx * ny);
    if fuel > 0 && !(x == x2 && y == y2) {
        let e2 = 2 * err;
        if nx == dx {
            lemma_line_x_stays(dx, dy, ny);
        }
        if ny == dy {
            lemma_line_y_stays(dx, dy, nx);
        }
        lemma_line_err_step(dx, dy, nx, ny);
        lemma_line_err_step(dx, dy, nx + 1, ny);
        let err1 = if e2 > -dy { err - dy } else { err };
        let nx1 = if e2 > -dy { nx + 1 } else { nx };
        let x1 = if e2 > -dy { x + sx } else { x };
        let err2 = if e2 < dx { err1 + dx } else { err1 };
        let ny1 = if e2 < dx { ny + 1 } else { ny };
        let y1 = if e2 < dx { y + sy } else { y };
        assert(err2 == dx - dy - dy * nx1 + dx * ny1);
        lemma_line_near(x1, y1, x2, y2, err2, dx, dy, sx, sy, (fuel - 1) as nat, x0, y0, nx1, ny1);
        let rest = line_from(x1, y1, x2, y2, err2, dx, dy, sx, sy, (fuel - 1) as nat);
        assert(pts == seq![(x, y)] + rest);
        assert forall|i: int| 0 <= i < pts.len() implies 2 * abs(
            line_offset(#[trigger] pts[i], x0, y0, dx, dy, sx, sy),
        ) <= max(dx, dy) by {
            if i > 0 {
                assert(pts[i] == rest[i - 1]);
            }
        }
    }
}

/// Bresenham's line is the closest pixel line to the exact one: every
/// point `(x, y)` drawn between `(x1, y1)` and `(x2, y2)` has
/// `2 * |(x - x1) * (y2 - y1) - (y - y1) * (x2 - x1)| <= max(|x2 - x1|, |y2 - y1|)`,
/// that is, it lies at most half a pixel off the exact line along the
/// shorter axis.
pub proof fn line_stays_on_nearest_pixels(a: Point, b: Point)
    ensures
        ({
            let x1 = a.x as i32 as int;
            let y1 = a.y as i32 as int;
            let x2 = b.x as i32 as int;
            let y2 = b.y as i32 as int;
            let pts = line_points(a, b);
            forall|i: int|
                0 <= i < pts.len() ==> 2 * abs(((#[trigger] pts[i]).0 - x1) * (y2 - y1) - (pts[i].1 - y1) * (x2
                    - x1)) <= max(abs(x2 - x1), abs(y2 - y1))
        }),
{
    let x1 = a.x as i32 as int;
    let y1 = a.y as i32 as int;
    let x2 = b.x as i32 as int;
    let y2 = b.y as i32 as int;
    let dx = abs(x2 - x1);
    let dy = abs(y2 - y1);
    let sx = if x1 < x2 { 1int } else { -1int };
    let sy = if y1 < y2 { 1int } else { -1int };
    let pts = line_points(a, b);
    assert(dx - dy - dy * 0 + dx * 0 == dx - dy) by (nonlinear_arith);
    assert(dy * 0 - dx * 0 == 0) by (nonlinear_arith);
    lemma_line_near(x1, y1, x2, y2, dx - dy, dx, dy, sx, sy, (dx + dy + 1) as nat, x1, y1, 0, 0);
    assert forall|i: int| 0 <= i < pts.len() implies 2 * abs(
        ((#[trigger] pts[i]).0 - x1) * (y2 - y1) - (pts[i].1 - y1) * (x2 - x1),
    ) <= max(abs(x2 - x1), abs(y2 - y1)) by {
        let p = pts[i];
        let px = if sx == 1 { p.0 - x1 } else { x1 - p.0 };
        let py = if sy == 1 { p.1 - y1 } else { y1 - p.1 };
        assert(2 * abs(line_offset(p, x1, y1, dx, dy, sx, sy)) <= max(dx, dy));
        assert(x2 - x1 == sx * dx);
        assert(y2 - y1 == sy * dy);
        assert(p.0 - x1 == sx * px);
        assert(p.1 - y1 == sy * py);
        assert(abs((p.0 - x1) * (y2 - y1) - (p.1 - y1) * (x2 - x1)) == abs(dy * px - dx * py)) by (nonlinear_arith)
            requires
                sx == 1 || sx == -1,
                sy == 1 || sy == -1,
                x2 - x1 == sx * dx,
                y2 - y1 == sy * dy,
                p.0 - x1 == sx * px,
                p.1 - y1 == sy * py,
        ;
    }
}

/// Glyph rows drawn per character.
pub const GLYPH_ROWS: u32 = 15;

/// Glyph columns drawn per character.
pub const GLYPH_COLUMNS: u32 = 7;

/// The colour text is drawn in.
pub open spec fn text_color() -> Color {
    Color { r: 255, g: 255, b: 255 }
}

/// Column `x` of glyph row `row` is lit: the row shifted left by `x` has its
/// top bit set.
pub open spec fn glyph_bit(row: u8, x: u32) -> bool {
    ((row << x) & 0x80u8) != 0u8
}

/// The lit pixels among the first `n` cells of the glyph of `c` drawn at
/// `(px, py)`, cells taken row by row, each row left to right.
pub open spec fn glyph_pixels(font: Seq<u8>, c: char, px: u32, py: u32, n: nat) -> Seq<(int, int)>
    decreases n,
{
    if n == 0 {
        Seq::empty()
    } else {
        let k = n - 1;
        let prev = glyph_pixels(font, c, px, py, (n - 1) as nat);
        let y = k / (GLYPH_COLUMNS as int);
        let x = k % (GLYPH_COLUMNS as int);
        if glyph_bit(glyph(font, c)[y], x as u32) {
            prev.push((px + x, py + y))
        } else {
            prev
        }
    }
}

/// Every lit pixel of the glyph of `c` drawn at `(px, py)` has 32-bit
/// coordinates.
pub open spec fn glyph_fits(font: Seq<u8>, c: char, px: u32, py: u32) -> bool {
    forall|y: int, x: int|
        0 <= y < GLYPH_ROWS && 0 <= x < GLYPH_COLUMNS && #[trigger] glyph_bit(glyph(font, c)[y], x as u32)
            ==> px + x <= u32::MAX && py + y <= u32::MAX
}

/// A glyph whose corner leaves room for a whole cell on both axes fits.
pub(crate) proof fn lemma_glyph_fits_small(font: Seq<u8>, c: char, px: u32, py: u32)
    requires
        px + GLYPH_COLUMNS <= u32::MAX,
        py + GLYPH_ROWS <= u32::MAX,
    ensures
        glyph_fits(font, c, px, py),
{
}

impl GraphicsHelper {
    /// Draws character `c` in white with its top-left corner at `point`,
    /// using the first 15 rows and 7 columns of its glyph in `font`.
    pub fn print_char(&mut self, c: char, point: &Point, font: &[u8])
        requires
            font@.len() == FONT_SIZE,
            glyph_fits(font@, c, point.x, point.y),
        ensures
            final(self).config() == old(self).config(),
            final(self).buffer() == draw_points(
                old(self).config(),
                old(self).buffer(),
                glyph_pixels(font@, c, point.x, point.y, (GLYPH_ROWS * GLYPH_COLUMNS) as nat),
                text_color(),
            ),
            final(self).buffer().len() == old(self).buffer().len(),
    {
        proof {
            drawing_keeps_buffer_length(
                self.config(),
                self.buffer(),
                glyph_pixels(font@, c, point.x, point.y, (GLYPH_ROWS * GLYPH_COLUMNS) as nat),
                text_color(),
            );
        }
        let glyph_rows = TextManager::lookup_char(font, c);
        let ghost cfg = self.config();
        let ghost buf0 = self.buffer();
        let white = Color { r: 255, g: 255, b: 255 };
        let mut y: u32 = 0;
        while y < GLYPH_ROWS
            invariant
                y <= GLYPH_ROWS,
                glyph_rows@ == glyph(font@, c),
                glyph_rows@.len() == 16,
                glyph_fits(font@, c, point.x, point.y),
                white == text_color(),
                self.config() == cfg,
                self.buffer() == draw_points(
                    cfg,
                    buf0,
                    glyph_pixels(font@, c, point.x, point.y, (y * GLYPH_COLUMNS) as nat),
                    white,
                ),
            decreases GLYPH_ROWS - y,
        {
            let mut x: u32 = 0;
            while x < GLYPH_COLUMNS
                invariant
                    y < GLYPH_ROWS,
                    x <= GLYPH_COLUMNS,
                    glyph_rows@ == glyph(font@, c),
                    glyph_rows@.len() == 16,
                    glyph_fits(font@, c, point.x, point.y),
                    white == text_color(),
                    self.config() == cfg,
                    self.buffer() == draw_points(
                        cfg,
                        buf0,
                        glyph_pixels(font@, c, point.x, point.y, (y * GLYPH_COLUMNS + x) as nat),
                        white,
                    ),
                decreases GLYPH_COLUMNS - x,
            {
                let row = glyph_rows[y as usize];
                let bit = (row << x) & 0b1000_0000u8;
                let ghost k = (y * GLYPH_COLUMNS + x) as int;
                let ghost before = glyph_pixels(font@, c, point.x, point.y, k as nat);
                proof {
                    assert(k / (GLYPH_COLUMNS as int) == y);
                    assert(k % (GLYPH_COLUMNS as int) == x);
                    assert(glyph_pixels(font@, c, point.x, point.y, (k + 1) as nat) == if glyph_bit(
                        glyph(font@, c)[y as int],
                        x,
                    ) {
                        before.push((point.x + x, point.y + y))
                    } else {
                        before
                    });
                }
                if bit != 0 {
                    proof {
                        assert(glyph_bit(glyph(font@, c)[y as int], x));
                        lemma_draw_points_push(cfg, buf0, before, (point.x + x, point.y + y), white);
                    }
                    self.draw_pixel(point + Point { x, y }, white);
                }
                x += 1;
            }
            y += 1;
        }
    }
}

/// Drawing never changes the size of the buffer.
pub proof fn drawing_keeps_buffer_length(c: BootConfig, buf: Seq<u8>, pts: Seq<(int, int)>, color: Color)
    ensures
        draw_points(c, buf, pts, color).len() == buf.len(),
    decreases pts.len(),
{
    if pts.len() > 0 {
        drawing_keeps_buffer_length(c, buf, pts.drop_last(), color);
    }
}

/// A pixel outside the screen is not drawn.
pub proof fn offscreen_pixel_ignored(c: BootConfig, buf: Seq<u8>, x: u32, y: u32, color: Color)
    requires
        x >= c.fb_width || y >= c.fb_height,
    ensures
        put_pixel(c, buf, x, y, color) == buf,
{
}

/// A pixel of the screen is stored `pitch` bytes per row and `bpp / 8`
/// bytes per column from the start of the buffer, blue first, then green,
/// then red: painting it writes those three bytes and nothing else.
pub proof fn pixel_byte_layout(c: BootConfig, buf: Seq<u8>, x: u32, y: u32, color: Color)
    requires
        x < c.fb_width,
        y < c.fb_height,
        y * c.fb_pitch + x * (c.fb_bpp / 8) <= usize::MAX,
        y * c.fb_pitch + x * (c.fb_bpp / 8) + 2 < buf.len(),
    ensures
        ({
            let o = y * c.fb_pitch + x * (c.fb_bpp / 8);
            let after = put_pixel(c, buf, x, y, color);
            &&& after.len() == buf.len()
            &&& after[o] == color.b
            &&& after[o + 1] == color.g
            &&& after[o + 2] == color.r
            &&& forall|i: int| 0 <= i < buf.len() && !(o <= i <= o + 2) ==> #[trigger] after[i] == buf[i]
        }),
{
    assert(y * c.fb_pitch >= 0 && x * (c.fb_bpp / 8) >= 0) by (nonlinear_arith);
}

proof fn lemma_glyph_bit_is_msb_first(row: u8, x: u32)
    by (bit_vector)
    requires
        x < 7,
    ensures
        glyph_bit(row, x) == ((row >> (7 - x) as u8) & 1u8 == 1u8),
{
}

proof fn lemma_glyph_pixels_members(font: Seq<u8>, c: char, px: u32, py: u32, n: nat)
    requires
        n <= GLYPH_ROWS * GLYPH_COLUMNS,
    ensures
        forall|p: (int, int)|
            glyph_pixels(font, c, px, py, n).contains(p) <==> exists|k: int|
                0 <= k < n && p == (px + k % 7, py + k / 7) && #[trigger] glyph_bit(
                    glyph(font, c)[k / 7],
                    (k % 7) as u32,
                ),
    decreases n,
{
    if n > 0 {
        lemma_glyph_pixels_members(font, c, px, py, (n - 1) as nat);
        let prev = glyph_pixels(font, c, px, py, (n - 1) as nat);
        let k0 = n - 1;
        assert forall|p: (int, int)|
            glyph_pixels(font, c, px, py, n).contains(p) <==> exists|k: int|
                0 <= k < n && p == (px + k % 7, py + k / 7) && #[trigger] glyph_bit(
                    glyph(font, c)[k / 7],
                    (k % 7) as u32,
                ) by {
            if glyph_bit(glyph(font, c)[k0 / 7], (k0 % 7) as u32) {
                assert(glyph_pixels(font, c, px, py, n) == prev.push((px + k0 % 7, py + k0 / 7)));
                if glyph_pixels(font, c, px, py, n).contains(p) && !prev.contains(p) {
                    assert(p == (px + k0 % 7, py + k0 / 7));
                }
                if exists|k: int|
                    0 <= k < n && p == (px + k % 7, py + k / 7) && #[trigger] glyph_bit(
                        glyph(font, c)[k / 7],
                        (k % 7) as u32,
                    ) {
                    let k = choose|k: int|
                        0 <= k < n && p == (px + k % 7, py + k / 7) && #[trigger] glyph_bit(
                            glyph(font, c)[k / 7],
                            (k % 7) as u32,
                        );
                    if k == k0 {
                        assert(glyph_pixels(font, c, px, py, n)[prev.len() as int] == p);
                    } else {
                        assert(prev.contains(p));
                        let i = choose|i: int| 0 <= i < prev.len() && prev[i] == p;
                        assert(glyph_pixels(font, c, px, py, n)[i] == p);
                    }
                }
                if prev.contains(p) {
                    let i = choose|i: int| 0 <= i < prev.len() && prev[i] == p;
                    assert(glyph_pixels(font, c, px, py, n)[i] == p);
                }
            } else {
                assert(glyph_pixels(font, c, px, py, n) == prev);
            }
        }
    }
}

/// Bit `7 - x` of byte `16 * code + y` of `font`: column `x` of row `y`
/// of the glyph stored for `code`, the leftmost column being the most
/// significant bit.
pub open spec fn font_bit(font: Seq<u8>, code: int, x: int, y: int) -> bool {
    (font[16 * code + y] >> (7 - x) as u8) & 1u8 == 1u8
}

/// A character is drawn in white from its glyph: the glyph of a character
/// with code point `c` is the 16 bytes of the font at `16 * c` (code points
/// past 255 using the glyph at 255), one byte per row, and pixel
/// `(px + x, py + y)`, for the first 15 rows and 7 columns, is drawn
/// exactly when bit `7 - x` of row `y` is set, the leftmost column being
/// the most significant bit. No other pixel is drawn.
pub proof fn glyph_drawn_pixels(font: Seq<u8>, c: char, px: u32, py: u32)
    requires
        font.len() == FONT_SIZE,
    ensures
        text_color() == (Color { r: 255, g: 255, b: 255 }),
        ({
            let code = if (c as int) <= 255 { c as int } else { 255int };
            let pts = glyph_pixels(font, c, px, py, (GLYPH_ROWS * GLYPH_COLUMNS) as nat);
            &&& forall|x: int, y: int|
                0 <= x < 7 && 0 <= y < 15 ==> (pts.contains((px + x, py + y)) <==> #[trigger] font_bit(
                    font,
                    code,
                    x,
                    y,
                ))
            &&& forall|i: int|
                0 <= i < pts.len() ==> px <= (#[trigger] pts[i]).0 < px + 7 && py <= pts[i].1 < py + 15
        }),
{
    let code = if (c as int) <= 255 { c as int } else { 255int };
    let base = 16 * code;
    let n = (GLYPH_ROWS * GLYPH_COLUMNS) as nat;
    let pts = glyph_pixels(font, c, px, py, n);
    lemma_glyph_pixels_members(font, c, px, py, n);
    assert(glyph_offset(c) == base);
    assert forall|x: int, y: int| 0 <= x < 7 && 0 <= y < 15 implies (pts.contains((px + x, py + y))
        <==> #[trigger] font_bit(font, code, x, y)) by {
        let k = 7 * y + x;
        assert(k / 7 == y && k % 7 == x);
        assert(glyph(font, c)[y] == font[base + y]);
        lemma_glyph_bit_is_msb_first(font[base + y], x as u32);
        if pts.contains((px + x, py + y)) {
            let k2 = choose|k2: int|
                0 <= k2 < n && (px + x, py + y) == (px + k2 % 7, py + k2 / 7) && #[trigger] glyph_bit(
                    glyph(font, c)[k2 / 7],
                    (k2 % 7) as u32,
                );
            assert(k2 % 7 == x && k2 / 7 == y);
        } else {
            assert(!glyph_bit(glyph(font, c)[k / 7], (k % 7) as u32));
        }
    }
    assert forall|i: int| 0 <= i < pts.len() implies px <= (#[trigger] pts[i]).0 < px + 7 && py <= pts[i].1 < py
        + 15 by {
        assert(pts.contains(pts[i]));
        let k = choose|k: int|
            0 <= k < n && pts[i] == (px + k % 7, py + k / 7) && #[trigger] glyph_bit(
                glyph(font, c)[k / 7],
                (k % 7) as u32,
            );
    }
}

/// Byte `i` of a buffer of `len` bytes is one of the three bytes that
/// painting pixel `(x, y)` writes.
pub open spec fn pixel_covers(c: BootConfig, len: int, x: u32, y: u32, i: int) -> bool {
    match pixel_offset(c, x, y) {
        Some(o) => o + 2 < len && o <= i <= o + 2,
        None => false,
    }
}

/// Byte `i` of a buffer of `len` bytes is written when the points of `pts`
/// are painted.
pub open spec fn points_cover(c: BootConfig, len: int, pts: Seq<(int, int)>, i: int) -> bool
    decreases pts.len(),
{
    pts.len() > 0 && (points_cover(c, len, pts.drop_last(), i) || pixel_covers(
        c,
        len,
        pts.last().0 as u32,
        pts.last().1 as u32,
        i,
    ))
}

proof fn lemma_draw_points_single_value(c: BootConfig, buf: Seq<u8>, pts: Seq<(int, int)>, color: Color)
    requires
        color.r == color.g,
        color.g == color.b,
    ensures
        draw_points(c, buf, pts, color).len() == buf.len(),
        forall|i: int|
            0 <= i < buf.len() ==> #[trigger] draw_points(c, buf, pts, color)[i] == if points_cover(
                c,
                buf.len() as int,
                pts,
                i,
            ) {
                color.r
            } else {
                buf[i]
            },
    decreases pts.len(),
{
    if pts.len() > 0 {
        lemma_draw_points_single_value(c, buf, pts.drop_last(), color);
    }
}

/// Painting points in a colour whose three bytes are equal writes that byte
/// over exactly the bytes the points cover, whatever the buffer held, so
/// painting the same points again changes nothing.
pub proof fn drawing_twice_is_drawing_once(c: BootConfig, buf: Seq<u8>, pts: Seq<(int, int)>, color: Color)
    requires
        color.r == color.g,
        color.g == color.b,
    ensures
        draw_points(c, draw_points(c, buf, pts, color), pts, color) == draw_points(c, buf, pts, color),
        forall|i: int|
            0 <= i < buf.len() ==> #[trigger] draw_points(c, buf, pts, color)[i] == buf[i]
                || draw_points(c, buf, pts, color)[i] == color.r,
{
    let b1 = draw_points(c, buf, pts, color);
    lemma_draw_points_single_value(c, buf, pts, color);
    lemma_draw_points_single_value(c, b1, pts, color);
    assert(draw_points(c, b1, pts, color) =~= b1);
}

/// Printing a character only ever turns bytes white and never clears one,
/// and printing the same character at the same place again changes
/// nothing.
pub proof fn print_char_twice_is_once(c: BootConfig, buf: Seq<u8>, font: Seq<u8>, ch: char, px: u32, py: u32)
    ensures
        ({
            let pts = glyph_pixels(font, ch, px, py, (GLYPH_ROWS * GLYPH_COLUMNS) as nat);
            let b1 = draw_points(c, buf, pts, text_color());
            &&& b1.len() == buf.len()
            &&& forall|i: int| 0 <= i < buf.len() ==> #[trigger] b1[i] == buf[i] || b1[i] == 255
            &&& draw_points(c, b1, pts, text_color()) == b1
        }),
{
    let pts = glyph_pixels(font, ch, px, py, (GLYPH_ROWS * GLYPH_COLUMNS) as nat);
    drawing_twice_is_drawing_once(c, buf, pts, text_color());
    drawing_keeps_buffer_length(c, buf, pts, text_color());
}

} // verus!
