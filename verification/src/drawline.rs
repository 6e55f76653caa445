//! Line drawing.
use vstd::prelude::*;

use crate::datatype::Point2D;
use crate::framebuffer::FrameBufferTarget;
use crate::tgaimage::{TGAColor, TGAImage};

verus! {

/// Line drawing with floating-point endpoints (digital differential analyser).
pub struct DDA;

/// Line drawing with integer endpoints (Bresenham's algorithm).
pub struct Bresenham;

pub open spec fn abs(v: int) -> int {
    if v < 0 {
        -v
    } else {
        v
    }
}

/// The line runs along y: it is taller than it is wide.
pub open spec fn is_steep(p0: Point2D, p1: Point2D) -> bool {
    abs(p1.y - p0.y) > abs(p1.x - p0.x)
}

/// The endpoints as (a0, b0, a1, b1) with `a` the major axis (x, or y for a
/// steep line), `b` the other one, and a0 <= a1.
pub open spec fn major_ends(p0: Point2D, p1: Point2D) -> (int, int, int, int) {
    let (a0, b0, a1, b1) = if is_steep(p0, p1) {
        (p0.y as int, p0.x as int, p1.y as int, p1.x as int)
    } else {
        (p0.x as int, p0.y as int, p1.x as int, p1.y as int)
    };
    if a0 > a1 {
        (a1, b1, a0, b0)
    } else {
        (a0, b0, a1, b1)
    }
}

/// How far the minor axis has moved after `k` steps along the major one:
/// k * dy / dx rounded to the nearest integer, halves rounded up when
/// `ties_up` and down otherwise.
pub open spec fn minor_offset(k: int, dx: int, dy: int, ties_up: bool) -> int {
    if dx == 0 {
        0
    } else {
        (2 * k * dy + dx - (if ties_up { 0int } else { 1int })) / (2 * dx)
    }
}

/// Whether the line from `p0` to `p1` passes through pixel (x, y): one
/// pixel for each major-axis position from one end to the other, its
/// minor-axis position rounded to the nearest integer.
pub open spec fn on_line(p0: Point2D, p1: Point2D, x: int, y: int, ties_up: bool) -> bool {
    let (a, b) = if is_steep(p0, p1) {
        (y, x)
    } else {
        (x, y)
    };
    let (a0, b0, a1, b1) = major_ends(p0, p1);
    let s = if b1 >= b0 {
        1int
    } else {
        -1int
    };
    &&& a0 <= a <= a1
    &&& b == b0 + s * minor_offset(a - a0, a1 - a0, abs(b1 - b0), ties_up)
}

/// The arithmetic of the drawing loop stays inside `i32`: the line spans
/// less than 2^30 pixels along each axis, so twice the minor span and the
/// decision variable fit.
pub open spec fn line_fits(p0: Point2D, p1: Point2D) -> bool {
    &&& abs(p1.x - p0.x) < 0x4000_0000
    &&& abs(p1.y - p0.y) < 0x4000_0000
}

/// Whether `line_fits(p0, p1)` holds, for callers that test it before
/// drawing.
pub fn line_in_range(p0: &Point2D, p1: &Point2D) -> (r: bool)
    ensures
        r == line_fits(*p0, *p1),
{
    let dx = p1.x as i64 - p0.x as i64;
    let dy = p1.y as i64 - p0.y as i64;
    let adx = if dx < 0 { -dx } else { dx };
    let ady = if dy < 0 { -dy } else { dy };
    adx < 0x4000_0000 && ady < 0x4000_0000
}

/// One step of the decision variable moves the minor axis exactly as
/// `minor_offset` says, and keeps the variable within its bounds.
proof fn lemma_minor_step(k: int, dx: int, dy: int, ties_up: bool)
    requires
        0 <= dy <= dx,
        0 < dx,
        0 <= k,
    ensures
        ({
            let m = minor_offset(k, dx, dy, ties_up);
            let d = 2 * dy * (k + 1) - dx - 2 * dx * m;
            let e = if ties_up { 0int } else { 1int };
            &&& minor_offset(k + 1, dx, dy, ties_up) == m + (if d >= e { 1int } else { 0int })
            &&& -2 * dx <= d < 2 * dy + 1
            &&& 0 <= m
        }),
{
    let e = if ties_up { 0int } else { 1int };
    let n = 2 * k * dy + dx - e;
    let m = n / (2 * dx);
    let r = n % (2 * dx);
    vstd::arithmetic::div_mod::lemma_fundamental_div_mod(n, 2 * dx);
    vstd::arithmetic::div_mod::lemma_mod_pos_bound(n, 2 * dx);
    assert(0 <= k * dy) by (nonlinear_arith)
        requires 0 <= k, 0 <= dy;
    assert(n >= 0);
    assert(m >= 0) by (nonlinear_arith)
        requires n == 2 * dx * m + r, 0 <= r < 2 * dx, n >= 0, dx > 0;
    let d = 2 * dy * (k + 1) - dx - 2 * dx * m;
    assert(d == r + 2 * dy - 2 * dx + e) by (nonlinear_arith)
        requires n == 2 * dx * m + r, n == 2 * k * dy + dx - e, d == 2 * dy * (k + 1) - dx - 2 * dx * m;
    let n2 = 2 * (k + 1) * dy + dx - e;
    assert(n2 == n + 2 * dy) by (nonlinear_arith)
        requires n2 == 2 * (k + 1) * dy + dx - e, n == 2 * k * dy + dx - e;
    if d >= e {
        assert(n2 == (m + 1) * (2 * dx) + (r + 2 * dy - 2 * dx)) by (nonlinear_arith)
            requires n2 == n + 2 * dy, n == 2 * dx * m + r;
        vstd::arithmetic::div_mod::lemma_fundamental_div_mod_converse(n2, 2 * dx, m + 1, r + 2 * dy - 2 * dx);
    } else {
        assert(n2 == m * (2 * dx) + (r + 2 * dy)) by (nonlinear_arith)
            requires n2 == n + 2 * dy, n == 2 * dx * m + r;
        vstd::arithmetic::div_mod::lemma_fundamental_div_mod_converse(n2, 2 * dx, m, r + 2 * dy);
    }
}

/// The line starts without any minor-axis movement.
proof fn lemma_minor_start(dx: int, dy: int, ties_up: bool)
    requires
        0 <= dy <= dx,
    ensures
        minor_offset(0, dx, dy, ties_up) == 0,
{
    if dx > 0 {
        let e = if ties_up { 0int } else { 1int };
        assert(2 * 0 * dy + dx - e == 0 * (2 * dx) + (dx - e)) by (nonlinear_arith);
        vstd::arithmetic::div_mod::lemma_fundamental_div_mod_converse(2 * 0 * dy + dx - e, 2 * dx, 0, dx - e);
    }
}

/// After the last step the minor axis has reached the far end.
proof fn lemma_minor_end(dx: int, dy: int, ties_up: bool)
    requires
        0 <= dy <= dx,
    ensures
        minor_offset(dx, dx, dy, ties_up) == dy,
{
    if dx > 0 {
        let e = if ties_up { 0int } else { 1int };
        let n = 2 * dx * dy + dx - e;
        assert(n == 2 * dx * dy + (dx - e)) by (nonlinear_arith)
            requires n == 2 * dx * dy + dx - e;
        assert(n == dy * (2 * dx) + (dx - e)) by (nonlinear_arith)
            requires n == 2 * dx * dy + (dx - e);
        vstd::arithmetic::div_mod::lemma_fundamental_div_mod_converse(n, 2 * dx, dy, dx - e);
    }
}

/// The position an `i32` coordinate becomes under `as usize`: itself when
/// it is not negative, else wrapped around past `usize::MAX`.
pub open spec fn usize_of(v: int) -> int {
    if v >= 0 {
        v
    } else {
        v + usize::MAX + 1
    }
}

/// The `i32` coordinate that `as usize` turns into position `u`: `u`
/// itself up to `i32::MAX`, above that the negative value that wraps to it.
pub open spec fn coord_of(u: int) -> int {
    if u <= i32::MAX {
        u
    } else {
        u - usize::MAX - 1
    }
}

/// The line's `set` calls land on position (x, y): the pixel of the
/// coordinates that cast to (x, y) is on the line.
pub open spec fn line_hits(p0: Point2D, p1: Point2D, x: int, y: int, ties_up: bool) -> bool {
    &&& 0 <= x <= usize::MAX
    &&& 0 <= y <= usize::MAX
    &&& on_line(p0, p1, coord_of(x), coord_of(y), ties_up)
}

/// The pixel (x, y) of step `k` along the major axis, counted from its low
/// end.
pub open spec fn line_step(p0: Point2D, p1: Point2D, k: int, ties_up: bool) -> (int, int) {
    let (a0, b0, a1, b1) = major_ends(p0, p1);
    let s = if b1 >= b0 {
        1int
    } else {
        -1int
    };
    let a = a0 + k;
    let b = b0 + s * minor_offset(k, a1 - a0, abs(b1 - b0), ties_up);
    if is_steep(p0, p1) {
        (b, a)
    } else {
        (a, b)
    }
}

/// The `set` calls a line makes, in order: one for each position along the
/// major axis from its low end to its high end, at that step's pixel with
/// both coordinates cast to `usize`.
pub open spec fn line_calls(p0: Point2D, p1: Point2D, c: TGAColor, ties_up: bool) -> Seq<(usize, usize, TGAColor)> {
    let (a0, b0, a1, b1) = major_ends(p0, p1);
    Seq::new(
        (a1 - a0 + 1) as nat,
        |k: int|
            {
                let (x, y) = line_step(p0, p1, k, ties_up);
                (usize_of(x) as usize, usize_of(y) as usize, c)
            },
    )
}

proof fn lemma_all_ones(q: usize)
    ensures
        q <= !0usize,
{
    assert(q <= !0usize) by (bit_vector);
}

/// `as usize` on an `i32` gives `usize_of` of its value.
pub proof fn lemma_cast(v: i32)
    ensures
        (v as usize) as int == usize_of(v as int),
{
    if v < 0 {
        assert((v as usize) + ((-1 - v) as usize) == !0usize) by (bit_vector)
            requires v < 0;
        lemma_all_ones(usize::MAX);
        assert(((-1 - v) as usize) as int == -1 - v);
    }
}

/// `coord_of` undoes `usize_of` on `i32` values, and only there.
pub proof fn lemma_coord(u: int, v: int)
    requires
        0 <= u <= usize::MAX,
        i32::MIN <= v <= i32::MAX,
    ensures
        (coord_of(u) == v) == (u == usize_of(v)),
{
    assert(usize::MAX >= 0xffff_ffff);
}

/// Draws the line from `p0` to `p1` on `target`, one `set` call per step
/// along the major axis from its low end to its high end, at the step's
/// pixel with both coordinates cast to `usize`; `ties_up` picks how a
/// minor-axis position exactly halfway between two pixels is rounded.
pub(crate) fn plot_line<T: FrameBufferTarget>(target: &mut T, p0: &Point2D, p1: &Point2D, c: &TGAColor, ties_up: bool)
    requires
        line_fits(*p0, *p1),
    ensures
        final(target).target_width() == old(target).target_width(),
        final(target).target_height() == old(target).target_height(),
        forall|c2: TGAColor| #[trigger] final(target).target_kept(c2) == old(target).target_kept(c2),
        final(target).target_rest() == old(target).target_rest(),
        final(target).target_log() == old(target).target_log() + line_calls(*p0, *p1, *c, ties_up),
        forall|x: int, y: int|
            #[trigger] final(target).target_pixel(x, y) == if line_hits(*p0, *p1, x, y, ties_up) && 0 <= x
                < old(target).target_width() && 0 <= y < old(target).target_height() {
                old(target).target_kept(*c)
            } else {
                old(target).target_pixel(x, y)
            },
{
    let ghost start = *target;
    let ghost calls = line_calls(*p0, *p1, *c, ties_up);
    let mut x0 = p0.x;
    let mut y0 = p0.y;
    let mut x1 = p1.x;
    let mut y1 = p1.y;
    let ady = if y1 - y0 < 0 { -(y1 - y0) } else { y1 - y0 };
    let adx = if x1 - x0 < 0 { -(x1 - x0) } else { x1 - x0 };
    let steep = ady > adx;
    if steep {
        let t = x0;
        x0 = y0;
        y0 = t;
        let t = x1;
        x1 = y1;
        y1 = t;
    }
    if x0 > x1 {
        let t = x0;
        x0 = x1;
        x1 = t;
        let t = y0;
        y0 = y1;
        y1 = t;
    }
    assert((x0 as int, y0 as int, x1 as int, y1 as int) == major_ends(*p0, *p1));
    assert(steep == is_steep(*p0, *p1));
    let dx = x1 - x0;
    let dy = y1 - y0;
    let dy_abs = if dy < 0 { -dy } else { dy };
    let y_step: i32 = if y1 >= y0 { 1 } else { -1 };
    let mut d = 2 * dy_abs - dx;
    let mut y = y0;
    let mut k: i32 = 0;
    let ghost e = if ties_up { 0int } else { 1int };
    proof {
        lemma_minor_end(dx as int, dy_abs as int, ties_up);
        lemma_minor_start(dx as int, dy_abs as int, ties_up);
        let m0 = minor_offset(0, dx as int, dy_abs as int, ties_up);
        assert(m0 == 0);
        assert(d == 2 * dy_abs * (0 + 1) - dx - 2 * dx * m0) by (nonlinear_arith)
            requires d == 2 * dy_abs - dx, m0 == 0;
        assert(calls.len() == dx + 1);
        assert(calls.take(0) =~= Seq::<(usize, usize, TGAColor)>::empty());
        assert(start.target_log() + calls.take(0) =~= start.target_log());
    }
    while k <= dx
        invariant
            (x0 as int, y0 as int, x1 as int, y1 as int) == major_ends(*p0, *p1),
            steep == is_steep(*p0, *p1),
            line_fits(*p0, *p1),
            dx == x1 - x0,
            0 <= dy_abs <= dx < 0x4000_0000,
            dy_abs == abs(y1 - y0),
            y_step == (if y1 >= y0 { 1int } else { -1int }),
            y1 == y0 + y_step * dy_abs,
            minor_offset(dx as int, dx as int, dy_abs as int, ties_up) == dy_abs,
            e == (if ties_up { 0int } else { 1int }),
            0 <= k <= dx + 1,
            k <= dx ==> y == y0 + y_step * minor_offset(k as int, dx as int, dy_abs as int, ties_up),
            k <= dx ==> d == 2 * dy_abs * (k + 1) - dx - 2 * dx * minor_offset(
                k as int,
                dx as int,
                dy_abs as int,
                ties_up,
            ),
            calls == line_calls(*p0, *p1, *c, ties_up),
            calls.len() == dx + 1,
            target.target_log() == start.target_log() + calls.take(k as int),
            target.target_width() == start.target_width(),
            target.target_height() == start.target_height(),
            forall|c2: TGAColor| #[trigger] target.target_kept(c2) == start.target_kept(c2),
            target.target_rest() == start.target_rest(),
            forall|x: int, y: int|
                #[trigger] target.target_pixel(x, y) == if ({
                    let (a, b) = if steep {
                        (coord_of(y), coord_of(x))
                    } else {
                        (coord_of(x), coord_of(y))
                    };
                    &&& 0 <= x <= usize::MAX
                    &&& 0 <= y <= usize::MAX
                    &&& x0 <= a < x0 + k
                    &&& b == y0 + y_step * minor_offset(a - x0, dx as int, dy_abs as int, ties_up)
                }) && 0 <= x < start.target_width() && 0 <= y < start.target_height() {
                    start.target_kept(*c)
                } else {
                    start.target_pixel(x, y)
                },
        decreases dx + 1 - k,
    {
        let ghost m = minor_offset(k as int, dx as int, dy_abs as int, ties_up);
        proof {
            if dx > 0 {
                lemma_minor_step(k as int, dx as int, dy_abs as int, ties_up);
                // the minor offset only grows, and reaches dy at the far end
                lemma_minor_mono(k as int, dx as int, dx as int, dy_abs as int, ties_up);
            }
        }
        let x = x0 + k;
        let (px, py) = if steep {
            (y, x)
        } else {
            (x, y)
        };
        let ghost before = *target;
        proof {
            lemma_cast(px);
            lemma_cast(py);
            assert(line_step(*p0, *p1, k as int, ties_up) == (px as int, py as int));
            assert(calls[k as int] == (px as usize, py as usize, *c));
        }
        target.set(px as usize, py as usize, c);
        proof {
            assert(target.target_log() =~= start.target_log() + calls.take(k + 1)) by {
                assert(calls.take(k + 1) =~= calls.take(k as int).push(calls[k as int]));
            }
            assert forall|xx: int, yy: int|
                #[trigger] target.target_pixel(xx, yy) == if ({
                    let (a, b) = if steep {
                        (coord_of(yy), coord_of(xx))
                    } else {
                        (coord_of(xx), coord_of(yy))
                    };
                    &&& 0 <= xx <= usize::MAX
                    &&& 0 <= yy <= usize::MAX
                    &&& x0 <= a < x0 + k + 1
                    &&& b == y0 + y_step * minor_offset(a - x0, dx as int, dy_abs as int, ties_up)
                }) && 0 <= xx < start.target_width() && 0 <= yy < start.target_height() {
                    start.target_kept(*c)
                } else {
                    start.target_pixel(xx, yy)
                } by {
                if 0 <= xx <= usize::MAX && 0 <= yy <= usize::MAX {
                    lemma_coord(xx, px as int);
                    lemma_coord(yy, py as int);
                    let (a, b) = if steep {
                        (coord_of(yy), coord_of(xx))
                    } else {
                        (coord_of(xx), coord_of(yy))
                    };
                    if a == x0 + k {
                        assert(a - x0 == k);
                    }
                }
            }
        }
        // the minor axis moves on only while pixels are left to draw
        if k < dx {
            let inc: i32 = if (ties_up && d >= 0) || (!ties_up && d > 0) {
                1
            } else {
                0
            };
            proof {
                assert(inc == (if d >= e { 1int } else { 0int }));
                lemma_minor_mono(k as int + 1, dx as int, dx as int, dy_abs as int, ties_up);
                assert(0 <= m + inc <= dy_abs);
                if y_step == 1 {
                    assert(y_step * m == m) by (nonlinear_arith)
                        requires y_step == 1;
                    assert(y == y0 + m);
                    assert(y + y_step * inc == y0 + (m + inc));
                } else {
                    assert(y_step == -1);
                    assert(y_step * m == -m) by (nonlinear_arith)
                        requires y_step == -1;
                    assert(y == y0 - m);
                    assert(y + y_step * inc == y0 - (m + inc));
                }
            }
            let ghost d_old = d as int;
            y = y + y_step * inc;
            d = d + 2 * (dy_abs - dx * inc);
            proof {
                if dx > 0 {
                    let m2 = minor_offset(k + 1, dx as int, dy_abs as int, ties_up);
                    assert(m2 == m + inc);
                    assert(d == 2 * dy_abs * (k + 2) - dx - 2 * dx * m2) by (nonlinear_arith)
                        requires
                            d_old == 2 * dy_abs * (k + 1) - dx - 2 * dx * m,
                            d == d_old + 2 * (dy_abs - dx * inc),
                            m2 == m + inc;
                }
            }
        }
        k = k + 1;
    }
    proof {
        assert(calls.take(k as int) =~= calls);
        assert forall|x: int, y: int|
            #[trigger] target.target_pixel(x, y) == if line_hits(*p0, *p1, x, y, ties_up) && 0 <= x
                < start.target_width() && 0 <= y < start.target_height() {
                start.target_kept(*c)
            } else {
                start.target_pixel(x, y)
            } by {
        }
    }
}

/// `minor_offset` never decreases along the line.
proof fn lemma_minor_mono(k: int, j: int, dx: int, dy: int, ties_up: bool)
    requires
        0 <= k <= j,
        0 <= dy <= dx,
        0 < dx,
    ensures
        minor_offset(k, dx, dy, ties_up) <= minor_offset(j, dx, dy, ties_up),
{
    let e = if ties_up { 0int } else { 1int };
    assert(2 * k * dy + dx - e <= 2 * j * dy + dx - e) by (nonlinear_arith)
        requires 0 <= k <= j, 0 <= dy;
    vstd::arithmetic::div_mod::lemma_div_is_ordered(2 * k * dy + dx - e, 2 * j * dy + dx - e, 2 * dx);
}

/// A line passes through both of its endpoints.
pub proof fn lemma_line_endpoints(p0: Point2D, p1: Point2D, ties_up: bool)
    ensures
        on_line(p0, p1, p0.x as int, p0.y as int, ties_up),
        on_line(p0, p1, p1.x as int, p1.y as int, ties_up),
{
    let (a0, b0, a1, b1) = major_ends(p0, p1);
    let d = abs(b1 - b0);
    assert(0 <= d <= a1 - a0);
    lemma_minor_start(a1 - a0, d, ties_up);
    lemma_minor_end(a1 - a0, d, ties_up);
    let s = if b1 >= b0 {
        1int
    } else {
        -1int
    };
    assert(s * minor_offset(0, a1 - a0, d, ties_up) == 0);
    assert(s * minor_offset(a1 - a0, a1 - a0, d, ties_up) == b1 - b0) by {
        if b1 >= b0 {
            assert(s * d == d);
        } else {
            assert(s * d == -d);
        }
    }
}

/// The line from `p0` to `p1` covers the same pixels as the line from `p1`
/// to `p0`.
pub proof fn lemma_line_symmetric(p0: Point2D, p1: Point2D, x: int, y: int, ties_up: bool)
    ensures
        on_line(p0, p1, x, y, ties_up) == on_line(p1, p0, x, y, ties_up),
{
    assert(is_steep(p0, p1) == is_steep(p1, p0));
    assert(major_ends(p0, p1) == major_ends(p1, p0));
}

/// Drawing the line from `p1` to `p0` makes the same `set` calls, in the
/// same order, as drawing it from `p0` to `p1`.
pub proof fn lemma_line_calls_symmetric(p0: Point2D, p1: Point2D, c: TGAColor, ties_up: bool)
    ensures
        line_calls(p0, p1, c, ties_up) == line_calls(p1, p0, c, ties_up),
{
    assert(is_steep(p0, p1) == is_steep(p1, p0));
    assert(major_ends(p0, p1) == major_ends(p1, p0));
    assert(line_calls(p0, p1, c, ties_up) =~= line_calls(p1, p0, c, ties_up));
}

impl Bresenham {
    /// Draws the line from `p0` to `p1` in colour `c`: one `set` call for
    /// each position along the longer axis, in order from its low end, the
    /// other coordinate rounded to the nearest pixel, a position exactly
    /// halfway rounded towards the far end of the major axis (`on_line` with
    /// `ties_up`).  Calls outside the image change nothing.
    pub fn draw(image: &mut TGAImage, p0: &Point2D, p1: &Point2D, c: &TGAColor)
        requires
            line_fits(*p0, *p1),
        ensures
            final(image).target_width() == old(image).target_width(),
            final(image).target_height() == old(image).target_height(),
            forall|c2: TGAColor| #[trigger] final(image).target_kept(c2) == old(image).target_kept(c2),
            final(image).target_rest() == old(image).target_rest(),
            final(image).target_log() == old(image).target_log() + line_calls(*p0, *p1, *c, true),
            forall|x: int, y: int|
                #[trigger] final(image).target_pixel(x, y) == if line_hits(*p0, *p1, x, y, true) && 0 <= x
                    < old(image).target_width() && 0 <= y < old(image).target_height() {
                    old(image).target_kept(*c)
                } else {
                    old(image).target_pixel(x, y)
                },
    {
        plot_line(image, p0, p1, c, true);
    }
}

} // verus!
