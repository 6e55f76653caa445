//! Triangle outlines and filled triangles.
use vstd::prelude::*;

use crate::datatype::Point2D;
use crate::drawline::{Bresenham, coord_of, lemma_cast, lemma_coord, line_calls, line_fits, line_hits, usize_of};
use crate::framebuffer::FrameBufferTarget;
use crate::tgaimage::{TGAColor, TGAImage};

verus! {

/// Triangle outlines with floating-point corners.
pub struct DrawTriangleFloat;

/// Triangle outlines with integer corners.
pub struct DrawTriangle {}

/// Filled triangles with integer corners.
pub struct DrawTriangleFill {}

impl DrawTriangle {
    /// Draws the three edges p0-p1, p1-p2 and p0-p2 with `Bresenham::draw`.
    pub fn draw(image: &mut TGAImage, p0: &Point2D, p1: &Point2D, p2: &Point2D, c: &TGAColor)
        requires
            line_fits(*p0, *p1),
            line_fits(*p1, *p2),
            line_fits(*p0, *p2),
        ensures
            final(image).target_width() == old(image).target_width(),
            final(image).target_height() == old(image).target_height(),
            forall|c2: TGAColor| #[trigger] final(image).target_kept(c2) == old(image).target_kept(c2),
            final(image).target_rest() == old(image).target_rest(),
            final(image).target_log() == old(image).target_log() + line_calls(*p0, *p1, *c, true) + line_calls(
                *p1,
                *p2,
                *c,
                true,
            ) + line_calls(*p0, *p2, *c, true),
            forall|x: int, y: int|
                #[trigger] final(image).target_pixel(x, y) == if (line_hits(*p0, *p1, x, y, true)
                    || line_hits(*p1, *p2, x, y, true) || line_hits(*p0, *p2, x, y, true)) && 0 <= x
                    < old(image).target_width() && 0 <= y < old(image).target_height() {
                    old(image).target_kept(*c)
                } else {
                    old(image).target_pixel(x, y)
                },
    {
        Bresenham::draw(image, p0, p1, c);
        Bresenham::draw(image, p1, p2, c);
        Bresenham::draw(image, p0, p2, c);
    }
}

pub open spec fn max3(a: int, b: int, c: int) -> int {
    if a >= b && a >= c {
        a
    } else if b >= c {
        b
    } else {
        c
    }
}

pub open spec fn min3(a: int, b: int, c: int) -> int {
    if a <= b && a <= c {
        a
    } else if b <= c {
        b
    } else {
        c
    }
}

/// `max3` is the largest of its arguments.
pub proof fn lemma_max3(a: int, b: int, c: int)
    ensures
        max3(a, b, c) >= a && max3(a, b, c) >= b && max3(a, b, c) >= c,
        max3(a, b, c) == a || max3(a, b, c) == b || max3(a, b, c) == c,
{
}

/// `min3` is the smallest of its arguments.
pub proof fn lemma_min3(a: int, b: int, c: int)
    ensures
        min3(a, b, c) <= a && min3(a, b, c) <= b && min3(a, b, c) <= c,
        min3(a, b, c) == a || min3(a, b, c) == b || min3(a, b, c) == c,
{
}

/// Twice the signed area of the triangle (a, b, p): the perp-dot product
/// of b - a and p - a.  Zero on the line through a and b; its sign tells
/// the side.
pub open spec fn edge_value(a: Point2D, b: Point2D, x: int, y: int) -> int {
    (b.x - a.x) * (y - a.y) - (b.y - a.y) * (x - a.x)
}

/// The edge from `vs` to `ve` is a top edge (horizontal, running towards
/// smaller x) or a left edge (running towards smaller y).
pub open spec fn top_left(vs: Point2D, ve: Point2D) -> bool {
    if ve.y - vs.y == 0 {
        ve.x - vs.x < 0
    } else {
        ve.y - vs.y < 0
    }
}

/// (x, y) lies in the box from `vs` (low corner) to `ve` (high corner).
pub open spec fn in_edge_box(x: int, y: int, vs: Point2D, ve: Point2D) -> bool {
    vs.x <= x <= ve.x && vs.y <= y <= ve.y
}

/// (x, y) lies in the bounding box of the three corners.
pub open spec fn in_bbox(p0: Point2D, p1: Point2D, p2: Point2D, x: int, y: int) -> bool {
    &&& min3(p0.x as int, p1.x as int, p2.x as int) <= x <= max3(p0.x as int, p1.x as int, p2.x as int)
    &&& min3(p0.y as int, p1.y as int, p2.y as int) <= y <= max3(p0.y as int, p1.y as int, p2.y as int)
}

/// The fill colours (x, y): strictly inside the triangle (all three edge
/// values of one sign), or on an edge that counts as top or left, within
/// that edge's corner box.
pub open spec fn fill_covers(p0: Point2D, p1: Point2D, p2: Point2D, x: int, y: int) -> bool {
    let c1 = edge_value(p0, p1, x, y);
    let c2 = edge_value(p1, p2, x, y);
    let c3 = edge_value(p2, p0, x, y);
    ||| (c1 > 0 && c2 > 0 && c3 > 0)
    ||| (c1 < 0 && c2 < 0 && c3 < 0)
    ||| (c1 == 0 && top_left(p0, p1) && in_edge_box(x, y, p0, p1))
    ||| (c2 == 0 && top_left(p1, p2) && in_edge_box(x, y, p1, p2))
    ||| (c3 == 0 && top_left(p2, p0) && in_edge_box(x, y, p2, p0))
}

/// `v` is an `i32` value.
pub open spec fn fits_i32(v: int) -> bool {
    i32::MIN <= v <= i32::MAX
}

/// The edge value of (x, y) for the edge from `a` to `b` can be computed
/// in `i32`: both differences of each pair, both products and their
/// difference fit.
pub open spec fn edge_fits(a: Point2D, b: Point2D, x: int, y: int) -> bool {
    let ex = b.x - a.x;
    let ey = b.y - a.y;
    let px = x - a.x;
    let py = y - a.y;
    &&& fits_i32(ex)
    &&& fits_i32(ey)
    &&& fits_i32(px)
    &&& fits_i32(py)
    &&& fits_i32(ex * py)
    &&& fits_i32(ey * px)
    &&& fits_i32(ex * py - ey * px)
}

/// The fill's `i32` arithmetic does not overflow: at every pixel of the
/// corners' bounding box the three edge values can be computed in `i32`.
pub open spec fn fill_fits(p0: Point2D, p1: Point2D, p2: Point2D) -> bool {
    forall|x: int, y: int|
        #[trigger] in_bbox(p0, p1, p2, x, y) ==> edge_fits(p0, p1, x, y) && edge_fits(p1, p2, x, y)
            && edge_fits(p2, p0, x, y)
}

/// The edge values weigh the corners: with `s` their sum (twice the
/// triangle's signed area), `s * p` is the corners weighted by the edge
/// value of the edge opposite each.
proof fn lemma_edge_weights(p0: Point2D, p1: Point2D, p2: Point2D, x: int, y: int)
    ensures
        ({
            let c1 = edge_value(p0, p1, x, y);
            let c2 = edge_value(p1, p2, x, y);
            let c3 = edge_value(p2, p0, x, y);
            &&& (c1 + c2 + c3) * x == c2 * p0.x + c3 * p1.x + c1 * p2.x
            &&& (c1 + c2 + c3) * y == c2 * p0.y + c3 * p1.y + c1 * p2.y
        }),
{
    let (x0, y0, x1, y1, x2, y2) = (p0.x as int, p0.y as int, p1.x as int, p1.y as int, p2.x as int, p2.y as int);
    // corners and point relative to p0
    let (a, b, d, e, u, v) = (x1 - x0, y1 - y0, x2 - x0, y2 - y0, x - x0, y - y0);
    let c1 = edge_value(p0, p1, x, y);
    let c2 = edge_value(p1, p2, x, y);
    let c3 = edge_value(p2, p0, x, y);
    assert(c1 == a * v - b * u);
    assert(c3 == e * u - d * v) by (nonlinear_arith)
        requires c3 == (0 - d) * (v - e) - (0 - e) * (u - d);
    assert(c2 == (d - a) * (v - b) - (e - b) * (u - a));
    assert(c1 + c2 + c3 == a * e - b * d) by (nonlinear_arith)
        requires
            c1 == a * v - b * u,
            c2 == (d - a) * (v - b) - (e - b) * (u - a),
            c3 == e * u - d * v;
    let sum = a * e - b * d;
    assert(sum * u == c3 * a + c1 * d) by (nonlinear_arith)
        requires c1 == a * v - b * u, c3 == e * u - d * v, sum == a * e - b * d;
    assert(sum * v == c3 * b + c1 * e) by (nonlinear_arith)
        requires c1 == a * v - b * u, c3 == e * u - d * v, sum == a * e - b * d;
    assert(sum * x == c2 * x0 + c3 * x1 + c1 * x2) by (nonlinear_arith)
        requires sum * u == c3 * a + c1 * d, sum == c1 + c2 + c3, u == x - x0, a == x1 - x0, d == x2 - x0;
    assert(sum * y == c2 * y0 + c3 * y1 + c1 * y2) by (nonlinear_arith)
        requires sum * v == c3 * b + c1 * e, sum == c1 + c2 + c3, v == y - y0, b == y1 - y0, e == y2 - y0;
}

/// A weighted mean with positive weights lies between the smallest and the
/// largest value.
proof fn lemma_weighted_between(w0: int, w1: int, w2: int, v0: int, v1: int, v2: int, v: int)
    requires
        w0 > 0 && w1 > 0 && w2 > 0,
        (w0 + w1 + w2) * v == w0 * v0 + w1 * v1 + w2 * v2,
    ensures
        min3(v0, v1, v2) <= v <= max3(v0, v1, v2),
{
    let lo = min3(v0, v1, v2);
    let hi = max3(v0, v1, v2);
    lemma_min3(v0, v1, v2);
    lemma_max3(v0, v1, v2);
    let s = w0 + w1 + w2;
    assert(w0 * v0 + w1 * v1 + w2 * v2 <= s * hi) by (nonlinear_arith)
        requires w0 > 0, w1 > 0, w2 > 0, v0 <= hi, v1 <= hi, v2 <= hi, s == w0 + w1 + w2;
    assert(w0 * v0 + w1 * v1 + w2 * v2 >= s * lo) by (nonlinear_arith)
        requires w0 > 0, w1 > 0, w2 > 0, v0 >= lo, v1 >= lo, v2 >= lo, s == w0 + w1 + w2;
    assert(v <= hi) by (nonlinear_arith)
        requires s > 0, s * v <= s * hi;
    assert(v >= lo) by (nonlinear_arith)
        requires s > 0, s * v >= s * lo;
}

/// Every point strictly inside the triangle (all three edge values of one
/// sign) lies in the corners' bounding box, so the fill colours it.
pub proof fn lemma_inside_filled(p0: Point2D, p1: Point2D, p2: Point2D, x: int, y: int)
    requires
        ({
            let c1 = edge_value(p0, p1, x, y);
            let c2 = edge_value(p1, p2, x, y);
            let c3 = edge_value(p2, p0, x, y);
            (c1 > 0 && c2 > 0 && c3 > 0) || (c1 < 0 && c2 < 0 && c3 < 0)
        }),
    ensures
        in_bbox(p0, p1, p2, x, y),
        fill_covers(p0, p1, p2, x, y),
{
    let c1 = edge_value(p0, p1, x, y);
    let c2 = edge_value(p1, p2, x, y);
    let c3 = edge_value(p2, p0, x, y);
    lemma_edge_weights(p0, p1, p2, x, y);
    if c1 > 0 {
        lemma_weighted_between(c2, c3, c1, p0.x as int, p1.x as int, p2.x as int, x);
        lemma_weighted_between(c2, c3, c1, p0.y as int, p1.y as int, p2.y as int, y);
    } else {
        assert((-c2 + -c3 + -c1) * x == -c2 * p0.x + -c3 * p1.x + -c1 * p2.x) by (nonlinear_arith)
            requires (c1 + c2 + c3) * x == c2 * p0.x + c3 * p1.x + c1 * p2.x;
        assert((-c2 + -c3 + -c1) * y == -c2 * p0.y + -c3 * p1.y + -c1 * p2.y) by (nonlinear_arith)
            requires (c1 + c2 + c3) * y == c2 * p0.y + c3 * p1.y + c1 * p2.y;
        lemma_weighted_between(-c2, -c3, -c1, p0.x as int, p1.x as int, p2.x as int, x);
        lemma_weighted_between(-c2, -c3, -c1, p0.y as int, p1.y as int, p2.y as int, y);
    }
}

impl DrawTriangleFill {
    fn max_3(a: i32, b: i32, c: i32) -> (r: i32)
        ensures
            r == max3(a as int, b as int, c as int),
            r >= a && r >= b && r >= c,
            r == a || r == b || r == c,
    {
        let ab = if a >= b { a } else { b };
        if ab >= c { ab } else { c }
    }

    fn min_3(a: i32, b: i32, c: i32) -> (r: i32)
        ensures
            r == min3(a as int, b as int, c as int),
            r <= a && r <= b && r <= c,
            r == a || r == b || r == c,
    {
        let ab = if a <= b { a } else { b };
        if ab <= c { ab } else { c }
    }

    fn is_top_left_edge(v_start: &Point2D, v_end: &Point2D) -> (r: bool)
        requires
            i32::MIN <= v_end.x - v_start.x <= i32::MAX,
            i32::MIN <= v_end.y - v_start.y <= i32::MAX,
        ensures
            r == top_left(*v_start, *v_end),
    {
        let ex = v_end.x - v_start.x;
        let ey = v_end.y - v_start.y;
        if ey == 0 {
            return ex < 0;
        }
        ey < 0
    }

    fn is_in_edge(p: &Point2D, v_start: &Point2D, v_end: &Point2D) -> (r: bool)
        ensures
            r == in_edge_box(p.x as int, p.y as int, *v_start, *v_end),
    {
        (p.x >= v_start.x && p.x <= v_end.x) && (p.y >= v_start.y && p.y <= v_end.y)
    }

    /// The edge value of (x, y) for the edge from `a` to `b`.
    fn edge(a: &Point2D, b: &Point2D, x: i32, y: i32) -> (r: i32)
        requires
            edge_fits(*a, *b, x as int, y as int),
        ensures
            r == edge_value(*a, *b, x as int, y as int),
    {
        (b.x - a.x) * (y - a.y) - (b.y - a.y) * (x - a.x)
    }

    /// Fills the triangle: going column by column from the left of the
    /// corners' bounding box, and down each column, one `set` call in colour
    /// `c` for every pixel that `fill_covers`, its coordinates cast to
    /// `usize`.  Calls outside the image change nothing.
    pub fn draw(image: &mut TGAImage, p0: &Point2D, p1: &Point2D, p2: &Point2D, c: &TGAColor)
        requires
            fill_fits(*p0, *p1, *p2),
        ensures
            final(image).target_width() == old(image).target_width(),
            final(image).target_height() == old(image).target_height(),
            forall|c2: TGAColor| #[trigger] final(image).target_kept(c2) == old(image).target_kept(c2),
            final(image).target_rest() == old(image).target_rest(),
            final(image).target_log() == old(image).target_log() + fill_calls(*p0, *p1, *p2, *c),
            forall|x: int, y: int|
                #[trigger] final(image).target_pixel(x, y) == if fill_hits(*p0, *p1, *p2, x, y) && 0 <= x
                    < old(image).target_width() && 0 <= y < old(image).target_height() {
                    old(image).target_kept(*c)
                } else {
                    old(image).target_pixel(x, y)
                },
    {
        fill_triangle(image, p0, p1, p2, c);
    }
}

/// The fill's `set` calls land on position (x, y): the coordinates that
/// cast to it lie in the corners' bounding box and the fill covers them.
pub open spec fn fill_hits(p0: Point2D, p1: Point2D, p2: Point2D, x: int, y: int) -> bool {
    &&& 0 <= x <= usize::MAX
    &&& 0 <= y <= usize::MAX
    &&& in_bbox(p0, p1, p2, coord_of(x), coord_of(y))
    &&& fill_covers(p0, p1, p2, coord_of(x), coord_of(y))
}

/// The pixels the fill colours on a `w` by `h` target.
pub open spec fn fill_wanted(p0: Point2D, p1: Point2D, p2: Point2D, w: nat, h: nat, x: int, y: int) -> bool {
    fill_hits(p0, p1, p2, x, y) && 0 <= x < w && 0 <= y < h
}

/// The coordinates the fill has visited: those of the columns left of
/// `col`, and those of column `col` above row `row_end`.
pub open spec fn visited(col: int, row_end: int, x: int, y: int) -> bool {
    x < col || (x == col && y < row_end)
}

/// The `set` call the fill makes at (x, y), if it covers that pixel.
pub open spec fn fill_call_at(p0: Point2D, p1: Point2D, p2: Point2D, c: TGAColor, x: int, y: int) -> Seq<(usize, usize, TGAColor)> {
    if fill_covers(p0, p1, p2, x, y) {
        seq![(usize_of(x) as usize, usize_of(y) as usize, c)]
    } else {
        Seq::empty()
    }
}

/// The `set` calls the fill makes in column `x`, in its first `n` rows
/// from the top of the bounding box.
pub open spec fn fill_column_calls(p0: Point2D, p1: Point2D, p2: Point2D, c: TGAColor, x: int, n: nat) -> Seq<(usize, usize, TGAColor)>
    decreases n,
{
    if n == 0 {
        Seq::empty()
    } else {
        fill_column_calls(p0, p1, p2, c, x, (n - 1) as nat) + fill_call_at(
            p0,
            p1,
            p2,
            c,
            x,
            min3(p0.y as int, p1.y as int, p2.y as int) + n - 1,
        )
    }
}

/// The `set` calls the fill makes in the first `n` columns of the bounding
/// box, from the left.
pub open spec fn fill_columns_calls(p0: Point2D, p1: Point2D, p2: Point2D, c: TGAColor, n: nat) -> Seq<(usize, usize, TGAColor)>
    decreases n,
{
    if n == 0 {
        Seq::empty()
    } else {
        fill_columns_calls(p0, p1, p2, c, (n - 1) as nat) + fill_column_calls(
            p0,
            p1,
            p2,
            c,
            min3(p0.x as int, p1.x as int, p2.x as int) + n - 1,
            (max3(p0.y as int, p1.y as int, p2.y as int) - min3(p0.y as int, p1.y as int, p2.y as int) + 1) as nat,
        )
    }
}

/// All `set` calls of the fill, in order.
pub open spec fn fill_calls(p0: Point2D, p1: Point2D, p2: Point2D, c: TGAColor) -> Seq<(usize, usize, TGAColor)> {
    fill_columns_calls(
        p0,
        p1,
        p2,
        c,
        (max3(p0.x as int, p1.x as int, p2.x as int) - min3(p0.x as int, p1.x as int, p2.x as int) + 1) as nat,
    )
}

fn fill_triangle<T: FrameBufferTarget>(target: &mut T, p0: &Point2D, p1: &Point2D, p2: &Point2D, c: &TGAColor)
    requires
        fill_fits(*p0, *p1, *p2),
    ensures
        final(target).target_width() == old(target).target_width(),
        final(target).target_height() == old(target).target_height(),
        forall|c2: TGAColor| #[trigger] final(target).target_kept(c2) == old(target).target_kept(c2),
        final(target).target_rest() == old(target).target_rest(),
        final(target).target_log() == old(target).target_log() + fill_calls(*p0, *p1, *p2, *c),
        forall|x: int, y: int|
            #[trigger] final(target).target_pixel(x, y) == if fill_hits(*p0, *p1, *p2, x, y) && 0 <= x
                < old(target).target_width() && 0 <= y < old(target).target_height() {
                old(target).target_kept(*c)
            } else {
                old(target).target_pixel(x, y)
            },
{
    let ghost start = *target;
    let x_min = DrawTriangleFill::min_3(p0.x, p1.x, p2.x);
    let x_max = DrawTriangleFill::max_3(p0.x, p1.x, p2.x);
    let y_min = DrawTriangleFill::min_3(p0.y, p1.y, p2.y);
    let y_max = DrawTriangleFill::max_3(p0.y, p1.y, p2.y);
    let ghost ny = (y_max - y_min + 1) as nat;
    let mut i: i64 = 0;
    proof {
        assert(start.target_log() + fill_columns_calls(*p0, *p1, *p2, *c, 0) =~= start.target_log());
    }
    while i <= x_max as i64 - x_min as i64
        invariant
            fill_fits(*p0, *p1, *p2),
            x_min == min3(p0.x as int, p1.x as int, p2.x as int),
            x_max == max3(p0.x as int, p1.x as int, p2.x as int),
            y_min == min3(p0.y as int, p1.y as int, p2.y as int),
            y_max == max3(p0.y as int, p1.y as int, p2.y as int),
            ny == y_max - y_min + 1,
            0 <= i <= x_max - x_min + 1,
            target.target_width() == start.target_width(),
            target.target_height() == start.target_height(),
            forall|c2: TGAColor| #[trigger] target.target_kept(c2) == start.target_kept(c2),
            target.target_rest() == start.target_rest(),
            target.target_log() == start.target_log() + fill_columns_calls(*p0, *p1, *p2, *c, i as nat),
            forall|x: int, y: int|
                #[trigger] target.target_pixel(x, y) == if fill_wanted(*p0, *p1, *p2, start.target_width(), start.target_height(), x, y) && coord_of(x) < x_min + i {
                    start.target_kept(*c)
                } else {
                    start.target_pixel(x, y)
                },
        decreases x_max - x_min + 1 - i,
    {
        let x = (x_min as i64 + i) as i32;
        let mut j: i64 = 0;
        let ghost done = target.target_log();
        proof {
            assert(done + fill_column_calls(*p0, *p1, *p2, *c, x as int, 0) =~= done);
            assert forall|xx: int, yy: int|
                #[trigger] target.target_pixel(xx, yy) == if fill_wanted(*p0, *p1, *p2, start.target_width(), start.target_height(), xx, yy) && visited(x as int, y_min + j, coord_of(xx), coord_of(yy)) {
                    start.target_kept(*c)
                } else {
                    start.target_pixel(xx, yy)
                } by {
                if fill_wanted(*p0, *p1, *p2, start.target_width(), start.target_height(), xx, yy) {
                    assert(in_bbox(*p0, *p1, *p2, coord_of(xx), coord_of(yy)));
                }
            }
        }
        while j <= y_max as i64 - y_min as i64
            invariant
                fill_fits(*p0, *p1, *p2),
                x_min == min3(p0.x as int, p1.x as int, p2.x as int),
                x_max == max3(p0.x as int, p1.x as int, p2.x as int),
                y_min == min3(p0.y as int, p1.y as int, p2.y as int),
                y_max == max3(p0.y as int, p1.y as int, p2.y as int),
                0 <= i <= x_max - x_min,
                x == x_min + i,
                0 <= j <= y_max - y_min + 1,
                target.target_width() == start.target_width(),
                target.target_height() == start.target_height(),
                forall|c2: TGAColor| #[trigger] target.target_kept(c2) == start.target_kept(c2),
                target.target_rest() == start.target_rest(),
                target.target_log() == done + fill_column_calls(*p0, *p1, *p2, *c, x as int, j as nat),
                forall|xx: int, yy: int|
                    #[trigger] target.target_pixel(xx, yy) == if fill_wanted(*p0, *p1, *p2, start.target_width(), start.target_height(), xx, yy) && visited(x as int, y_min + j, coord_of(xx), coord_of(yy)) {
                        start.target_kept(*c)
                    } else {
                        start.target_pixel(xx, yy)
                    },
            decreases y_max - y_min + 1 - j,
        {
            let y = (y_min as i64 + j) as i32;
            let p = Point2D { x, y };
            assert(in_bbox(*p0, *p1, *p2, x as int, y as int));
            let c1 = DrawTriangleFill::edge(p0, p1, x, y);
            let c2 = DrawTriangleFill::edge(p1, p2, x, y);
            let c3 = DrawTriangleFill::edge(p2, p0, x, y);
            let ghost before = *target;
            proof {
                lemma_cast(x);
                lemma_cast(y);
            }
            let inside = (c1 > 0 && c2 > 0 && c3 > 0) || (c1 < 0 && c2 < 0 && c3 < 0);
            if inside {
                target.set(x as usize, y as usize, c);
            }
            let mut edge_flag = false;
            if c1 == 0 && DrawTriangleFill::is_top_left_edge(p0, p1) && DrawTriangleFill::is_in_edge(
                &p,
                p0,
                p1,
            ) {
                edge_flag = true;
            } else if c2 == 0 && DrawTriangleFill::is_top_left_edge(p1, p2)
                && DrawTriangleFill::is_in_edge(&p, p1, p2) {
                edge_flag = true;
            } else if c3 == 0 && DrawTriangleFill::is_top_left_edge(p2, p0)
                && DrawTriangleFill::is_in_edge(&p, p2, p0) {
                edge_flag = true;
            }
            let ghost middle = *target;
            if edge_flag {
                target.set(x as usize, y as usize, c);
            }
            proof {
                let covered = fill_covers(*p0, *p1, *p2, x as int, y as int);
                assert(covered == (inside || edge_flag));
                assert(!(inside && edge_flag));
                let call = seq![(x as usize, y as usize, *c)];
                assert(fill_call_at(*p0, *p1, *p2, *c, x as int, y as int) == if covered {
                    call
                } else {
                    Seq::empty()
                });
                assert(fill_column_calls(*p0, *p1, *p2, *c, x as int, (j + 1) as nat) == fill_column_calls(
                    *p0,
                    *p1,
                    *p2,
                    *c,
                    x as int,
                    j as nat,
                ) + fill_call_at(*p0, *p1, *p2, *c, x as int, y as int));
                if covered {
                    assert(target.target_log() =~= done + fill_column_calls(*p0, *p1, *p2, *c, x as int, (j + 1) as nat));
                } else {
                    assert(target.target_log() =~= done + fill_column_calls(*p0, *p1, *p2, *c, x as int, (j + 1) as nat));
                }
                assert forall|xx: int, yy: int|
                    #[trigger] target.target_pixel(xx, yy) == if fill_wanted(*p0, *p1, *p2, start.target_width(), start.target_height(), xx, yy) && visited(x as int, y_min + j + 1, coord_of(xx), coord_of(yy)) {
                        start.target_kept(*c)
                    } else {
                        start.target_pixel(xx, yy)
                    } by {
                    if 0 <= xx <= usize::MAX && 0 <= yy <= usize::MAX {
                        lemma_coord(xx, x as int);
                        lemma_coord(yy, y as int);
                    }
                    assert(middle.target_pixel(xx, yy) == if xx == (x as usize) && yy == (y as usize) && (x as usize)
                        < start.target_width() && (y as usize) < start.target_height() && inside {
                        start.target_kept(*c)
                    } else {
                        before.target_pixel(xx, yy)
                    });
                }
            }
            j = j + 1;
        }
        proof {
            assert(fill_columns_calls(*p0, *p1, *p2, *c, (i + 1) as nat) == fill_columns_calls(*p0, *p1, *p2, *c, i as nat)
                + fill_column_calls(*p0, *p1, *p2, *c, x as int, ny));
            assert(target.target_log() =~= start.target_log() + fill_columns_calls(*p0, *p1, *p2, *c, (i + 1) as nat));
            assert forall|xx: int, yy: int|
                #[trigger] target.target_pixel(xx, yy) == if fill_wanted(*p0, *p1, *p2, start.target_width(), start.target_height(), xx, yy) && coord_of(xx) < x_min + i + 1 {
                    start.target_kept(*c)
                } else {
                    start.target_pixel(xx, yy)
                } by {
                if fill_wanted(*p0, *p1, *p2, start.target_width(), start.target_height(), xx, yy) {
                    assert(in_bbox(*p0, *p1, *p2, coord_of(xx), coord_of(yy)));
                }
            }
        }
        i = i + 1;
    }
    proof {
        assert forall|xx: int, yy: int|
            #[trigger] target.target_pixel(xx, yy) == if fill_hits(*p0, *p1, *p2, xx, yy) && 0 <= xx
                < start.target_width() && 0 <= yy < start.target_height() {
                start.target_kept(*c)
            } else {
                start.target_pixel(xx, yy)
            } by {
            if fill_wanted(*p0, *p1, *p2, start.target_width(), start.target_height(), xx, yy) {
                assert(in_bbox(*p0, *p1, *p2, coord_of(xx), coord_of(yy)));
            }
        }
    }
}

} // verus!
