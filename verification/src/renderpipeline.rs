//! The integer parts of the rasterizing pipeline: its modes, the layout of
//! per-vertex attributes, the screen-space bounding box of a triangle and
//! wireframe edges.
use vstd::prelude::*;

use crate::datatype::Point2D;
use crate::drawline::{line_calls, line_fits, line_hits, plot_line};
use crate::drawtriangle::{max3, min3};
use crate::framebuffer::FrameBufferTarget;
use crate::tgaimage::TGAColor;

verus! {

/// How triangles are drawn.
#[derive(Clone, Copy, Debug, PartialEq, Eq, Structural)]
pub enum PolygonMode {
    FILL,
    LINE,
    Point,
}

/// Which triangles are skipped by their winding on screen.
#[derive(Clone, Copy, Debug, PartialEq, Eq, Structural)]
pub enum CullMode {
    BACK,
    FRONT,
    NULL,
}

/// The kind of projection matrix to build.
#[derive(Clone, Copy, Debug, PartialEq, Eq, Structural)]
pub enum ProjectionMode {
    ORTHO,
    PERSPECTIVE,
}

/// The fixed slots of a vertex's attribute list.
#[derive(Clone, Copy, Debug, PartialEq, Eq, Structural)]
pub enum VaryingIndex {
    Color,
    Normal,
    TexCoord,
    Tangent,
    Bitangent,
    LightViewPos,
}

impl VaryingIndex {
    /// Number of slots in an attribute list.
    pub const COUNT: usize = 6;

    /// The slot's position in the attribute list.
    pub fn index(self) -> (i: usize)
        ensures
            i == match self {
                VaryingIndex::Color => 0usize,
                VaryingIndex::Normal => 1usize,
                VaryingIndex::TexCoord => 2usize,
                VaryingIndex::Tangent => 3usize,
                VaryingIndex::Bitangent => 4usize,
                VaryingIndex::LightViewPos => 5usize,
            },
            i < Self::COUNT,
    {
        match self {
            VaryingIndex::Color => 0,
            VaryingIndex::Normal => 1,
            VaryingIndex::TexCoord => 2,
            VaryingIndex::Tangent => 3,
            VaryingIndex::Bitangent => 4,
            VaryingIndex::LightViewPos => 5,
        }
    }
}

pub fn max_3(a: i32, b: i32, c: i32) -> (r: i32)
    ensures
        r == max3(a as int, b as int, c as int),
        r >= a && r >= b && r >= c,
        r == a || r == b || r == c,
{
    let ab = if a >= b { a } else { b };
    if ab >= c { ab } else { c }
}

pub fn min_3(a: i32, b: i32, c: i32) -> (r: i32)
    ensures
        r == min3(a as int, b as int, c as int),
        r <= a && r <= b && r <= c,
        r == a || r == b || r == c,
{
    let ab = if a <= b { a } else { b };
    if ab <= c { ab } else { c }
}

pub open spec fn clamp(v: int, lo: int, hi: int) -> int {
    if v < lo {
        lo
    } else if v > hi {
        hi
    } else {
        v
    }
}

/// The bounding box (x_min, x_max, y_min, y_max) of a triangle's screen
/// corners, each bound clamped to the `w` by `h` screen.
pub fn clamped_bbox(p0: &Point2D, p1: &Point2D, p2: &Point2D, w: usize, h: usize) -> (r: (i32, i32, i32, i32))
    requires
        1 <= w <= i32::MAX,
        1 <= h <= i32::MAX,
    ensures
        r.0 == clamp(min3(p0.x as int, p1.x as int, p2.x as int), 0, w - 1),
        r.1 == clamp(max3(p0.x as int, p1.x as int, p2.x as int), 0, w - 1),
        r.2 == clamp(min3(p0.y as int, p1.y as int, p2.y as int), 0, h - 1),
        r.3 == clamp(max3(p0.y as int, p1.y as int, p2.y as int), 0, h - 1),
        r.0 <= clamp(p0.x as int, 0, w - 1) <= r.1,
        r.0 <= clamp(p1.x as int, 0, w - 1) <= r.1,
        r.0 <= clamp(p2.x as int, 0, w - 1) <= r.1,
        r.2 <= clamp(p0.y as int, 0, h - 1) <= r.3,
        r.2 <= clamp(p1.y as int, 0, h - 1) <= r.3,
        r.2 <= clamp(p2.y as int, 0, h - 1) <= r.3,
        r.0 == clamp(p0.x as int, 0, w - 1) || r.0 == clamp(p1.x as int, 0, w - 1) || r.0 == clamp(p2.x as int, 0, w - 1),
        r.1 == clamp(p0.x as int, 0, w - 1) || r.1 == clamp(p1.x as int, 0, w - 1) || r.1 == clamp(p2.x as int, 0, w - 1),
        r.2 == clamp(p0.y as int, 0, h - 1) || r.2 == clamp(p1.y as int, 0, h - 1) || r.2 == clamp(p2.y as int, 0, h - 1),
        r.3 == clamp(p0.y as int, 0, h - 1) || r.3 == clamp(p1.y as int, 0, h - 1) || r.3 == clamp(p2.y as int, 0, h - 1),
{
    let wi = w as i32 - 1;
    let hi = h as i32 - 1;
    let x_min = clamp_i32(min_3(p0.x, p1.x, p2.x), 0, wi);
    let x_max = clamp_i32(max_3(p0.x, p1.x, p2.x), 0, wi);
    let y_min = clamp_i32(min_3(p0.y, p1.y, p2.y), 0, hi);
    let y_max = clamp_i32(max_3(p0.y, p1.y, p2.y), 0, hi);
    (x_min, x_max, y_min, y_max)
}

fn clamp_i32(v: i32, lo: i32, hi: i32) -> (r: i32)
    requires
        lo <= hi,
    ensures
        r == clamp(v as int, lo as int, hi as int),
{
    if v < lo {
        lo
    } else if v > hi {
        hi
    } else {
        v
    }
}

/// Draws a wireframe edge from `p0` to `p1` on any target with Bresenham's
/// algorithm: one `set` call per position along the major axis, in order
/// from its low end, a minor-axis position exactly halfway between two
/// pixels rounded towards the near end (`on_line` without `ties_up`).
/// Calls outside the target change nothing.
pub fn draw_line<T: FrameBufferTarget>(target: &mut T, p0: &Point2D, p1: &Point2D, color: &TGAColor)
    requires
        line_fits(*p0, *p1),
    ensures
        final(target).target_width() == old(target).target_width(),
        final(target).target_height() == old(target).target_height(),
        forall|c2: TGAColor| #[trigger] final(target).target_kept(c2) == old(target).target_kept(c2),
        final(target).target_rest() == old(target).target_rest(),
        final(target).target_log() == old(target).target_log() + line_calls(*p0, *p1, *color, false),
        forall|x: int, y: int|
            #[trigger] final(target).target_pixel(x, y) == if line_hits(*p0, *p1, x, y, false) && 0 <= x
                < old(target).target_width() && 0 <= y < old(target).target_height() {
                old(target).target_kept(*color)
            } else {
                old(target).target_pixel(x, y)
            },
{
    plot_line(target, p0, p1, color, false);
}

} // verus!
