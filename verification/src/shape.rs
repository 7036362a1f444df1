//! Shape descriptors and their rasterizers. A descriptor carries a shape's
//! kind and size; `rasterize` late-binds the origin and color, writing the
//! covered pixels through the canvas. Both shapes clip through the one
//! normalize-then-fill mechanism of `crate::rect`.
use vstd::prelude::*;

verus! {

use vstd::arithmetic::div_mod::{
    lemma_fundamental_div_mod,
    lemma_fundamental_div_mod_converse_div,
    lemma_fundamental_div_mod_converse_mod,
    lemma_mod_division_less_than_divisor,
};
use crate::canvas::Canvas;
use crate::canvas::lemma_row_major_index_in_range;
use crate::rect::{nomalize_rect, norm_rect_spec};

/// A reusable shape descriptor: one value may be drawn many times with
/// different origins and colors.
#[derive(Clone, Copy)]
pub enum Shape {
    Rect { w: i32, h: i32 },
    Circle { r: i32 },
}

/// A rectangle spanning `w` columns and `h` rows from the draw origin;
/// either extent may be negative (the rectangle then extends leftward or
/// upward) and a zero extent draws nothing.
pub fn rect(w: i32, h: i32) -> (s: Shape)
    ensures
        s == (Shape::Rect { w, h }),
{
    Shape::Rect { w, h }
}

/// A closed disk of radius `r` whose bounding box of `2r` by `2r` pixels is
/// anchored at the draw origin; a non-positive radius draws nothing.
pub fn circle(r: i32) -> (s: Shape)
    ensures
        s == (Shape::Circle { r }),
{
    Shape::Circle { r }
}

pub open spec fn sq(a: int) -> int {
    a * a
}

/// Whether the rectangle of extents `(w, h)` drawn at `(ox, oy)` covers the
/// pixel `(px, py)`: inside the normalized, clamped bounds.
pub open spec fn rect_covers(
    width: int,
    height: int,
    ox: int,
    oy: int,
    w: int,
    h: int,
    px: int,
    py: int,
) -> bool {
    match norm_rect_spec(width, height, ox, oy, w, h) {
        None => false,
        Some((lx, ly, hx, hy)) => lx <= px && px <= hx && ly <= py && py <= hy,
    }
}

/// Whether the circle of radius `r` drawn at `(ox, oy)` covers the pixel
/// `(px, py)`: inside the normalized bounding box, and within squared
/// distance `r * r` of the center `(ox + r, oy + r)`.
pub open spec fn circle_covers(
    width: int,
    height: int,
    ox: int,
    oy: int,
    r: int,
    px: int,
    py: int,
) -> bool {
    &&& r > 0
    &&& rect_covers(width, height, ox, oy, 2 * r, 2 * r, px, py)
    &&& sq(px - ox - r) + sq(py - oy - r) <= sq(r)
}

/// Whether `s` drawn at `(ox, oy)` covers the pixel `(px, py)`.
pub open spec fn shape_covers(
    s: Shape,
    width: int,
    height: int,
    ox: int,
    oy: int,
    px: int,
    py: int,
) -> bool {
    match s {
        Shape::Rect { w, h } => rect_covers(width, height, ox, oy, w as int, h as int, px, py),
        Shape::Circle { r } => circle_covers(width, height, ox, oy, r as int, px, py),
    }
}

/// `shape_covers` at the pixel behind the row-major index `i`.
pub open spec fn shape_covers_idx(
    s: Shape,
    width: int,
    height: int,
    ox: int,
    oy: int,
    i: int,
) -> bool {
    shape_covers(s, width, height, ox, oy, i % width, i / width)
}

/// The machine limit a descriptor must meet before it can be rasterized: a
/// circle's bounding box extent `2 * r` must fit in `i32`.
pub open spec fn shape_fits(s: Shape) -> bool {
    match s {
        Shape::Rect { .. } => true,
        Shape::Circle { r } => r <= 0x3FFF_FFFF,
    }
}

/// How one draw call changes the pixel store: every covered index holds
/// `color`, every other index its previous value.
pub open spec fn painted(
    s: Shape,
    before: Seq<u32>,
    after: Seq<u32>,
    width: int,
    height: int,
    ox: int,
    oy: int,
    color: u32,
) -> bool {
    &&& after.len() == before.len()
    &&& forall|i: int|
        0 <= i < after.len() ==> after[i] == (if shape_covers_idx(s, width, height, ox, oy, i) {
            color
        } else {
            before[i]
        })
}

/// A row-major index built from in-range coordinates decomposes back into
/// them.
proof fn lemma_row_col(width: int, x: int, y: int, i: int)
    requires
        0 <= x < width,
        0 <= y,
        i == y * width + x,
    ensures
        i / width == y,
        i % width == x,
{
    lemma_fundamental_div_mod_converse_div(i, width, y, x);
    lemma_fundamental_div_mod_converse_mod(i, width, y, x);
}

/// Any index is the row-major index of its own row and column.
proof fn lemma_decompose(width: int, i: int)
    requires
        0 < width,
        0 <= i,
    ensures
        i == (i / width) * width + (i % width),
        0 <= i % width < width,
        0 <= i / width,
{
    lemma_fundamental_div_mod(i, width);
    lemma_mod_division_less_than_divisor(i, width);
    assert(width * (i / width) == (i / width) * width) by (nonlinear_arith);
    if i / width < 0 {
        assert((i / width) * width <= -width) by (nonlinear_arith)
            requires
                0 < width,
                i / width <= -1,
        ;
    }
}

/// Paints every pixel of the normalized rectangle, row by row.
pub(crate) fn rasterize_rect(canvas: &mut Canvas, ox: i32, oy: i32, w: i32, h: i32, color: u32)
    requires
        old(canvas).wf(),
        old(canvas).width <= i32::MAX as usize,
        old(canvas).height <= i32::MAX as usize,
    ensures
        final(canvas).wf(),
        final(canvas).width == old(canvas).width,
        final(canvas).height == old(canvas).height,
        final(canvas).stride == old(canvas).stride,
        painted(
            (Shape::Rect { w, h }),
            old(canvas).pixels@,
            final(canvas).pixels@,
            old(canvas).width as int,
            old(canvas).height as int,
            ox as int,
            oy as int,
            color,
        ),
    {
    let ghost wi = old(canvas).width as int;
    let ghost hi = old(canvas).height as int;
    // The store's length, a usize, bounds the index arithmetic below.
    let len: usize = canvas.pixels.len();
    let width: usize = canvas.width;
    match nomalize_rect(canvas, ox, oy, w, h) {
        None => {},
        Some(rc) => {
            if rc.x1 > rc.x2 || rc.y1 > rc.y2 {
                return ;
            }
            let mut yy: i32 = rc.y1;
            while yy <= rc.y2
                invariant
                    rc.y1 <= yy,
                    yy <= rc.y2 + 1,
                    canvas.wf(),
                    canvas.width == old(canvas).width,
                    canvas.height == old(canvas).height,
                    canvas.stride == old(canvas).stride,
                    canvas.pixels@.len() == old(canvas).pixels@.len(),
                    forall|i: int|
                        0 <= i < canvas.pixels@.len() ==> canvas.pixels@[i] == (if rect_covers(
                            wi,
                            hi,
                            ox as int,
                            oy as int,
                            w as int,
                            h as int,
                            i % wi,
                            i / wi,
                        ) && i / wi < yy {
                            color
                        } else {
                            old(canvas).pixels@[i]
                        }),
                decreases rc.y2 + 1 - yy,
            {
                let mut xx: i32 = rc.x1;
                while xx <= rc.x2
                    invariant
                        rc.x1 <= xx,
                        xx <= rc.x2 + 1,
                        rc.y1 <= yy <= rc.y2,
                        canvas.wf(),
                        canvas.width == old(canvas).width,
                        canvas.height == old(canvas).height,
                        canvas.stride == old(canvas).stride,
                        canvas.pixels@.len() == old(canvas).pixels@.len(),
                        forall|i: int|
                            0 <= i < canvas.pixels@.len() ==> canvas.pixels@[i] == (if rect_covers(
                                wi,
                                hi,
                                ox as int,
                                oy as int,
                                w as int,
                                h as int,
                                i % wi,
                                i / wi,
                            ) && (i / wi < yy || (i / wi == yy && i % wi < xx)) {
                                color
                            } else {
                                old(canvas).pixels@[i]
                            }),
                    decreases rc.x2 + 1 - xx,
                {
                    proof {
                        lemma_row_major_index_in_range(wi, hi, xx as int, yy as int);
                    }
                    let idx: usize = (yy as usize) * width + (xx as usize);
                    canvas.pixels[idx] = color;
                    proof {
                        lemma_row_col(wi, xx as int, yy as int, idx as int);
                        assert forall|i: int|
                            0 <= i < canvas.pixels@.len() implies canvas.pixels@[i] == (
                        if rect_covers(
                            wi,
                            hi,
                            ox as int,
                            oy as int,
                            w as int,
                            h as int,
                            i % wi,
                            i / wi,
                        ) && (i / wi < yy || (i / wi == yy && i % wi < xx + 1)) {
                            color
                        } else {
                            old(canvas).pixels@[i]
                        }) by {
                            if i != idx {
                                lemma_decompose(wi, i);
                            }
                        }
                    }
                    xx = xx + 1;
                }
                yy = yy + 1;
            }
        },
    }
}

/// Paints every pixel of the circle's normalized bounding box that passes
/// the squared-distance test. A non-positive radius draws nothing.
pub(crate) fn rasterize_circle(canvas: &mut Canvas, ox: i32, oy: i32, r: i32, color: u32)
    requires
        old(canvas).wf(),
        old(canvas).width <= i32::MAX as usize,
        old(canvas).height <= i32::MAX as usize,
        r <= 0x3FFF_FFFF,
    ensures
        final(canvas).wf(),
        final(canvas).width == old(canvas).width,
        final(canvas).height == old(canvas).height,
        final(canvas).stride == old(canvas).stride,
        painted(
            (Shape::Circle { r }),
            old(canvas).pixels@,
            final(canvas).pixels@,
            old(canvas).width as int,
            old(canvas).height as int,
            ox as int,
            oy as int,
            color,
        ),
    {
    let ghost wi = old(canvas).width as int;
    let ghost hi = old(canvas).height as int;
    if r <= 0 {
        return ;
    }
    // The store's length, a usize, bounds the index arithmetic below.
    let len: usize = canvas.pixels.len();
    let width: usize = canvas.width;
    let d: i32 = r + r;
    match nomalize_rect(canvas, ox, oy, d, d) {
        None => {
            proof {
                assert(false);
            }
        },
        Some(rc) => {
            if rc.x1 > rc.x2 || rc.y1 > rc.y2 {
                return ;
            }
            let mut yy: i32 = rc.y1;
            while yy <= rc.y2
                invariant
                    rc.y1 <= yy,
                    yy <= rc.y2 + 1,
                    canvas.wf(),
                    canvas.width == old(canvas).width,
                    canvas.height == old(canvas).height,
                    canvas.stride == old(canvas).stride,
                    canvas.pixels@.len() == old(canvas).pixels@.len(),
                    forall|i: int|
                        0 <= i < canvas.pixels@.len() ==> canvas.pixels@[i] == (if circle_covers(
                            wi,
                            hi,
                            ox as int,
                            oy as int,
                            r as int,
                            i % wi,
                            i / wi,
                        ) && i / wi < yy {
                            color
                        } else {
                            old(canvas).pixels@[i]
                        }),
                decreases rc.y2 + 1 - yy,
            {
                let mut xx: i32 = rc.x1;
                while xx <= rc.x2
                    invariant
                        rc.x1 <= xx,
                        xx <= rc.x2 + 1,
                        rc.y1 <= yy <= rc.y2,
                        canvas.wf(),
                        canvas.width == old(canvas).width,
                        canvas.height == old(canvas).height,
                        canvas.stride == old(canvas).stride,
                        canvas.pixels@.len() == old(canvas).pixels@.len(),
                        forall|i: int|
                            0 <= i < canvas.pixels@.len() ==> canvas.pixels@[i] == (
                            if circle_covers(
                                wi,
                                hi,
                                ox as int,
                                oy as int,
                                r as int,
                                i % wi,
                                i / wi,
                            ) && (i / wi < yy || (i / wi == yy && i % wi < xx)) {
                                color
                            } else {
                                old(canvas).pixels@[i]
                            }),
                    decreases rc.x2 + 1 - xx,
                {
                    proof {
                        lemma_row_major_index_in_range(wi, hi, xx as int, yy as int);
                    }
                    let idx: usize = (yy as usize) * width + (xx as usize);
                    let dx: i64 = xx as i64 - ox as i64 - r as i64;
                    let dy: i64 = yy as i64 - oy as i64 - r as i64;
                    proof {
                        assert(0 <= (dx as int) * (dx as int) <= 0x4_0000_0000_0000_0000) by (
                        nonlinear_arith)
                            requires
                                -0x2_0000_0000 <= dx as int <= 0x2_0000_0000,
                        ;
                        assert(0 <= (dy as int) * (dy as int) <= 0x4_0000_0000_0000_0000) by (
                        nonlinear_arith)
                            requires
                                -0x2_0000_0000 <= dy as int <= 0x2_0000_0000,
                        ;
                        assert(0 <= (r as int) * (r as int) <= 0x1000_0000_0000_0000) by (
                        nonlinear_arith)
                            requires
                                0 < r as int <= 0x4000_0000,
                        ;
                    }
                    let dx2: i128 = (dx as i128) * (dx as i128);
                    let dy2: i128 = (dy as i128) * (dy as i128);
                    let r2: i128 = (r as i128) * (r as i128);
                    if dx2 + dy2 <= r2 {
                        canvas.pixels[idx] = color;
                    }
                    proof {
                        lemma_row_col(wi, xx as int, yy as int, idx as int);
                        assert forall|i: int|
                            0 <= i < canvas.pixels@.len() implies canvas.pixels@[i] == (
                        if circle_covers(
                            wi,
                            hi,
                            ox as int,
                            oy as int,
                            r as int,
                            i % wi,
                            i / wi,
                        ) && (i / wi < yy || (i / wi == yy && i % wi < xx + 1)) {
                            color
                        } else {
                            old(canvas).pixels@[i]
                        }) by {
                            if i != idx {
                                lemma_decompose(wi, i);
                            }
                        }
                    }
                    xx = xx + 1;
                }
                yy = yy + 1;
            }
        },
    }
}

/// Draws `s` at origin `(ox, oy)` in `color`: the dispatch over shape
/// descriptors. Off-canvas or degenerate geometry is clipped, never an
/// error.
pub fn rasterize(s: Shape, canvas: &mut Canvas, ox: i32, oy: i32, color: u32)
    requires
        old(canvas).wf(),
        old(canvas).width <= i32::MAX as usize,
        old(canvas).height <= i32::MAX as usize,
        shape_fits(s),
    ensures
        final(canvas).wf(),
        final(canvas).width == old(canvas).width,
        final(canvas).height == old(canvas).height,
        final(canvas).stride == old(canvas).stride,
        painted(
            s,
            old(canvas).pixels@,
            final(canvas).pixels@,
            old(canvas).width as int,
            old(canvas).height as int,
            ox as int,
            oy as int,
            color,
        ),
    {
    match s {
        Shape::Rect { w, h } => rasterize_rect(canvas, ox, oy, w, h, color),
        Shape::Circle { r } => rasterize_circle(canvas, ox, oy, r, color),
    }
}

/// Axis symmetry of circle rasterization: when the whole `2r` by `2r`
/// bounding box lies inside the canvas, a pixel is painted exactly when its
/// reflection about the center `(ox + r, oy + r)` is — in x, in y, or in
/// both. The box spans `r` cells before the center on each axis but only
/// `r - 1` after it, so each clause asks that the reflected coordinate stay
/// inside the box: the pixel on a box's leading edge (say `px == ox`, with
/// `py` at the center row) is painted while its reflection falls one past
/// the trailing edge and is not.
pub proof fn lemma_circle_symmetry(
    width: int,
    height: int,
    ox: int,
    oy: int,
    r: int,
    px: int,
    py: int,
)
    requires
        r > 0,
        0 <= ox,
        0 <= oy,
        ox + 2 * r <= width,
        oy + 2 * r <= height,
        ox <= px <= ox + 2 * r - 1,
        oy <= py <= oy + 2 * r - 1,
    ensures
        ox + 1 <= px ==> circle_covers(width, height, ox, oy, r, px, py) == circle_covers(
            width,
            height,
            ox,
            oy,
            r,
            2 * (ox + r) - px,
            py,
        ),
        oy + 1 <= py ==> circle_covers(width, height, ox, oy, r, px, py) == circle_covers(
            width,
            height,
            ox,
            oy,
            r,
            px,
            2 * (oy + r) - py,
        ),
        ox + 1 <= px && oy + 1 <= py ==> circle_covers(width, height, ox, oy, r, px, py)
            == circle_covers(width, height, ox, oy, r, 2 * (ox + r) - px, 2 * (oy + r) - py),
{
    let a = px - ox - r;
    let b = py - oy - r;
    assert((-a) * (-a) == a * a) by (nonlinear_arith);
    assert((-b) * (-b) == b * b) by (nonlinear_arith);
}

} // verus!
