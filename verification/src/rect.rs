//! Rectangle normalization: the one bounds-safety mechanism shared by every
//! shape. A signed origin and signed extents become an inclusive, clamped
//! rectangle, or nothing when an extent is zero.
use vstd::prelude::*;

verus! {

use vstd::math::{abs, max, min};

/// An inclusive axis-aligned rectangle with `x1 <= x2` and `y1 <= y2`
/// whenever it covers anything, upper bounds clamped to the canvas.
pub struct NomalizedRect {
    pub x1: i32,
    pub y1: i32,
    pub x2: i32,
    pub y2: i32,
}

/// The sign factor of a nonzero extent.
pub open spec fn extent_sign(w: int) -> int {
    if w < 0 {
        -1
    } else {
        1
    }
}

/// The last column (or row) that an extent `w` anchored at `a` spans:
/// `|w|` cells starting from `a`, extending in the direction of `w`'s sign.
pub open spec fn span_end(a: int, w: int) -> int {
    a + extent_sign(w) * (abs(w) - 1)
}

/// What `nomalize_rect` computes, over unbounded integers: `None` for a
/// zero extent; otherwise the span ends, ordered, with the lower corner
/// clamped to 0 and the upper corner clamped to the canvas bounds.
pub open spec fn norm_rect_spec(
    width: int,
    height: int,
    x1: int,
    y1: int,
    w: int,
    h: int,
) -> Option<(int, int, int, int)> {
    if w == 0 || h == 0 {
        None
    } else {
        let xe = span_end(x1, w);
        let ye = span_end(y1, h);
        Some(
            (
                max(min(x1, xe), 0),
                max(min(y1, ye), 0),
                min(max(x1, xe), width - 1),
                min(max(y1, ye), height - 1),
            ),
        )
    }
}

/// Turns an origin and signed extents into the inclusive rectangle they
/// span, ordered and clamped to the canvas; `None` when an extent is zero.
/// A rectangle that lies entirely outside the canvas is still returned
/// clamped (its loop bounds then cover nothing, or one boundary sliver).
pub fn nomalize_rect(canvas: &crate::canvas::Canvas, x1: i32, y1: i32, w: i32, h: i32) -> (r:
    Option<NomalizedRect>)
    requires
        canvas.width <= i32::MAX as usize,
        canvas.height <= i32::MAX as usize,
    ensures
        r is None <==> (w == 0 || h == 0),
        r matches Some(rc) ==> norm_rect_spec(
            canvas.width as int,
            canvas.height as int,
            x1 as int,
            y1 as int,
            w as int,
            h as int,
        ) == Some((rc.x1 as int, rc.y1 as int, rc.x2 as int, rc.y2 as int)),
    {
    if w == 0 || h == 0 {
        return None;
    }
    let wd: i64 = if w < 0 {
        -(w as i64)
    } else {
        w as i64
    };
    let hd: i64 = if h < 0 {
        -(h as i64)
    } else {
        h as i64
    };
    let xe: i64 = if w < 0 {
        x1 as i64 - (wd - 1)
    } else {
        x1 as i64 + (wd - 1)
    };
    let ye: i64 = if h < 0 {
        y1 as i64 - (hd - 1)
    } else {
        y1 as i64 + (hd - 1)
    };
    let mut xl: i64 = x1 as i64;
    let mut xh: i64 = xe;
    if xl > xh {
        let t = xl;
        xl = xh;
        xh = t;
    }
    let mut yl: i64 = y1 as i64;
    let mut yh: i64 = ye;
    if yl > yh {
        let t = yl;
        yl = yh;
        yh = t;
    }
    if xl < 0 {
        xl = 0;
    }
    if yl < 0 {
        yl = 0;
    }
    let wi: i64 = canvas.width as i64;
    let hi: i64 = canvas.height as i64;
    if xh >= wi {
        xh = wi - 1;
    }
    if yh >= hi {
        yh = hi - 1;
    }
    proof {
        assert(xe as int == span_end(x1 as int, w as int));
        assert(ye as int == span_end(y1 as int, h as int));
        assert(xl as int == max(min(x1 as int, xe as int), 0));
        assert(yl as int == max(min(y1 as int, ye as int), 0));
        assert(xh as int == min(max(x1 as int, xe as int), canvas.width as int - 1));
        assert(yh as int == min(max(y1 as int, ye as int), canvas.height as int - 1));
    }
    Some(NomalizedRect { x1: xl as i32, y1: yl as i32, x2: xh as i32, y2: yh as i32 })
}

} // verus!
