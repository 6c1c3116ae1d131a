//! A fixed window of pixels and the figures that are drawn into it.
//!
//! The window is a flat `Vec<u32>`, row by row. Every drawing function is described by the set of
//! window positions it covers (a `spec_fn(int, int) -> bool` over column and row): after the call
//! those positions hold the colour and every other one is as it was. Positions outside the window
//! are clipped.

use crate::distance::gap;
use vstd::prelude::*;

verus! {

/// Columns of the window.
pub const WIDTH: usize = 800;

/// Rows of the window.
pub const HEIGHT: usize = 800;

/// A position in the window, or beyond its edges, or the way from one position to another.
#[derive(Clone, Copy, Debug, PartialEq, Eq, Structural)]
pub struct Pixel {
    pub x: isize,
    pub y: isize,
}

/// Column `x`, row `y` lies inside the window.
pub open spec fn in_window(x: int, y: int) -> bool {
    0 <= x < WIDTH && 0 <= y < HEIGHT
}

/// `buf` with `color` at every window position of `shape`.
pub open spec fn paint(buf: Seq<u32>, shape: spec_fn(int, int) -> bool, color: u32) -> Seq<u32> {
    Seq::new(
        buf.len(),
        |i: int|
            if i < WIDTH * HEIGHT && shape(i % (WIDTH as int), i / (WIDTH as int)) {
                color
            } else {
                buf[i]
            },
    )
}

/// Every window position of `shape` has a pixel in a buffer of `len` pixels.
pub open spec fn fits(len: nat, shape: spec_fn(int, int) -> bool) -> bool {
    forall|x: int, y: int| in_window(x, y) && #[trigger] shape(x, y) ==> y * WIDTH + x < len
}

/// A whole window has room for every shape.
pub proof fn lemma_window_fits(len: nat, shape: spec_fn(int, int) -> bool)
    requires
        len >= WIDTH * HEIGHT,
    ensures
        fits(len, shape),
{
}

/// The single position `(cx, cy)`.
pub open spec fn point(cx: int, cy: int) -> spec_fn(int, int) -> bool {
    |x: int, y: int| x == cx && y == cy
}

/// The disc of radius `r` around `(cx, cy)`; empty for a negative radius.
pub open spec fn disc(cx: int, cy: int, r: int) -> spec_fn(int, int) -> bool {
    |x: int, y: int| r >= 0 && (x - cx) * (x - cx) + (y - cy) * (y - cy) <= r * r
}

/// Painting `a` and then `b` in one colour is painting their union.
pub proof fn lemma_paint_union(
    buf: Seq<u32>,
    a: spec_fn(int, int) -> bool,
    b: spec_fn(int, int) -> bool,
    both: spec_fn(int, int) -> bool,
    color: u32,
)
    requires
        forall|x: int, y: int| in_window(x, y) ==> #[trigger] both(x, y) == (a(x, y) || b(x, y)),
    ensures
        paint(paint(buf, a, color), b, color) == paint(buf, both, color),
{
    let left = paint(paint(buf, a, color), b, color);
    let right = paint(buf, both, color);
    assert forall|i: int| 0 <= i < buf.len() implies left[i] == right[i] by {
        if i < WIDTH * HEIGHT {
            let x = i % (WIDTH as int);
            let y = i / (WIDTH as int);
            assert(in_window(x, y));
            assert(both(x, y) == (a(x, y) || b(x, y)));
        }
    }
    assert(left =~= right);
}

/// Colours the pixel in column `x`, row `y`, if the window has one there.
pub fn set_px(buf: &mut Vec<u32>, x: isize, y: isize, color: u32)
    requires
        fits(old(buf)@.len(), point(x as int, y as int)),
    ensures
        final(buf)@ == paint(old(buf)@, point(x as int, y as int), color),
{
    if x >= 0 && x < WIDTH as isize && y >= 0 && y < HEIGHT as isize {
        assert(point(x as int, y as int)(x as int, y as int));
        let i: usize = y as usize * WIDTH + x as usize;
        buf.set(i, color);
        assert forall|k: int| 0 <= k < buf@.len() implies buf@[k] == paint(
            old(buf)@,
            point(x as int, y as int),
            color,
        )[k] by {
            assert(k % 800 == x && k / 800 == y <==> k == y * 800 + x);
        }
    }
    assert(buf@ =~= paint(old(buf)@, point(x as int, y as int), color));
}


/// The part of `disc(cx, cy, r)` that lies before `(ex, ey)` in reading order.
spec fn disc_before(cx: int, cy: int, r: int, ex: int, ey: int) -> spec_fn(int, int) -> bool {
    |x: int, y: int| disc(cx, cy, r)(x, y) && (y < ey || (y == ey && x < ex))
}

/// A position of a disc is no further than the radius from the centre in either direction.
proof fn lemma_disc_extent(cx: int, cy: int, r: int, x: int, y: int)
    requires
        disc(cx, cy, r)(x, y),
    ensures
        cx - r <= x <= cx + r,
        cy - r <= y <= cy + r,
{
    let dx = x - cx;
    let dy = y - cy;
    assert(-r <= dx <= r && -r <= dy <= r) by (nonlinear_arith)
        requires
            r >= 0,
            dx * dx + dy * dy <= r * r,
    ;
}

/// Colours the disc of radius `r` around `(cx, cy)`; does nothing for a negative radius.
pub fn fill_dot(buf: &mut Vec<u32>, cx: isize, cy: isize, r: isize, color: u32)
    requires
        r > isize::MIN,
        r >= 0 ==> 2 * (r * r) <= isize::MAX,
        r >= 0 ==> isize::MIN <= cx - r && cx + r <= isize::MAX,
        r >= 0 ==> isize::MIN <= cy - r && cy + r <= isize::MAX,
        fits(old(buf)@.len(), disc(cx as int, cy as int, r as int)),
    ensures
        final(buf)@ == paint(old(buf)@, disc(cx as int, cy as int, r as int), color),
{
    let ghost shape = disc(cx as int, cy as int, r as int);
    if r < 0 {
        assert(buf@ =~= paint(buf@, shape, color));
        return;
    }
    assert(r < isize::MAX) by (nonlinear_arith)
        requires
            r >= 0,
            2 * (r * r) <= isize::MAX,
    ;
    let mut dy: isize = -r;
    proof {
        let none = disc_before(cx as int, cy as int, r as int, cx - r, cy - r);
        assert forall|x: int, y: int| !#[trigger] none(x, y) by {
            if shape(x, y) {
                lemma_disc_extent(cx as int, cy as int, r as int, x, y);
            }
        }
        assert(buf@ =~= paint(buf@, none, color));
    }
    while dy <= r
        invariant
            0 <= r < isize::MAX,
            2 * (r * r) <= isize::MAX,
            isize::MIN <= cx - r,
            cx + r <= isize::MAX,
            isize::MIN <= cy - r,
            cy + r <= isize::MAX,
            -r <= dy <= r + 1,
            shape == disc(cx as int, cy as int, r as int),
            fits(old(buf)@.len(), shape),
            buf@ == paint(
                old(buf)@,
                disc_before(cx as int, cy as int, r as int, cx - r, cy + dy),
                color,
            ),
        decreases r + 1 - dy,
    {
        let mut dx: isize = -r;
        while dx <= r
            invariant
                0 <= r < isize::MAX,
                2 * (r * r) <= isize::MAX,
                isize::MIN <= cx - r,
                cx + r <= isize::MAX,
                isize::MIN <= cy - r,
                cy + r <= isize::MAX,
                -r <= dy <= r,
                -r <= dx <= r + 1,
                shape == disc(cx as int, cy as int, r as int),
                fits(old(buf)@.len(), shape),
                buf@ == paint(
                    old(buf)@,
                    disc_before(cx as int, cy as int, r as int, cx + dx, cy + dy),
                    color,
                ),
            decreases r + 1 - dx,
        {
            assert(0 <= dx * dx <= r * r && 0 <= dy * dy <= r * r) by (nonlinear_arith)
                requires
                    -r <= dx <= r,
                    -r <= dy <= r,
            ;
            let ghost done = disc_before(cx as int, cy as int, r as int, cx + dx, cy + dy);
            let ghost next = disc_before(cx as int, cy as int, r as int, cx + dx + 1, cy + dy);
            let ghost here = point(cx + dx, cy + dy);
            if dx * dx + dy * dy <= r * r {
                assert(shape(cx + dx, cy + dy));
                set_px(buf, cx + dx, cy + dy, color);
                proof {
                    lemma_paint_union(old(buf)@, done, here, next, color);
                }
            } else {
                assert(forall|x: int, y: int| #[trigger] done(x, y) == next(x, y)) by {
                    assert(!shape(cx + dx, cy + dy));
                }
                assert(paint(old(buf)@, done, color) =~= paint(old(buf)@, next, color));
            }
            dx += 1;
        }
        proof {
            let row = disc_before(cx as int, cy as int, r as int, cx + r + 1, cy + dy);
            let next = disc_before(cx as int, cy as int, r as int, cx - r, cy + dy + 1);
            assert forall|x: int, y: int| #[trigger] row(x, y) == next(x, y) by {
                if shape(x, y) {
                    lemma_disc_extent(cx as int, cy as int, r as int, x, y);
                }
            }
            assert(paint(old(buf)@, row, color) =~= paint(old(buf)@, next, color));
        }
        dy += 1;
    }
    proof {
        let all = disc_before(cx as int, cy as int, r as int, cx - r, cy + r + 1);
        assert forall|x: int, y: int| #[trigger] all(x, y) == shape(x, y) by {
            if shape(x, y) {
                lemma_disc_extent(cx as int, cy as int, r as int, x, y);
            }
        }
        assert(paint(old(buf)@, all, color) =~= paint(old(buf)@, shape, color));
    }
}

/// Row `cy`, over the whole width.
pub open spec fn row(cy: int) -> spec_fn(int, int) -> bool {
    |x: int, y: int| y == cy
}

/// Column `cx`, over the whole height.
pub open spec fn column(cx: int) -> spec_fn(int, int) -> bool {
    |x: int, y: int| x == cx
}

/// Colours row `y`, if the window has it.
pub fn draw_hline(buf: &mut Vec<u32>, y: usize, color: u32)
    requires
        fits(old(buf)@.len(), row(y as int)),
    ensures
        final(buf)@ == paint(old(buf)@, row(y as int), color),
{
    if y < HEIGHT {
        let mut x: usize = 0;
        while x < WIDTH
            invariant
                x <= WIDTH,
                y < HEIGHT,
                fits(old(buf)@.len(), row(y as int)),
                buf@.len() == old(buf)@.len(),
                forall|i: int|
                    0 <= i < buf@.len() ==> #[trigger] buf@[i] == if y * WIDTH <= i < y * WIDTH + x {
                        color
                    } else {
                        old(buf)@[i]
                    },
            decreases WIDTH - x,
        {
            assert(row(y as int)(x as int, y as int));
            buf.set(y * WIDTH + x, color);
            x += 1;
        }
    }
    assert(buf@ =~= paint(old(buf)@, row(y as int), color));
}

/// Colours column `x`, if the window has it.
pub fn draw_vline(buf: &mut Vec<u32>, x: usize, color: u32)
    requires
        fits(old(buf)@.len(), column(x as int)),
    ensures
        final(buf)@ == paint(old(buf)@, column(x as int), color),
{
    if x < WIDTH {
        let mut y: usize = 0;
        while y < HEIGHT
            invariant
                y <= HEIGHT,
                x < WIDTH,
                fits(old(buf)@.len(), column(x as int)),
                buf@.len() == old(buf)@.len(),
                forall|i: int|
                    0 <= i < buf@.len() ==> #[trigger] buf@[i] == if i / 800 < y && i % 800 == x {
                        color
                    } else {
                        old(buf)@[i]
                    },
            decreases HEIGHT - y,
        {
            assert(column(x as int)(x as int, y as int));
            buf.set(y * WIDTH + x, color);
            y += 1;
        }
    }
    assert(buf@ =~= paint(old(buf)@, column(x as int), color));
}


/// The point half a pixel below `(x, y)` lies strictly inside a circle of radius `r` around the
/// origin, up to the quarter that integers cannot tell apart:
/// `x^2 + (y - 1/2)^2 < r^2 + 1/4`.
pub open spec fn midpoint_inside(r: int, x: int, y: int) -> bool {
    x * x + y * y - y < r * r
}

/// `(x, y)` is the pixel that stands for a circle of radius `r` around the origin in column `x`
/// of the octant `0 <= x <= y`: the topmost one whose lower midpoint is inside the circle.
pub open spec fn octant(r: int, x: int, y: int) -> bool {
    &&& 0 <= x <= y
    &&& midpoint_inside(r, x, y) || (x == 0 && y == r)
    &&& !midpoint_inside(r, x, y + 1)
}

/// The circle line of radius `r` around `(cx, cy)`: the eight reflections of its octant. Empty
/// for a negative radius.
pub open spec fn circle(cx: int, cy: int, r: int) -> spec_fn(int, int) -> bool {
    |x: int, y: int|
        r >= 0 && if gap(x, cx) <= gap(y, cy) {
            octant(r, gap(x, cx), gap(y, cy))
        } else {
            octant(r, gap(y, cy), gap(x, cx))
        }
}

/// The part of `circle(cx, cy, r)` whose octant column lies before `end`.
spec fn circle_before(cx: int, cy: int, r: int, end: int) -> spec_fn(int, int) -> bool {
    |x: int, y: int|
        circle(cx, cy, r)(x, y) && (gap(x, cx) < end || gap(y, cy) < end)
}

/// The eight reflections of the octant pixel `(ox, oy)`.
spec fn reflections(cx: int, cy: int, ox: int, oy: int) -> spec_fn(int, int) -> bool {
    |x: int, y: int|
        (gap(x, cx) == ox && gap(y, cy) == oy) || (gap(x, cx) == oy && gap(y, cy) == ox)
}

/// Once a pixel's lower midpoint is outside the circle, so is that of every pixel further out.
proof fn lemma_outside_grows(r: int, x: int, y: int, x2: int, y2: int)
    requires
        !midpoint_inside(r, x, y),
        0 <= x <= x2,
        0 <= y <= y2,
    ensures
        !midpoint_inside(r, x2, y2),
{
    assert(x * x <= x2 * x2) by (nonlinear_arith)
        requires
            0 <= x <= x2,
    ;
    assert(y * y - y <= y2 * y2 - y2) by (nonlinear_arith)
        requires
            0 <= y <= y2,
    ;
}

/// What one step of the midpoint rule does to the lower midpoint and its error term.
proof fn lemma_midpoint_step(r: int, x: int, y: int)
    requires
        octant(r, x, y),
        r >= 0,
    ensures
        x < r || (x == 0 && r == 0),
        x + 2 <= r || r < 5,
        y <= r,
        -2 * r < (x + 1) * (x + 1) + y * y - y - r * r <= 2 * x + 1,
        midpoint_inside(r, x, y) ==> (x + 1) * (x + 1) + y * y - y - r * r <= 2 * x,
        x + 1 < y && !midpoint_inside(r, x + 1, y) ==> midpoint_inside(r, x + 1, y - 1),
{
    let f = x * x + y * y - y - r * r;
    assert((x + 1) * (x + 1) == x * x + 2 * x + 1) by (nonlinear_arith);
    assert((y + 1) * (y + 1) == y * y + 2 * y + 1) by (nonlinear_arith);
    assert((y - 1) * (y - 1) == y * y - 2 * y + 1) by (nonlinear_arith);
    assert(y <= r) by (nonlinear_arith)
        requires
            0 <= x,
            0 <= r,
            x * x + y * y - y < r * r || y == r,
    ;
    if !(x == 0 && r == 0) {
        assert(x < r) by (nonlinear_arith)
            requires
                0 <= x <= y,
                0 <= r,
                x * x + y * y - y < r * r || (x == 0 && y == r),
                !(x == 0 && r == 0),
        ;
    }
    if r >= 5 {
        assert(x + 2 <= r) by (nonlinear_arith)
            requires
                0 <= x <= y,
                5 <= r,
                x * x + y * y - y < r * r || (x == 0 && y == r),
        ;
    }
    if x == 0 && y == r {
        assert(f == -r);
    }
}

/// Colours the eight reflections of `(x, y)` around `(cx, cy)`.
fn set_reflections(buf: &mut Vec<u32>, cx: isize, cy: isize, x: isize, y: isize, color: u32)
    requires
        0 <= x <= y,
        isize::MIN <= cx - y && cx + y <= isize::MAX,
        isize::MIN <= cy - y && cy + y <= isize::MAX,
        fits(old(buf)@.len(), reflections(cx as int, cy as int, x as int, y as int)),
    ensures
        final(buf)@ == paint(
            old(buf)@,
            reflections(cx as int, cy as int, x as int, y as int),
            color,
        ),
{
    let ghost all = reflections(cx as int, cy as int, x as int, y as int);
    let ghost s1 = |px: int, py: int| (px == cx + x && py == cy + y);
    let ghost s2 = |px: int, py: int| s1(px, py) || (px == cx - x && py == cy + y);
    let ghost s3 = |px: int, py: int| s2(px, py) || (px == cx + x && py == cy - y);
    let ghost s4 = |px: int, py: int| s3(px, py) || (px == cx - x && py == cy - y);
    let ghost s5 = |px: int, py: int| s4(px, py) || (px == cx + y && py == cy + x);
    let ghost s6 = |px: int, py: int| s5(px, py) || (px == cx - y && py == cy + x);
    let ghost s7 = |px: int, py: int| s6(px, py) || (px == cx + y && py == cy - x);
    proof {
        assert(all(cx + x, cy + y) && all(cx - x, cy + y) && all(cx + x, cy - y));
        assert(all(cx - x, cy - y) && all(cx + y, cy + x) && all(cx - y, cy + x));
        assert(all(cx + y, cy - x) && all(cx - y, cy - x));
    }
    set_px(buf, cx + x, cy + y, color);
    assert(paint(old(buf)@, point(cx + x, cy + y), color) =~= paint(old(buf)@, s1, color));
    set_px(buf, cx - x, cy + y, color);
    proof {
        lemma_paint_union(old(buf)@, s1, point(cx - x, cy + y), s2, color);
    }
    set_px(buf, cx + x, cy - y, color);
    proof {
        lemma_paint_union(old(buf)@, s2, point(cx + x, cy - y), s3, color);
    }
    set_px(buf, cx - x, cy - y, color);
    proof {
        lemma_paint_union(old(buf)@, s3, point(cx - x, cy - y), s4, color);
    }
    set_px(buf, cx + y, cy + x, color);
    proof {
        lemma_paint_union(old(buf)@, s4, point(cx + y, cy + x), s5, color);
    }
    set_px(buf, cx - y, cy + x, color);
    proof {
        lemma_paint_union(old(buf)@, s5, point(cx - y, cy + x), s6, color);
    }
    set_px(buf, cx + y, cy - x, color);
    proof {
        lemma_paint_union(old(buf)@, s6, point(cx + y, cy - x), s7, color);
    }
    set_px(buf, cx - y, cy - x, color);
    proof {
        lemma_paint_union(old(buf)@, s7, point(cx - y, cy - x), all, color);
    }
}

/// Colours the circle line of radius `r` around `(cx, cy)` by the midpoint rule; does nothing for
/// a negative radius.
pub fn draw_circle(buf: &mut Vec<u32>, cx: isize, cy: isize, r: isize, color: u32)
    requires
        1 - r <= isize::MAX,
        r >= 0 ==> 2 * r <= isize::MAX,
        r >= 0 ==> isize::MIN <= cx - r && cx + r <= isize::MAX,
        r >= 0 ==> isize::MIN <= cy - r && cy + r <= isize::MAX,
        fits(old(buf)@.len(), circle(cx as int, cy as int, r as int)),
    ensures
        final(buf)@ == paint(old(buf)@, circle(cx as int, cy as int, r as int), color),
{
    let ghost shape = circle(cx as int, cy as int, r as int);
    let mut x: isize = 0;
    let mut y: isize = r;
    let mut d: isize = 1 - r;
    proof {
        let none = circle_before(cx as int, cy as int, r as int, 0);
        assert(buf@ =~= paint(buf@, none, color));
        if r >= 0 {
            assert((r + 1) * (r + 1) == r * r + 2 * r + 1) by (nonlinear_arith);
            assert(!midpoint_inside(r as int, 0, r + 1));
        }
    }
    while x <= y
        invariant
            0 <= x,
            y <= r,
            r >= 0 ==> 2 * r <= isize::MAX,
            r >= 0 ==> isize::MIN <= cx - r && cx + r <= isize::MAX,
            r >= 0 ==> isize::MIN <= cy - r && cy + r <= isize::MAX,
            r >= 0 ==> -1 <= y,
            x == 0 ==> y == r,
            r < 0 ==> x == 0 && y == r,
            r >= 0 ==> !midpoint_inside(r as int, x as int, y + 1),
            x <= y ==> octant(r as int, x as int, y as int),
            x <= y ==> d == (x + 1) * (x + 1) + y * y - y - r * r,
            shape == circle(cx as int, cy as int, r as int),
            fits(old(buf)@.len(), shape),
            buf@ == paint(
                old(buf)@,
                circle_before(cx as int, cy as int, r as int, x as int),
                color,
            ),
        decreases y - x + 2,
    {
        let ghost x0 = x as int;
        let ghost y0 = y as int;
        let ghost d0 = d as int;
        let ghost done = circle_before(cx as int, cy as int, r as int, x0);
        let ghost next = circle_before(cx as int, cy as int, r as int, x0 + 1);
        let ghost here = reflections(cx as int, cy as int, x0, y0);
        proof {
            lemma_midpoint_step(r as int, x0, y0);
            assert forall|px: int, py: int| #[trigger] here(px, py) implies shape(px, py) by {}
            assert forall|px: int, py: int|
                in_window(px, py) implies #[trigger] next(px, py) == (done(px, py) || here(px, py)) by {
                let a = gap(px, cx as int);
                let b = gap(py, cy as int);
                let lo = if a <= b { a } else { b };
                let hi = if a <= b { b } else { a };
                if next(px, py) && !done(px, py) {
                    assert(octant(r as int, x0, hi));
                    if hi > y0 {
                        lemma_outside_grows(r as int, x0, y0 + 1, x0, hi);
                    } else if hi < y0 {
                        lemma_outside_grows(r as int, x0, hi + 1, x0, y0);
                    }
                }
            }
        }
        set_reflections(buf, cx, cy, x, y, color);
        proof {
            lemma_paint_union(old(buf)@, done, here, next, color);
            assert((x0 + 2) * (x0 + 2) == x0 * x0 + 4 * x0 + 4) by (nonlinear_arith);
            assert((x0 + 1) * (x0 + 1) == x0 * x0 + 2 * x0 + 1) by (nonlinear_arith);
            assert((y0 - 1) * (y0 - 1) == y0 * y0 - 2 * y0 + 1) by (nonlinear_arith);
            assert((y0 + 1) * (y0 + 1) == y0 * y0 + 2 * y0 + 1) by (nonlinear_arith);
        }
        x += 1;
        if d < 0 {
            d += 2 * x + 1;
        } else {
            y -= 1;
            d += 2 * (x - y) + 1;
        }
    }
    proof {
        let all = circle_before(cx as int, cy as int, r as int, x as int);
        assert forall|px: int, py: int| #[trigger] all(px, py) == shape(px, py) by {
            if shape(px, py) && !all(px, py) {
                let a = gap(px, cx as int);
                let b = gap(py, cy as int);
                let lo = if a <= b { a } else { b };
                let hi = if a <= b { b } else { a };
                assert(octant(r as int, lo, hi));
                lemma_outside_grows(r as int, x as int, y + 1, lo, hi);
            }
        }
        assert(paint(old(buf)@, all, color) =~= paint(old(buf)@, shape, color));
    }
}


/// The seven rows of the glyph of `ch`, top first. In each row the five columns are the five low
/// bits, leftmost column highest. Characters without a glyph have no rows.
pub open spec fn glyph_rows(ch: char) -> Seq<u8> {
    if ch == 'Q' {
        seq![0b01110u8, 0b10001u8, 0b10001u8, 0b10001u8, 0b10101u8, 0b10010u8, 0b01101u8]
    } else if ch == '1' {
        seq![0b00100u8, 0b01100u8, 0b00100u8, 0b00100u8, 0b00100u8, 0b00100u8, 0b01110u8]
    } else if ch == '2' {
        seq![0b01110u8, 0b10001u8, 0b00001u8, 0b00110u8, 0b01000u8, 0b10000u8, 0b11111u8]
    } else if ch == '3' {
        seq![0b11110u8, 0b00001u8, 0b00001u8, 0b01110u8, 0b00001u8, 0b00001u8, 0b11110u8]
    } else if ch == '4' {
        seq![0b00010u8, 0b00110u8, 0b01010u8, 0b10010u8, 0b11111u8, 0b00010u8, 0b00010u8]
    } else {
        seq![]
    }
}

/// The value of the bit that stands for column `rx` of a glyph row.
pub open spec fn column_weight(rx: int) -> int {
    if rx == 0 {
        16
    } else if rx == 1 {
        8
    } else if rx == 2 {
        4
    } else if rx == 3 {
        2
    } else {
        1
    }
}

/// The glyph of `ch` has a cell in column `rx`, row `ry`.
pub open spec fn glyph_cell(ch: char, rx: int, ry: int) -> bool {
    &&& 0 <= rx < 5
    &&& 0 <= ry < glyph_rows(ch).len()
    &&& (glyph_rows(ch)[ry] as int / column_weight(rx)) % 2 == 1
}

/// The glyph of `ch` with its upper left corner at `(gx, gy)`. Cells are one position apart and
/// each covers a square of two by two positions.
pub open spec fn glyph(ch: char, gx: int, gy: int) -> spec_fn(int, int) -> bool {
    |x: int, y: int|
        {
            ||| glyph_cell(ch, x - gx, y - gy)
            ||| glyph_cell(ch, x - gx - 1, y - gy)
            ||| glyph_cell(ch, x - gx, y - gy - 1)
            ||| glyph_cell(ch, x - gx - 1, y - gy - 1)
        }
}

/// Every position of the glyph of `ch` at `(gx, gy)` can be written as a pair of `isize`.
pub open spec fn glyph_reachable(ch: char, gx: int, gy: int) -> bool {
    forall|rx: int, ry: int| #[trigger]
        glyph_cell(ch, rx, ry) ==> gx + rx + 1 <= isize::MAX && gy + ry + 1 <= isize::MAX
}

/// The cells of a glyph before `(rx, ry)` in reading order, as `glyph` draws them.
spec fn glyph_before(ch: char, gx: int, gy: int, rx: int, ry: int) -> spec_fn(int, int) -> bool {
    |x: int, y: int|
        {
            ||| cell_before(ch, x - gx, y - gy, rx, ry)
            ||| cell_before(ch, x - gx - 1, y - gy, rx, ry)
            ||| cell_before(ch, x - gx, y - gy - 1, rx, ry)
            ||| cell_before(ch, x - gx - 1, y - gy - 1, rx, ry)
        }
}

spec fn cell_before(ch: char, cx: int, cy: int, rx: int, ry: int) -> bool {
    glyph_cell(ch, cx, cy) && (cy < ry || (cy == ry && cx < rx))
}

/// The square of two by two positions whose upper left one is `(sx, sy)`.
spec fn square(sx: int, sy: int) -> spec_fn(int, int) -> bool {
    |x: int, y: int| sx <= x <= sx + 1 && sy <= y <= sy + 1
}

/// Colours a square of two by two positions.
fn set_square(buf: &mut Vec<u32>, x: isize, y: isize, color: u32)
    requires
        x < isize::MAX,
        y < isize::MAX,
        fits(old(buf)@.len(), square(x as int, y as int)),
    ensures
        final(buf)@ == paint(old(buf)@, square(x as int, y as int), color),
{
    let ghost all = square(x as int, y as int);
    let ghost s1 = |px: int, py: int| px == x && py == y;
    let ghost s2 = |px: int, py: int| s1(px, py) || (px == x + 1 && py == y);
    let ghost s3 = |px: int, py: int| s2(px, py) || (px == x && py == y + 1);
    proof {
        assert(all(x as int, y as int) && all(x + 1, y as int));
        assert(all(x as int, y + 1) && all(x + 1, y + 1));
    }
    set_px(buf, x, y, color);
    assert(paint(old(buf)@, point(x as int, y as int), color) =~= paint(old(buf)@, s1, color));
    set_px(buf, x + 1, y, color);
    proof {
        lemma_paint_union(old(buf)@, s1, point(x + 1, y as int), s2, color);
    }
    set_px(buf, x, y + 1, color);
    proof {
        lemma_paint_union(old(buf)@, s2, point(x as int, y + 1), s3, color);
    }
    set_px(buf, x + 1, y + 1, color);
    proof {
        lemma_paint_union(old(buf)@, s3, point(x + 1, y + 1), all, color);
    }
}

/// Colours the glyph of `ch` with its upper left corner at `(x, y)`; does nothing for a character
/// without a glyph.
pub fn draw_glyph(buf: &mut Vec<u32>, x: isize, y: isize, ch: char, color: u32)
    requires
        glyph_reachable(ch, x as int, y as int),
        fits(old(buf)@.len(), glyph(ch, x as int, y as int)),
    ensures
        final(buf)@ == paint(old(buf)@, glyph(ch, x as int, y as int), color),
{
    let ghost shape = glyph(ch, x as int, y as int);
    let rows: [u8; 7] = match ch {
        'Q' => [0b01110, 0b10001, 0b10001, 0b10001, 0b10101, 0b10010, 0b01101],
        '1' => [0b00100, 0b01100, 0b00100, 0b00100, 0b00100, 0b00100, 0b01110],
        '2' => [0b01110, 0b10001, 0b00001, 0b00110, 0b01000, 0b10000, 0b11111],
        '3' => [0b11110, 0b00001, 0b00001, 0b01110, 0b00001, 0b00001, 0b11110],
        '4' => [0b00010, 0b00110, 0b01010, 0b10010, 0b11111, 0b00010, 0b00010],
        _ => {
            assert(buf@ =~= paint(buf@, shape, color));
            return;
        },
    };
    assert(rows@ =~= glyph_rows(ch));
    assert(buf@ =~= paint(buf@, glyph_before(ch, x as int, y as int, 0, 0), color));
    let mut ry: usize = 0;
    while ry < 7
        invariant
            ry <= 7,
            rows@ == glyph_rows(ch),
            shape == glyph(ch, x as int, y as int),
            glyph_reachable(ch, x as int, y as int),
            fits(old(buf)@.len(), shape),
            buf@ == paint(
                old(buf)@,
                glyph_before(ch, x as int, y as int, 0, ry as int),
                color,
            ),
        decreases 7 - ry,
    {
        let row: u8 = rows[ry];
        let mut rx: u8 = 0;
        while rx < 5
            invariant
                ry < 7,
                rx <= 5,
                rows@ == glyph_rows(ch),
                row == rows@[ry as int],
                shape == glyph(ch, x as int, y as int),
                glyph_reachable(ch, x as int, y as int),
                fits(old(buf)@.len(), shape),
                buf@ == paint(
                    old(buf)@,
                    glyph_before(ch, x as int, y as int, rx as int, ry as int),
                    color,
                ),
            decreases 5 - rx,
        {
            let shift: u8 = 4 - rx;
            let ghost done = glyph_before(ch, x as int, y as int, rx as int, ry as int);
            let ghost next = glyph_before(ch, x as int, y as int, rx + 1, ry as int);
            proof {
                assert(((row & (1u8 << shift)) != 0) == ((row / (1u8 << shift)) % 2 == 1)
                    && (shift == 0 ==> (1u8 << shift) == 1) && (shift == 1 ==> (1u8 << shift) == 2)
                    && (shift == 2 ==> (1u8 << shift) == 4) && (shift == 3 ==> (1u8 << shift) == 8)
                    && (shift == 4 ==> (1u8 << shift) == 16)) by (bit_vector)
                    requires
                        shift < 5,
                ;
                assert(((row & (1u8 << shift)) != 0) == glyph_cell(ch, rx as int, ry as int));
            }
            if row & (1u8 << shift) != 0 {
                let px: isize = x + rx as isize;
                let py: isize = y + ry as isize;
                let ghost here = square(px as int, py as int);
                assert forall|a: int, b: int| #[trigger] here(a, b) implies shape(a, b) by {}
                set_square(buf, px, py, color);
                proof {
                    lemma_paint_union(old(buf)@, done, here, next, color);
                }
            } else {
                assert(paint(old(buf)@, done, color) =~= paint(old(buf)@, next, color));
            }
            rx += 1;
        }
        assert(paint(
            old(buf)@,
            glyph_before(ch, x as int, y as int, 5, ry as int),
            color,
        ) =~= paint(old(buf)@, glyph_before(ch, x as int, y as int, 0, ry + 1), color));
        ry += 1;
    }
    assert(paint(old(buf)@, glyph_before(ch, x as int, y as int, 0, 7), color) =~= paint(
        old(buf)@,
        shape,
        color,
    ));
}

/// How far apart the glyphs of a label stand.
pub const GLYPH_STEP: isize = 8;

/// The glyphs of `text`, the first one with its upper left corner at `(lx, ly)`, each further one
/// `GLYPH_STEP` to the right.
pub open spec fn label(text: Seq<char>, lx: int, ly: int) -> spec_fn(int, int) -> bool {
    |x: int, y: int|
        exists|k: int|
            0 <= k < text.len() && #[trigger] glyph(text[k], lx + GLYPH_STEP * k, ly)(x, y)
}

/// Colours the glyphs of `s` from left to right, the first one with its upper left corner at
/// `(x, y)`. Characters without a glyph leave a blank of the same width.
pub fn draw_label(buf: &mut Vec<u32>, x: isize, y: isize, s: &str, color: u32)
    requires
        x + GLYPH_STEP * s@.len() <= isize::MAX,
        forall|k: int|
            0 <= k < s@.len() ==> glyph_reachable(#[trigger] s@[k], x + GLYPH_STEP * k, y as int),
        fits(old(buf)@.len(), label(s@, x as int, y as int)),
    ensures
        final(buf)@ == paint(old(buf)@, label(s@, x as int, y as int), color),
{
    let ghost shape = label(s@, x as int, y as int);
    let n: usize = s.unicode_len();
    let mut cx: isize = x;
    let mut i: usize = 0;
    assert(buf@ =~= paint(buf@, label(s@.take(0), x as int, y as int), color));
    while i < n
        invariant
            n == s@.len(),
            i <= n,
            cx == x + GLYPH_STEP * i,
            x + GLYPH_STEP * s@.len() <= isize::MAX,
            forall|k: int|
                0 <= k < s@.len() ==> glyph_reachable(
                    #[trigger] s@[k],
                    x + GLYPH_STEP * k,
                    y as int,
                ),
            shape == label(s@, x as int, y as int),
            fits(old(buf)@.len(), shape),
            buf@ == paint(old(buf)@, label(s@.take(i as int), x as int, y as int), color),
        decreases n - i,
    {
        let ch: char = s.get_char(i);
        let ghost done = label(s@.take(i as int), x as int, y as int);
        let ghost next = label(s@.take(i + 1), x as int, y as int);
        let ghost here = glyph(ch, cx as int, y as int);
        proof {
            assert(s@[i as int] == ch);
            assert forall|a: int, b: int| #[trigger] here(a, b) implies shape(a, b) by {
                assert(glyph(s@[i as int], x + GLYPH_STEP * i, y as int)(a, b));
            }
        }
        draw_glyph(buf, cx, y, ch, color);
        proof {
            assert forall|a: int, b: int| in_window(a, b) implies #[trigger] next(a, b) == (done(
                a,
                b,
            ) || here(a, b)) by {
                let before = s@.take(i as int);
                let after = s@.take(i + 1);
                if done(a, b) {
                    let k = choose|k: int|
                        0 <= k < before.len() && #[trigger] glyph(
                            before[k],
                            x + GLYPH_STEP * k,
                            y as int,
                        )(a, b);
                    assert(glyph(after[k], x + GLYPH_STEP * k, y as int)(a, b));
                }
                if here(a, b) {
                    assert(glyph(after[i as int], x + GLYPH_STEP * i, y as int)(a, b));
                }
                if next(a, b) {
                    let k = choose|k: int|
                        0 <= k < after.len() && #[trigger] glyph(
                            after[k],
                            x + GLYPH_STEP * k,
                            y as int,
                        )(a, b);
                    if k < i {
                        assert(glyph(before[k], x + GLYPH_STEP * k, y as int)(a, b));
                    }
                }
            }
            lemma_paint_union(old(buf)@, done, here, next, color);
        }
        cx += GLYPH_STEP;
        i += 1;
    }
    assert(s@.take(n as int) =~= s@);
}


/// `(dx, dy)`, seen from the middle of a smile, is on the line of its mouth.
///
/// The line is an arc of radius five below the middle: nine points 0.22 radians apart, the fifth
/// one straight down, each rounded to the nearest position.
pub open spec fn mouth_line(dx: int, dy: int) -> bool {
    ||| dy == 5 && gap(dx, 0) <= 2
    ||| dy == 4 && gap(dx, 0) == 3
    ||| dy == 3 && gap(dx, 0) == 4
}

/// The mouth of a smile around `(cx, cy)`: its line, two positions wide.
pub open spec fn mouth(cx: int, cy: int) -> spec_fn(int, int) -> bool {
    |x: int, y: int| mouth_line(x - cx, y - cy) || mouth_line(x - cx - 1, y - cy)
}

/// A smiling face around `(cx, cy)`: its outline, two eyes and a mouth.
pub open spec fn smile(cx: int, cy: int) -> spec_fn(int, int) -> bool {
    |x: int, y: int|
        {
            ||| circle(cx, cy, 10)(x, y)
            ||| disc(cx - 4, cy - 3, 1)(x, y)
            ||| disc(cx + 4, cy - 3, 1)(x, y)
            ||| mouth(cx, cy)(x, y)
        }
}

/// The part of a mouth whose line lies right of `cx + end`.
spec fn mouth_after(cx: int, cy: int, end: int) -> spec_fn(int, int) -> bool {
    |x: int, y: int|
        {
            ||| mouth_line(x - cx, y - cy) && x - cx > end
            ||| mouth_line(x - cx - 1, y - cy) && x - cx - 1 > end
        }
}

/// Colours the mouth of a smile around `(cx, cy)`.
fn draw_mouth(buf: &mut Vec<u32>, cx: isize, cy: isize, color: u32)
    requires
        isize::MIN <= cx - 10 && cx + 10 <= isize::MAX,
        isize::MIN <= cy - 10 && cy + 10 <= isize::MAX,
        fits(old(buf)@.len(), mouth(cx as int, cy as int)),
    ensures
        final(buf)@ == paint(old(buf)@, mouth(cx as int, cy as int), color),
{
    let ghost shape = mouth(cx as int, cy as int);
    let mut i: isize = -4;
    assert(buf@ =~= paint(buf@, mouth_after(cx as int, cy as int, 4), color));
    while i <= 4
        invariant
            -4 <= i <= 5,
            isize::MIN <= cx - 10,
            cx + 10 <= isize::MAX,
            isize::MIN <= cy - 10,
            cy + 10 <= isize::MAX,
            shape == mouth(cx as int, cy as int),
            fits(old(buf)@.len(), shape),
            buf@ == paint(old(buf)@, mouth_after(cx as int, cy as int, -i), color),
        decreases 5 - i,
    {
        let drop: isize = if i == -4 || i == 4 {
            3
        } else if i == -3 || i == 3 {
            4
        } else {
            5
        };
        let x: isize = cx - i;
        let y: isize = cy + drop;
        let ghost done = mouth_after(cx as int, cy as int, -i);
        let ghost next = mouth_after(cx as int, cy as int, -i - 1);
        let ghost half = |a: int, b: int| done(a, b) || (a == x && b == y);
        assert(shape(x as int, y as int) && shape(x + 1, y as int));
        set_px(buf, x, y, color);
        proof {
            lemma_paint_union(old(buf)@, done, point(x as int, y as int), half, color);
        }
        set_px(buf, x + 1, y, color);
        proof {
            lemma_paint_union(old(buf)@, half, point(x + 1, y as int), next, color);
        }
        i += 1;
    }
    assert(paint(old(buf)@, mouth_after(cx as int, cy as int, -5), color) =~= paint(
        old(buf)@,
        shape,
        color,
    ));
}

/// Colours a smiling face around `(cx, cy)`.
pub fn draw_smile(buf: &mut Vec<u32>, cx: isize, cy: isize, color: u32)
    requires
        isize::MIN <= cx - 10 && cx + 10 <= isize::MAX,
        isize::MIN <= cy - 10 && cy + 10 <= isize::MAX,
        fits(old(buf)@.len(), smile(cx as int, cy as int)),
    ensures
        final(buf)@ == paint(old(buf)@, smile(cx as int, cy as int), color),
{
    let ghost shape = smile(cx as int, cy as int);
    let ghost outline = circle(cx as int, cy as int, 10);
    let ghost left = disc(cx - 4, cy - 3, 1);
    let ghost right = disc(cx + 4, cy - 3, 1);
    let ghost lips = mouth(cx as int, cy as int);
    let ghost one = |a: int, b: int| outline(a, b) || left(a, b);
    let ghost two = |a: int, b: int| one(a, b) || right(a, b);
    proof {
        assert forall|a: int, b: int| #[trigger] outline(a, b) implies shape(a, b) by {}
        assert forall|a: int, b: int| #[trigger] left(a, b) implies shape(a, b) by {}
        assert forall|a: int, b: int| #[trigger] right(a, b) implies shape(a, b) by {}
        assert forall|a: int, b: int| #[trigger] lips(a, b) implies shape(a, b) by {}
    }
    draw_circle(buf, cx, cy, 10, color);
    fill_dot(buf, cx - 4, cy - 3, 1, color);
    proof {
        lemma_paint_union(old(buf)@, outline, left, one, color);
    }
    fill_dot(buf, cx + 4, cy - 3, 1, color);
    proof {
        lemma_paint_union(old(buf)@, one, right, two, color);
    }
    draw_mouth(buf, cx, cy, color);
    proof {
        lemma_paint_union(old(buf)@, two, lips, shape, color);
    }
}

/// The position `offset` away from `(cx, cy)` and the eight around it.
pub open spec fn bead(cx: int, cy: int, offset: Pixel) -> spec_fn(int, int) -> bool {
    |x: int, y: int| gap(x, cx + offset.x) <= 1 && gap(y, cy + offset.y) <= 1
}

/// The beads at the first `end` of `offsets` from `(cx, cy)`.
pub open spec fn progress_arc(
    cx: int,
    cy: int,
    offsets: Seq<Pixel>,
    end: int,
) -> spec_fn(int, int) -> bool {
    |x: int, y: int| exists|i: int| 0 <= i < end && #[trigger] bead(cx, cy, offsets[i])(x, y)
}

/// `c + d` and the positions next to it can be written as `isize`.
pub open spec fn bead_reachable(c: int, d: int) -> bool {
    isize::MIN < c + d < isize::MAX
}

/// The part of a bead around `(px, py)` that lies before `(ex, ey)`, column by column.
spec fn bead_before(px: int, py: int, ex: int, ey: int) -> spec_fn(int, int) -> bool {
    |x: int, y: int|
        gap(x, px) <= 1 && gap(y, py) <= 1 && (x < px + ex || (x == px + ex && y < py + ey))
}

/// Colours the bead around `(px, py)`.
fn draw_bead(buf: &mut Vec<u32>, px: isize, py: isize, color: u32)
    requires
        isize::MIN < px < isize::MAX,
        isize::MIN < py < isize::MAX,
        fits(old(buf)@.len(), bead(px as int, py as int, Pixel { x: 0, y: 0 })),
    ensures
        final(buf)@ == paint(old(buf)@, bead(px as int, py as int, Pixel { x: 0, y: 0 }), color),
{
    let ghost shape = bead(px as int, py as int, Pixel { x: 0, y: 0 });
    let mut dx: isize = -1;
    assert(buf@ =~= paint(buf@, bead_before(px as int, py as int, -1, -1), color));
    while dx <= 1
        invariant
            -1 <= dx <= 2,
            isize::MIN < px < isize::MAX,
            isize::MIN < py < isize::MAX,
            shape == bead(px as int, py as int, Pixel { x: 0, y: 0 }),
            fits(old(buf)@.len(), shape),
            buf@ == paint(old(buf)@, bead_before(px as int, py as int, dx as int, -1), color),
        decreases 2 - dx,
    {
        let mut dy: isize = -1;
        while dy <= 1
            invariant
                -1 <= dx <= 1,
                -1 <= dy <= 2,
                isize::MIN < px < isize::MAX,
                isize::MIN < py < isize::MAX,
                shape == bead(px as int, py as int, Pixel { x: 0, y: 0 }),
                fits(old(buf)@.len(), shape),
                buf@ == paint(
                    old(buf)@,
                    bead_before(px as int, py as int, dx as int, dy as int),
                    color,
                ),
            decreases 2 - dy,
        {
            assert(shape(px + dx, py + dy));
            set_px(buf, px + dx, py + dy, color);
            proof {
                lemma_paint_union(
                    old(buf)@,
                    bead_before(px as int, py as int, dx as int, dy as int),
                    point(px + dx, py + dy),
                    bead_before(px as int, py as int, dx as int, dy + 1),
                    color,
                );
            }
            dy += 1;
        }
        assert(paint(old(buf)@, bead_before(px as int, py as int, dx as int, 2), color) =~= paint(
            old(buf)@,
            bead_before(px as int, py as int, dx + 1, -1),
            color,
        ));
        dx += 1;
    }
    assert(paint(old(buf)@, bead_before(px as int, py as int, 2, -1), color) =~= paint(
        old(buf)@,
        shape,
        color,
    ));
}

/// Colours a bead of three by three positions at each of the first `end` of `offsets` from
/// `(cx, cy)`.
pub fn draw_progress_arc(
    buf: &mut Vec<u32>,
    cx: isize,
    cy: isize,
    offsets: &Vec<Pixel>,
    end: i32,
    color: u32,
)
    requires
        end <= offsets@.len(),
        forall|i: int|
            0 <= i < end ==> bead_reachable(cx as int, (#[trigger] offsets@[i]).x as int)
                && bead_reachable(cy as int, offsets@[i].y as int),
        fits(old(buf)@.len(), progress_arc(cx as int, cy as int, offsets@, end as int)),
    ensures
        final(buf)@ == paint(
            old(buf)@,
            progress_arc(cx as int, cy as int, offsets@, end as int),
            color,
        ),
{
    let ghost shape = progress_arc(cx as int, cy as int, offsets@, end as int);
    let mut i: i32 = 0;
    assert(buf@ =~= paint(buf@, progress_arc(cx as int, cy as int, offsets@, 0), color));
    while i < end
        invariant
            0 <= i,
            end >= 0 ==> i <= end,
            end < 0 ==> i == 0,
            end <= offsets@.len(),
            forall|k: int|
                0 <= k < end ==> bead_reachable(cx as int, (#[trigger] offsets@[k]).x as int)
                    && bead_reachable(cy as int, offsets@[k].y as int),
            shape == progress_arc(cx as int, cy as int, offsets@, end as int),
            fits(old(buf)@.len(), shape),
            buf@ == paint(
                old(buf)@,
                progress_arc(cx as int, cy as int, offsets@, i as int),
                color,
            ),
        decreases end - i,
    {
        let offset: Pixel = offsets[i as usize];
        let px: isize = cx + offset.x;
        let py: isize = cy + offset.y;
        let ghost done = progress_arc(cx as int, cy as int, offsets@, i as int);
        let ghost next = progress_arc(cx as int, cy as int, offsets@, i + 1);
        let ghost here = bead(px as int, py as int, Pixel { x: 0, y: 0 });
        proof {
            assert forall|a: int, b: int| #[trigger] here(a, b) implies shape(a, b) by {
                assert(bead(cx as int, cy as int, offsets@[i as int])(a, b));
            }
        }
        draw_bead(buf, px, py, color);
        proof {
            assert forall|a: int, b: int| in_window(a, b) implies #[trigger] next(a, b) == (done(
                a,
                b,
            ) || here(a, b)) by {
                assert(bead(cx as int, cy as int, offsets@[i as int])(a, b) == here(a, b));
            }
            lemma_paint_union(old(buf)@, done, here, next, color);
        }
        i += 1;
    }
    assert(paint(
        old(buf)@,
        progress_arc(cx as int, cy as int, offsets@, i as int),
        color,
    ) =~= paint(old(buf)@, shape, color)) by {
        let got = progress_arc(cx as int, cy as int, offsets@, i as int);
        assert forall|a: int, b: int| #[trigger] got(a, b) == shape(a, b) by {}
    }
}

/// The colour with the given amounts of red and blue and no green.
pub fn blue_red_gradient(red: u8, blue: u8) -> (color: u32)
    ensures
        color == red * 0x1_0000 + blue,
{
    let r: u32 = red as u32;
    let b: u32 = blue as u32;
    assert((r << 16) | b == r * 0x1_0000 + b) by (bit_vector)
        requires
            r <= 0xff,
            b <= 0xff,
    ;
    (r << 16) | b
}

/// The pixel in column `x`, row `y` of a window.
pub open spec fn pixel_at(buf: Seq<u32>, x: int, y: int) -> u32 {
    buf[y * WIDTH + x]
}

/// Painting changes exactly the positions of the shape, and those to the colour.
pub proof fn lemma_painted_pixel(
    buf: Seq<u32>,
    shape: spec_fn(int, int) -> bool,
    color: u32,
    x: int,
    y: int,
)
    requires
        in_window(x, y),
        y * WIDTH + x < buf.len(),
    ensures
        paint(buf, shape, color).len() == buf.len(),
        pixel_at(paint(buf, shape, color), x, y) == if shape(x, y) {
            color
        } else {
            pixel_at(buf, x, y)
        },
{
    let i = y * WIDTH + x;
    assert(i % (WIDTH as int) == x && i / (WIDTH as int) == y);
}

/// Painting a shape again, in another colour, leaves nothing of the first colour behind.
pub proof fn lemma_repaint(
    buf: Seq<u32>,
    shape: spec_fn(int, int) -> bool,
    first: u32,
    second: u32,
)
    ensures
        paint(paint(buf, shape, first), shape, second) == paint(buf, shape, second),
{
    assert(paint(paint(buf, shape, first), shape, second) =~= paint(buf, shape, second));
}

/// A circle is the same seen from either side, from above and below, and along the diagonals.
pub proof fn lemma_circle_symmetric(cx: int, cy: int, r: int, dx: int, dy: int)
    ensures
        circle(cx, cy, r)(cx + dx, cy + dy) == circle(cx, cy, r)(cx - dx, cy + dy),
        circle(cx, cy, r)(cx + dx, cy + dy) == circle(cx, cy, r)(cx + dx, cy - dy),
        circle(cx, cy, r)(cx + dx, cy + dy) == circle(cx, cy, r)(cx + dy, cy + dx),
{
}

/// Every position of a circle is as far from the centre as the radius, up to rounding: the squares
/// of the two differ by no more than the radius.
pub proof fn lemma_circle_keeps_distance(cx: int, cy: int, r: int, x: int, y: int)
    requires
        circle(cx, cy, r)(x, y),
    ensures
        gap((x - cx) * (x - cx) + (y - cy) * (y - cy), r * r) <= r,
{
    let a = gap(x, cx);
    let b = gap(y, cy);
    let lo = if a <= b { a } else { b };
    let hi = if a <= b { b } else { a };
    lemma_midpoint_step(r, lo, hi);
    assert((x - cx) * (x - cx) == a * a) by (nonlinear_arith)
        requires
            a == x - cx || a == cx - x,
    ;
    assert((y - cy) * (y - cy) == b * b) by (nonlinear_arith)
        requires
            b == y - cy || b == cy - y,
    ;
    assert((hi + 1) * (hi + 1) == hi * hi + 2 * hi + 1) by (nonlinear_arith);
    if lo == 0 && hi == r {
        assert(lo * lo + hi * hi == r * r);
    }
}

/// A circle touches the ends of its level and its upright diameter.
pub proof fn lemma_circle_has_poles(cx: int, cy: int, r: int)
    requires
        r >= 0,
    ensures
        circle(cx, cy, r)(cx + r, cy),
        circle(cx, cy, r)(cx - r, cy),
        circle(cx, cy, r)(cx, cy + r),
        circle(cx, cy, r)(cx, cy - r),
{
    assert((r + 1) * (r + 1) == r * r + 2 * r + 1) by (nonlinear_arith);
    assert(octant(r, 0, r));
}

/// Painting in a window of 800 by 800: the position in column `x`, row `y` has the colour if the
/// shape covers it, and is as it was if not. What lies behind the window in the buffer stays too.
pub proof fn lemma_painting_covers_the_shape(
    buf: Seq<u32>,
    shape: spec_fn(int, int) -> bool,
    color: u32,
    x: int,
    y: int,
    beyond: int,
)
    requires
        0 <= x < 800,
        0 <= y < 800,
        y * 800 + x < buf.len(),
    ensures
        paint(buf, shape, color).len() == buf.len(),
        shape(x, y) ==> paint(buf, shape, color)[y * 800 + x] == color,
        !shape(x, y) ==> paint(buf, shape, color)[y * 800 + x] == buf[y * 800 + x],
        640_000 <= beyond < buf.len() ==> paint(buf, shape, color)[beyond] == buf[beyond],
{
    lemma_painted_pixel(buf, shape, color, x, y);
}

/// A single position covers itself, a row everything in it, and a column everything in it.
pub proof fn lemma_lines_cover_themselves(a: int, b: int, x: int, y: int)
    ensures
        point(a, b)(x, y) <==> x - a == 0 && y - b == 0,
        row(b)(x, y) <==> y - b == 0,
        column(a)(x, y) <==> x - a == 0,
{
}

/// A disc covers what is no further from its middle than its radius, in every direction.
pub proof fn lemma_disc_is_round(cx: int, cy: int, r: int, dx: int, dy: int)
    ensures
        r >= 0 ==> (disc(cx, cy, r)(cx + dx, cy + dy) <==> dx * dx + dy * dy <= r * r),
        r < 0 ==> !disc(cx, cy, r)(cx + dx, cy + dy),
{
}

/// A circle is as round as pixels allow. Where it runs more level than upright, it covers in each
/// column the row nearest to the true line: `dy * (dy - 1) < r^2 - dx^2 <= dy * (dy + 1)` says that
/// the line passes within half a row of `dy`. The rest is its mirror image.
pub proof fn lemma_circle_is_nearest_to_the_line(cx: int, cy: int, r: int, dx: int, dy: int)
    requires
        0 <= dx <= dy,
    ensures
        r > 0 ==> (circle(cx, cy, r)(cx + dx, cy + dy) <==> dy * (dy - 1) < r * r - dx * dx <= dy
            * (dy + 1)),
        r == 0 ==> (circle(cx, cy, r)(cx + dx, cy + dy) <==> dx == 0 && dy == 0),
        r < 0 ==> !circle(cx, cy, r)(cx + dx, cy + dy),
        circle(cx, cy, r)(cx + dx, cy + dy) == circle(cx, cy, r)(cx - dx, cy + dy),
        circle(cx, cy, r)(cx + dx, cy + dy) == circle(cx, cy, r)(cx + dx, cy - dy),
        circle(cx, cy, r)(cx + dx, cy + dy) == circle(cx, cy, r)(cx - dx, cy - dy),
        circle(cx, cy, r)(cx + dx, cy + dy) == circle(cx, cy, r)(cx + dy, cy + dx),
        circle(cx, cy, r)(cx + dx, cy + dy) == circle(cx, cy, r)(cx - dy, cy + dx),
        circle(cx, cy, r)(cx + dx, cy + dy) == circle(cx, cy, r)(cx + dy, cy - dx),
        circle(cx, cy, r)(cx + dx, cy + dy) == circle(cx, cy, r)(cx - dy, cy - dx),
{
    assert(dy * (dy - 1) == dy * dy - dy) by (nonlinear_arith);
    assert(dy * (dy + 1) == dy * dy + dy) by (nonlinear_arith);
    assert((dy + 1) * (dy + 1) == dy * dy + 2 * dy + 1) by (nonlinear_arith);
    assert(r > 0 ==> r * r - r < r * r);
    assert(dx == 0 ==> dx * dx == 0);
    assert(0 <= dx * dx && 0 <= dy * dy) by (nonlinear_arith);
    if r == 0 && dy > 0 {
        assert(dy * dy >= dy) by (nonlinear_arith)
            requires
                dy > 0,
        ;
    }
    assert(circle(cx, cy, r)(cx + dx, cy + dy) == (r >= 0 && octant(r, dx, dy)));
}

/// What the glyphs look like, stroke by stroke, in cells five wide and seven high.
pub proof fn lemma_glyphs_are_legible(x: int, y: int)
    requires
        0 <= x < 5,
        0 <= y < 7,
    ensures
        // A ring open at the lower right, and a tail through the gap.
        glyph_cell('Q', x, y) <==> {
            ||| y == 0 && 1 <= x <= 3
            ||| x == 0 && 1 <= y <= 5
            ||| x == 4 && 1 <= y <= 4
            ||| (x == 2 && y == 4) || (x == 3 && y == 5) || (x == 4 && y == 6)
            ||| y == 6 && 1 <= x <= 2
        },
        // A stem with a flag and a foot.
        glyph_cell('1', x, y) <==> x == 2 || (x == 1 && y == 1) || (y == 6 && 1 <= x <= 3),
        // A bow, a slant and a foot.
        glyph_cell('2', x, y) <==> {
            ||| y == 0 && 1 <= x <= 3
            ||| x == 0 && y == 1
            ||| x == 4 && 1 <= y <= 2
            ||| y == 3 && 2 <= x <= 3
            ||| (x == 1 && y == 4) || (x == 0 && y == 5)
            ||| y == 6
        },
        // Two bows.
        glyph_cell('3', x, y) <==> {
            ||| (y == 0 || y == 6) && x <= 3
            ||| y == 3 && 1 <= x <= 3
            ||| x == 4 && (y == 1 || y == 2 || y == 4 || y == 5)
        },
        // A stem, a slant and a bar.
        glyph_cell('4', x, y) <==> x == 3 || (x + y == 3 && y >= 1) || y == 4,
{
    assert(column_weight(x) == 16 || column_weight(x) == 8 || column_weight(x) == 4
        || column_weight(x) == 2 || column_weight(x) == 1);
    assert(y == 0 || y == 1 || y == 2 || y == 3 || y == 4 || y == 5 || y == 6);
    assert(x == 0 || x == 1 || x == 2 || x == 3 || x == 4);
}

/// Other characters have no glyph, and no glyph has a cell anywhere else.
pub proof fn lemma_glyphs_end(ch: char, x: int, y: int)
    ensures
        ch != 'Q' && ch != '1' && ch != '2' && ch != '3' && ch != '4' ==> !glyph_cell(ch, x, y),
        x < 0 || x >= 5 || y < 0 || y >= 7 ==> !glyph_cell(ch, x, y),
{
}

/// A glyph covers, for each of its cells, the four positions that begin there.
pub proof fn lemma_glyph_covers_its_cells(ch: char, gx: int, gy: int, x: int, y: int)
    ensures
        glyph(ch, gx, gy)(x, y) <==> exists|cx: int, cy: int| #[trigger]
            glyph_cell(ch, cx, cy) && 0 <= x - (gx + cx) <= 1 && 0 <= y - (gy + cy) <= 1,
{
    if glyph(ch, gx, gy)(x, y) {
        if glyph_cell(ch, x - gx, y - gy) {
        } else if glyph_cell(ch, x - gx - 1, y - gy) {
        } else if glyph_cell(ch, x - gx, y - gy - 1) {
        } else {
            assert(glyph_cell(ch, x - gx - 1, y - gy - 1));
        }
    }
    if exists|cx: int, cy: int| #[trigger]
        glyph_cell(ch, cx, cy) && 0 <= x - (gx + cx) <= 1 && 0 <= y - (gy + cy) <= 1 {
        let (cx, cy) = choose|cx: int, cy: int| #[trigger]
            glyph_cell(ch, cx, cy) && 0 <= x - (gx + cx) <= 1 && 0 <= y - (gy + cy) <= 1;
        assert(cx == x - gx || cx == x - gx - 1);
        assert(cy == y - gy || cy == y - gy - 1);
    }
}

/// A label is its glyphs side by side, eight columns from one to the next. So a longer one covers
/// what the shorter one does, and its last glyph.
pub proof fn lemma_label_grows(text: Seq<char>, ch: char, lx: int, ly: int, x: int, y: int)
    ensures
        text.len() == 0 ==> !label(text, lx, ly)(x, y),
        label(text.push(ch), lx, ly)(x, y) <==> label(text, lx, ly)(x, y) || glyph(
            ch,
            lx + 8 * text.len(),
            ly,
        )(x, y),
{
    let longer = text.push(ch);
    let n = text.len() as int;
    if label(text, lx, ly)(x, y) {
        let k = choose|k: int|
            0 <= k < text.len() && #[trigger] glyph(text[k], lx + GLYPH_STEP * k, ly)(x, y);
        assert(glyph(longer[k], lx + GLYPH_STEP * k, ly)(x, y));
    }
    if glyph(ch, lx + 8 * n, ly)(x, y) {
        assert(glyph(longer[n], lx + GLYPH_STEP * n, ly)(x, y));
    }
    if label(longer, lx, ly)(x, y) {
        let k = choose|k: int|
            0 <= k < longer.len() && #[trigger] glyph(longer[k], lx + GLYPH_STEP * k, ly)(x, y);
        if k < n {
            assert(glyph(text[k], lx + GLYPH_STEP * k, ly)(x, y));
        }
    }
}

/// A smile has an outline of radius ten, two eyes four to the side and three up, and a mouth that
/// is lowest, five down, in the middle and comes up by one and then two towards its corners. Each
/// position of the mouth has one to its right. There is nothing else to it.
pub proof fn lemma_smile_has_a_face(cx: int, cy: int, dx: int, dy: int)
    ensures
        smile(cx, cy)(cx + dx, cy + dy) <==> {
            ||| circle(cx, cy, 10)(cx + dx, cy + dy)
            ||| (dx + 4) * (dx + 4) + (dy + 3) * (dy + 3) <= 1
            ||| (dx - 4) * (dx - 4) + (dy + 3) * (dy + 3) <= 1
            ||| dy == 5 && -2 <= dx <= 3
            ||| dy == 4 && (dx == -3 || dx == -2 || dx == 3 || dx == 4)
            ||| dy == 3 && (dx == -4 || dx == -3 || dx == 4 || dx == 5)
        },
{
}

/// A progress arc covers three by three positions around each of its first steps. So one step more
/// adds exactly those.
pub proof fn lemma_progress_grows(
    cx: int,
    cy: int,
    offsets: Seq<Pixel>,
    end: int,
    x: int,
    y: int,
)
    requires
        end < offsets.len(),
    ensures
        end <= 0 ==> !progress_arc(cx, cy, offsets, end)(x, y),
        0 <= end ==> (progress_arc(cx, cy, offsets, end + 1)(x, y) <==> progress_arc(
            cx,
            cy,
            offsets,
            end,
        )(x, y) || (-1 <= x - (cx + offsets[end].x) <= 1 && -1 <= y - (cy + offsets[end].y) <= 1)),
{
    if progress_arc(cx, cy, offsets, end + 1)(x, y) {
        let i = choose|i: int| 0 <= i < end + 1 && #[trigger] bead(cx, cy, offsets[i])(x, y);
        if i < end {
            assert(bead(cx, cy, offsets[i])(x, y));
        }
    }
    if progress_arc(cx, cy, offsets, end)(x, y) {
        let i = choose|i: int| 0 <= i < end && #[trigger] bead(cx, cy, offsets[i])(x, y);
        assert(bead(cx, cy, offsets[i])(x, y));
    }
    if 0 <= end && -1 <= x - (cx + offsets[end].x) <= 1 && -1 <= y - (cy + offsets[end].y) <= 1 {
        assert(bead(cx, cy, offsets[end])(x, y));
    }
}

} // verus!
