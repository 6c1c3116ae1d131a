//! One frame of the live view, from a scan and where its parts come to stand in the window.

use crate::calibration::{Phase, PhaseView, ScanPoint};
use crate::canvas::{
    bead, bead_reachable, blue_red_gradient, circle, column, disc, draw_circle, draw_hline,
    draw_label, draw_progress_arc, draw_smile, draw_vline, fill_dot, in_window, label,
    lemma_paint_union, lemma_painted_pixel, lemma_window_fits, paint, pixel_at, progress_arc, row,
    smile, Pixel, HEIGHT, WIDTH,
};
use crate::tracker::Cluster;
use vstd::prelude::*;

verus! {

pub const BG_COLOR: u32 = 0x00_ff_ff_ff;

pub const GRID: u32 = 0x00_d0_d0_d0;

pub const STATIC_COLOR: u32 = 0x00_00_00_00;

pub const MOTION_COLOR: u32 = 0x00_ff_30_30;

pub const ORIGIN: u32 = 0x00_c0_a0_00;

pub const CAL_COLOR: u32 = 0x00_00_80_c8;

/// Column and row of the sensor.
pub const CENTER: isize = 400;

/// How many pixels stand for a metre.
pub const SCALE: isize = 100;

/// How far above a human its smile is.
pub const SMILE_LIFT: isize = 18;

/// The points of a turn and the clusters among them.
#[derive(Debug, PartialEq, Eq)]
pub struct Scan {
    pub points: Vec<ScanPoint>,
    pub clusters: Vec<Cluster>,
}

/// A coloured dot in the window.
#[derive(Clone, Copy, Debug, PartialEq, Eq, Structural)]
pub struct Dot {
    pub at: Pixel,
    pub red: u8,
    pub blue: u8,
}

/// Where a cluster comes to stand in the window: a dot for each of its points, and its middle.
#[derive(Debug, PartialEq, Eq)]
pub struct ClusterPixels {
    pub dots: Vec<Dot>,
    pub middle: Pixel,
}

/// Where a scan comes to stand in the window.
#[derive(Debug, PartialEq, Eq)]
pub struct Projection {
    /// A pixel for each point.
    pub points: Vec<Pixel>,
    /// A pixel for the background distance of each bin; any pixel for a bin without one.
    pub background: Vec<Pixel>,
    /// The pixels of each cluster.
    pub clusters: Vec<ClusterPixels>,
    /// The steps of the progress arc, as seen from the centre.
    pub arc: Vec<Pixel>,
    /// How many of those steps are done.
    pub arc_end: i32,
}

/// Discs of radius `r` around those of the first `n` pixels of `at` that are `shown`.
pub open spec fn dots(
    at: Seq<Pixel>,
    shown: spec_fn(int) -> bool,
    n: int,
    r: int,
) -> spec_fn(int, int) -> bool {
    |x: int, y: int|
        exists|i: int|
            0 <= i < n && shown(i) && #[trigger] disc(at[i].x as int, at[i].y as int, r)(x, y)
}

/// An empty window of `len` pixels.
pub open spec fn blank(len: nat) -> Seq<u32> {
    Seq::new(len, |i: int| BG_COLOR)
}

/// `buf` with circles one to four metres around the sensor and a line each way through it.
pub open spec fn with_grid(buf: Seq<u32>) -> Seq<u32> {
    let c = CENTER as int;
    let b1 = paint(buf, circle(c, c, 1 * SCALE), GRID);
    let b2 = paint(b1, circle(c, c, 2 * SCALE), GRID);
    let b3 = paint(b2, circle(c, c, 3 * SCALE), GRID);
    let b4 = paint(b3, circle(c, c, 4 * SCALE), GRID);
    paint(paint(b4, row(c), GRID), column(c), GRID)
}

/// The colour of a dot.
pub open spec fn dot_color(d: Dot) -> u32 {
    (d.red * 0x1_0000 + d.blue) as u32
}

/// `buf` with the first `n` of `ds` drawn in turn.
pub open spec fn with_dots(buf: Seq<u32>, ds: Seq<Dot>, n: int) -> Seq<u32>
    decreases n,
{
    if n <= 0 {
        buf
    } else {
        let d = ds[n - 1];
        paint(
            with_dots(buf, ds, n - 1),
            disc(d.at.x as int, d.at.y as int, 3),
            dot_color(d),
        )
    }
}

/// `buf` with a human in it: the dots of its points and a blue smile above its middle.
pub open spec fn with_human(buf: Seq<u32>, h: ClusterPixels) -> Seq<u32> {
    paint(
        with_dots(buf, h.dots@, h.dots@.len() as int),
        smile(h.middle.x as int, h.middle.y - SMILE_LIFT),
        0xff,
    )
}

/// `buf` with the humans among the first `n` clusters drawn in turn.
pub open spec fn with_humans(
    buf: Seq<u32>,
    clusters: Seq<Cluster>,
    pixels: Seq<ClusterPixels>,
    n: int,
) -> Seq<u32>
    decreases n,
{
    if n <= 0 {
        buf
    } else {
        let rest = with_humans(buf, clusters, pixels, n - 1);
        if clusters[n - 1].is_human {
            with_human(rest, pixels[n - 1])
        } else {
            rest
        }
    }
}

/// Every point of a scan.
pub open spec fn every() -> spec_fn(int) -> bool {
    |i: int| true
}

/// The bins that have a background distance.
pub open spec fn known(background: Seq<Option<u32>>) -> spec_fn(int) -> bool {
    |b: int| background[b] is Some
}

/// The points of a scan that moved.
pub open spec fn moving(points: Seq<ScanPoint>) -> spec_fn(int) -> bool {
    |i: int| points[i].is_motion
}

/// `buf` with a scan in it: while calibrating all its points and how far calibration is, later
/// the background, what moved, and the humans.
pub open spec fn with_scan(
    buf: Seq<u32>,
    scan: Scan,
    phase: PhaseView,
    view: Projection,
) -> Seq<u32> {
    let c = CENTER as int;
    let n = scan.points@.len() as int;
    match phase {
        PhaseView::Calibrating { .. } => paint(
            paint(buf, dots(view.points@, every(), n, 2), CAL_COLOR),
            progress_arc(c, c, view.arc@, view.arc_end as int),
            CAL_COLOR,
        ),
        PhaseView::Detecting { background } => {
            let still = paint(
                buf,
                dots(view.background@, known(background), background.len() as int, 2),
                STATIC_COLOR,
            );
            let both = paint(
                still,
                dots(view.points@, moving(scan.points@), n, 3),
                MOTION_COLOR,
            );
            with_humans(
                both,
                scan.clusters@,
                view.clusters@,
                scan.clusters@.len() as int,
            )
        },
    }
}

/// `buf` with the names of the quadrants in its corners.
pub open spec fn with_labels(buf: Seq<u32>) -> Seq<u32> {
    let b1 = paint(buf, label("Q1"@, 760, 40), STATIC_COLOR);
    let b2 = paint(b1, label("Q2"@, 20, 40), STATIC_COLOR);
    let b3 = paint(b2, label("Q3"@, 20, 760), STATIC_COLOR);
    paint(b3, label("Q4"@, 760, 760), STATIC_COLOR)
}

/// The frame of a scan, in a window of `len` pixels: from back to front the grid, the scan, the
/// labels and the sensor.
pub open spec fn frame(len: nat, scan: Scan, phase: PhaseView, view: Projection) -> Seq<u32> {
    paint(
        with_labels(with_scan(with_grid(blank(len)), scan, phase, view)),
        disc(CENTER as int, CENTER as int, 4),
        ORIGIN,
    )
}

/// The positions up to `r` away from `p` can be written as pixels.
pub open spec fn roomy(p: Pixel, r: int) -> bool {
    &&& isize::MIN <= p.x - r && p.x + r <= isize::MAX
    &&& isize::MIN <= p.y - r && p.y + r <= isize::MAX
}

/// A human can be drawn: its dots and the smile above it have room.
pub open spec fn human_roomy(h: ClusterPixels) -> bool {
    &&& forall|i: int| 0 <= i < h.dots@.len() ==> roomy((#[trigger] h.dots@[i]).at, 3)
    &&& roomy(h.middle, 10)
    &&& isize::MIN <= h.middle.y - SMILE_LIFT - 10
}

/// `view` has a pixel for every part of the scan that is drawn, with room around it.
pub open spec fn projects(view: Projection, scan: Scan, phase: PhaseView) -> bool {
    match phase {
        PhaseView::Calibrating { .. } => {
            &&& view.points@.len() == scan.points@.len()
            &&& forall|i: int| 0 <= i < view.points@.len() ==> roomy(#[trigger] view.points@[i], 2)
            &&& view.arc_end <= view.arc@.len()
            &&& forall|i: int|
                0 <= i < view.arc_end ==> bead_reachable(
                    CENTER as int,
                    (#[trigger] view.arc@[i]).x as int,
                ) && bead_reachable(CENTER as int, view.arc@[i].y as int)
        },
        PhaseView::Detecting { background } => {
            &&& view.background@.len() == background.len()
            &&& forall|b: int|
                0 <= b < background.len() && background[b] is Some ==> roomy(
                    #[trigger] view.background@[b],
                    2,
                )
            &&& view.points@.len() == scan.points@.len()
            &&& forall|i: int|
                0 <= i < view.points@.len() && scan.points@[i].is_motion ==> roomy(
                    #[trigger] view.points@[i],
                    3,
                )
            &&& view.clusters@.len() == scan.clusters@.len()
            &&& forall|k: int|
                0 <= k < scan.clusters@.len() && (#[trigger] scan.clusters@[k]).is_human
                    ==> view.clusters@[k].dots@.len() == scan.clusters@[k].points@.len()
                    && human_roomy(view.clusters@[k])
        },
    }
}

/// One more of the pixels: if it is shown, its disc is painted over what there is.
proof fn lemma_dots_step(
    buf: Seq<u32>,
    at: Seq<Pixel>,
    shown: spec_fn(int) -> bool,
    i: int,
    r: int,
    color: u32,
)
    requires
        0 <= i < at.len(),
    ensures
        paint(buf, dots(at, shown, i + 1, r), color) == if shown(i) {
            paint(
                paint(buf, dots(at, shown, i, r), color),
                disc(at[i].x as int, at[i].y as int, r),
                color,
            )
        } else {
            paint(buf, dots(at, shown, i, r), color)
        },
{
    let done = dots(at, shown, i, r);
    let next = dots(at, shown, i + 1, r);
    let here = disc(at[i].x as int, at[i].y as int, r);
    if shown(i) {
        assert forall|x: int, y: int| in_window(x, y) implies #[trigger] next(x, y) == (done(x, y)
            || here(x, y)) by {
            assert(disc(at[i].x as int, at[i].y as int, r)(x, y) == here(x, y));
        }
        lemma_paint_union(buf, done, here, next, color);
    } else {
        assert forall|x: int, y: int| #[trigger] next(x, y) == done(x, y) by {}
        assert(paint(buf, next, color) =~= paint(buf, done, color));
    }
}

/// Blanks the whole buffer.
fn clear(buf: &mut Vec<u32>)
    ensures
        final(buf)@ == blank(old(buf)@.len()),
{
    let mut i: usize = 0;
    while i < buf.len()
        invariant
            i <= buf@.len(),
            buf@.len() == old(buf)@.len(),
            forall|k: int| 0 <= k < i ==> #[trigger] buf@[k] == BG_COLOR,
        decreases buf@.len() - i,
    {
        buf.set(i, BG_COLOR);
        i += 1;
    }
    assert(buf@ =~= blank(old(buf)@.len()));
}

fn draw_grid(buf: &mut Vec<u32>)
    requires
        old(buf)@.len() >= WIDTH * HEIGHT,
    ensures
        final(buf)@ == with_grid(old(buf)@),
{
    let ghost c = CENTER as int;
    let ghost len = buf@.len();
    proof {
        lemma_window_fits(len, circle(c, c, 1 * SCALE));
        lemma_window_fits(len, circle(c, c, 2 * SCALE));
        lemma_window_fits(len, circle(c, c, 3 * SCALE));
        lemma_window_fits(len, circle(c, c, 4 * SCALE));
        lemma_window_fits(len, row(c));
        lemma_window_fits(len, column(c));
    }
    draw_circle(buf, CENTER, CENTER, 1 * SCALE, GRID);
    draw_circle(buf, CENTER, CENTER, 2 * SCALE, GRID);
    draw_circle(buf, CENTER, CENTER, 3 * SCALE, GRID);
    draw_circle(buf, CENTER, CENTER, 4 * SCALE, GRID);
    draw_hline(buf, CENTER as usize, GRID);
    draw_vline(buf, CENTER as usize, GRID);
}

fn draw_human(buf: &mut Vec<u32>, h: &ClusterPixels)
    requires
        old(buf)@.len() >= WIDTH * HEIGHT,
        human_roomy(*h),
    ensures
        final(buf)@ == with_human(old(buf)@, *h),
        final(buf)@.len() == old(buf)@.len(),
{
    let mut i: usize = 0;
    while i < h.dots.len()
        invariant
            i <= h.dots@.len(),
            human_roomy(*h),
            buf@.len() == old(buf)@.len(),
            buf@.len() >= WIDTH * HEIGHT,
            buf@ == with_dots(old(buf)@, h.dots@, i as int),
        decreases h.dots@.len() - i,
    {
        let d: Dot = h.dots[i];
        let color: u32 = blue_red_gradient(d.red, d.blue);
        proof {
            assert(d == h.dots@[i as int]);
            lemma_window_fits(buf@.len(), disc(d.at.x as int, d.at.y as int, 3));
        }
        fill_dot(buf, d.at.x, d.at.y, 3, color);
        i += 1;
    }
    proof {
        lemma_window_fits(buf@.len(), smile(h.middle.x as int, h.middle.y - SMILE_LIFT));
    }
    let blue: u32 = blue_red_gradient(0, 0xff);
    draw_smile(buf, h.middle.x, h.middle.y - SMILE_LIFT, blue);
}

/// Draws the scan of a turn while calibrating.
fn draw_calibrating(scan: &Scan, phase: &Phase, view: &Projection, buf: &mut Vec<u32>)
    requires
        phase@ is Calibrating,
        old(buf)@.len() >= WIDTH * HEIGHT,
        projects(*view, *scan, phase@),
    ensures
        final(buf)@ == with_scan(old(buf)@, *scan, phase@, *view),
        final(buf)@.len() == old(buf)@.len(),
{
    let mut i: usize = 0;
    assert(buf@ =~= paint(buf@, dots(view.points@, every(), 0, 2), CAL_COLOR));
    while i < view.points.len()
        invariant
            i <= view.points@.len(),
            phase@ is Calibrating,
            projects(*view, *scan, phase@),
            buf@.len() == old(buf)@.len(),
            buf@.len() >= WIDTH * HEIGHT,
            buf@ == paint(old(buf)@, dots(view.points@, every(), i as int, 2), CAL_COLOR),
        decreases view.points@.len() - i,
    {
        let p: Pixel = view.points[i];
        proof {
            assert(p == view.points@[i as int]);
            lemma_window_fits(buf@.len(), disc(p.x as int, p.y as int, 2));
            lemma_dots_step(old(buf)@, view.points@, every(), i as int, 2, CAL_COLOR);
        }
        fill_dot(buf, p.x, p.y, 2, CAL_COLOR);
        i += 1;
    }
    proof {
        lemma_window_fits(
            buf@.len(),
            progress_arc(CENTER as int, CENTER as int, view.arc@, view.arc_end as int),
        );
    }
    draw_progress_arc(buf, CENTER, CENTER, &view.arc, view.arc_end, CAL_COLOR);
}

/// Draws the scan of a turn when calibration is over.
fn draw_detecting(
    scan: &Scan,
    background: &Vec<Option<u32>>,
    view: &Projection,
    buf: &mut Vec<u32>,
)
    requires
        old(buf)@.len() >= WIDTH * HEIGHT,
        projects(*view, *scan, PhaseView::Detecting { background: background@ }),
    ensures
        final(buf)@ == with_scan(
            old(buf)@,
            *scan,
            PhaseView::Detecting { background: background@ },
            *view,
        ),
        final(buf)@.len() == old(buf)@.len(),
{
    let ghost phase = PhaseView::Detecting { background: background@ };
    let ghost shown = known(background@);
    let mut b: usize = 0;
    assert(buf@ =~= paint(buf@, dots(view.background@, shown, 0, 2), STATIC_COLOR));
    while b < background.len()
        invariant
            b <= background@.len(),
            phase == (PhaseView::Detecting { background: background@ }),
            shown == known(background@),
            projects(*view, *scan, phase),
            buf@.len() == old(buf)@.len(),
            buf@.len() >= WIDTH * HEIGHT,
            buf@ == paint(old(buf)@, dots(view.background@, shown, b as int, 2), STATIC_COLOR),
        decreases background@.len() - b,
    {
        let p: Pixel = view.background[b];
        proof {
            assert(p == view.background@[b as int]);
            lemma_window_fits(buf@.len(), disc(p.x as int, p.y as int, 2));
            lemma_dots_step(old(buf)@, view.background@, shown, b as int, 2, STATIC_COLOR);
        }
        if background[b].is_some() {
            fill_dot(buf, p.x, p.y, 2, STATIC_COLOR);
        }
        b += 1;
    }
    let ghost still = buf@;
    let ghost moved = moving(scan.points@);
    let mut i: usize = 0;
    assert(buf@ =~= paint(buf@, dots(view.points@, moved, 0, 3), MOTION_COLOR));
    while i < scan.points.len()
        invariant
            i <= scan.points@.len(),
            phase == (PhaseView::Detecting { background: background@ }),
            moved == moving(scan.points@),
            projects(*view, *scan, phase),
            buf@.len() == still.len(),
            buf@.len() >= WIDTH * HEIGHT,
            buf@ == paint(still, dots(view.points@, moved, i as int, 3), MOTION_COLOR),
        decreases scan.points@.len() - i,
    {
        let p: Pixel = view.points[i];
        proof {
            assert(p == view.points@[i as int]);
            lemma_window_fits(buf@.len(), disc(p.x as int, p.y as int, 3));
            lemma_dots_step(still, view.points@, moved, i as int, 3, MOTION_COLOR);
        }
        if scan.points[i].is_motion {
            fill_dot(buf, p.x, p.y, 3, MOTION_COLOR);
        }
        i += 1;
    }
    let ghost both = buf@;
    let mut k: usize = 0;
    while k < scan.clusters.len()
        invariant
            k <= scan.clusters@.len(),
            phase == (PhaseView::Detecting { background: background@ }),
            projects(*view, *scan, phase),
            buf@.len() == both.len(),
            buf@.len() >= WIDTH * HEIGHT,
            buf@ == with_humans(both, scan.clusters@, view.clusters@, k as int),
        decreases scan.clusters@.len() - k,
    {
        if scan.clusters[k].is_human {
            draw_human(buf, &view.clusters[k]);
        }
        k += 1;
    }
}

fn draw_labels(buf: &mut Vec<u32>)
    requires
        old(buf)@.len() >= WIDTH * HEIGHT,
    ensures
        final(buf)@ == with_labels(old(buf)@),
{
    proof {
        reveal_strlit("Q1");
        reveal_strlit("Q2");
        reveal_strlit("Q3");
        reveal_strlit("Q4");
        lemma_window_fits(buf@.len(), label("Q1"@, 760, 40));
        lemma_window_fits(buf@.len(), label("Q2"@, 20, 40));
        lemma_window_fits(buf@.len(), label("Q3"@, 20, 760));
        lemma_window_fits(buf@.len(), label("Q4"@, 760, 760));
    }
    draw_label(buf, 760, 40, "Q1", STATIC_COLOR);
    draw_label(buf, 20, 40, "Q2", STATIC_COLOR);
    draw_label(buf, 20, 760, "Q3", STATIC_COLOR);
    draw_label(buf, 760, 760, "Q4", STATIC_COLOR);
}

/// Draws the frame of a scan. `view` says where its parts come to stand.
pub fn redraw(scan: &Scan, phase: &Phase, view: &Projection, buf: &mut Vec<u32>)
    requires
        old(buf)@.len() >= WIDTH * HEIGHT,
        projects(*view, *scan, phase@),
    ensures
        final(buf)@ == frame(old(buf)@.len(), *scan, phase@, *view),
{
    clear(buf);
    draw_grid(buf);
    match phase {
        Phase::Calibrating { .. } => draw_calibrating(scan, phase, view, buf),
        Phase::Detecting { background } => draw_detecting(scan, background, view, buf),
    }
    draw_labels(buf);
    proof {
        lemma_window_fits(buf@.len(), disc(CENTER as int, CENTER as int, 4));
    }
    fill_dot(buf, CENTER, CENTER, 4, ORIGIN);
}

/// What a human covers: the dots of its points and its smile.
pub open spec fn human_shape(h: ClusterPixels) -> spec_fn(int, int) -> bool {
    |x: int, y: int|
        {
            ||| exists|i: int|
                0 <= i < h.dots@.len() && #[trigger] disc(
                    h.dots@[i].at.x as int,
                    h.dots@[i].at.y as int,
                    3,
                )(x, y)
            ||| smile(h.middle.x as int, h.middle.y - SMILE_LIFT)(x, y)
        }
}

/// What the labels and the sensor cover.
pub open spec fn overlay() -> spec_fn(int, int) -> bool {
    |x: int, y: int|
        {
            ||| label("Q1"@, 760, 40)(x, y)
            ||| label("Q2"@, 20, 40)(x, y)
            ||| label("Q3"@, 20, 760)(x, y)
            ||| label("Q4"@, 760, 760)(x, y)
            ||| disc(CENTER as int, CENTER as int, 4)(x, y)
        }
}

/// No human among the clusters from `m` up to `n` covers `(x, y)`.
pub open spec fn uncovered(
    clusters: Seq<Cluster>,
    pixels: Seq<ClusterPixels>,
    m: int,
    n: int,
    x: int,
    y: int,
) -> bool {
    forall|k: int|
        m <= k < n && (#[trigger] clusters[k]).is_human ==> !human_shape(pixels[k])(x, y)
}

proof fn lemma_outside_dots(buf: Seq<u32>, ds: Seq<Dot>, n: int, x: int, y: int)
    requires
        n <= ds.len(),
        in_window(x, y),
        y * WIDTH + x < buf.len(),
        forall|i: int|
            0 <= i < n ==> !#[trigger] disc(ds[i].at.x as int, ds[i].at.y as int, 3)(x, y),
    ensures
        with_dots(buf, ds, n).len() == buf.len(),
        pixel_at(with_dots(buf, ds, n), x, y) == pixel_at(buf, x, y),
    decreases n,
{
    if n > 0 {
        lemma_outside_dots(buf, ds, n - 1, x, y);
        let d = ds[n - 1];
        lemma_painted_pixel(
            with_dots(buf, ds, n - 1),
            disc(d.at.x as int, d.at.y as int, 3),
            dot_color(d),
            x,
            y,
        );
    }
}

proof fn lemma_dots_len(buf: Seq<u32>, ds: Seq<Dot>, n: int)
    ensures
        with_dots(buf, ds, n).len() == buf.len(),
    decreases n,
{
    if n > 0 {
        lemma_dots_len(buf, ds, n - 1);
    }
}

proof fn lemma_humans_len(buf: Seq<u32>, clusters: Seq<Cluster>, pixels: Seq<ClusterPixels>, n: int)
    ensures
        with_humans(buf, clusters, pixels, n).len() == buf.len(),
    decreases n,
{
    if n > 0 {
        lemma_humans_len(buf, clusters, pixels, n - 1);
        lemma_dots_len(
            with_humans(buf, clusters, pixels, n - 1),
            pixels[n - 1].dots@,
            pixels[n - 1].dots@.len() as int,
        );
    }
}

/// Humans cover nothing but what they cover.
proof fn lemma_outside_humans(
    buf: Seq<u32>,
    clusters: Seq<Cluster>,
    pixels: Seq<ClusterPixels>,
    m: int,
    n: int,
    x: int,
    y: int,
)
    requires
        0 <= m <= n,
        in_window(x, y),
        y * WIDTH + x < buf.len(),
        uncovered(clusters, pixels, m, n, x, y),
    ensures
        pixel_at(with_humans(buf, clusters, pixels, n), x, y) == pixel_at(
            with_humans(buf, clusters, pixels, m),
            x,
            y,
        ),
    decreases n,
{
    if m < n {
        lemma_outside_humans(buf, clusters, pixels, m, n - 1, x, y);
        lemma_humans_len(buf, clusters, pixels, n - 1);
        if clusters[n - 1].is_human {
            let rest = with_humans(buf, clusters, pixels, n - 1);
            let h = pixels[n - 1];
            assert(!human_shape(h)(x, y));
            lemma_outside_dots(rest, h.dots@, h.dots@.len() as int, x, y);
            lemma_painted_pixel(
                with_dots(rest, h.dots@, h.dots@.len() as int),
                smile(h.middle.x as int, h.middle.y - SMILE_LIFT),
                0xff,
                x,
                y,
            );
        }
    }
}

/// Away from the labels and the sensor a frame shows the scan.
proof fn lemma_outside_overlay(
    len: nat,
    scan: Scan,
    phase: PhaseView,
    view: Projection,
    x: int,
    y: int,
)
    requires
        len >= WIDTH * HEIGHT,
        in_window(x, y),
        !overlay()(x, y),
    ensures
        pixel_at(frame(len, scan, phase, view), x, y) == pixel_at(
            with_scan(with_grid(blank(len)), scan, phase, view),
            x,
            y,
        ),
{
    lemma_scan_len(with_grid(blank(len)), scan, phase, view);
    let buf = with_scan(with_grid(blank(len)), scan, phase, view);
    let b1 = paint(buf, label("Q1"@, 760, 40), STATIC_COLOR);
    let b2 = paint(b1, label("Q2"@, 20, 40), STATIC_COLOR);
    let b3 = paint(b2, label("Q3"@, 20, 760), STATIC_COLOR);
    let b4 = paint(b3, label("Q4"@, 760, 760), STATIC_COLOR);
    lemma_painted_pixel(buf, label("Q1"@, 760, 40), STATIC_COLOR, x, y);
    lemma_painted_pixel(b1, label("Q2"@, 20, 40), STATIC_COLOR, x, y);
    lemma_painted_pixel(b2, label("Q3"@, 20, 760), STATIC_COLOR, x, y);
    lemma_painted_pixel(b3, label("Q4"@, 760, 760), STATIC_COLOR, x, y);
    lemma_painted_pixel(b4, disc(CENTER as int, CENTER as int, 4), ORIGIN, x, y);
}

proof fn lemma_scan_len(buf: Seq<u32>, scan: Scan, phase: PhaseView, view: Projection)
    ensures
        with_scan(buf, scan, phase, view).len() == buf.len(),
{
    if let PhaseView::Detecting { background } = phase {
        let still = paint(
            buf,
            dots(view.background@, known(background), background.len() as int, 2),
            STATIC_COLOR,
        );
        let both = paint(
            still,
            dots(view.points@, moving(scan.points@), scan.points@.len() as int, 3),
            MOTION_COLOR,
        );
        lemma_humans_len(both, scan.clusters@, view.clusters@, scan.clusters@.len() as int);
    }
}

/// A frame is as large as the window, and the sensor is always in front.
pub proof fn lemma_sensor_in_front(
    len: nat,
    scan: Scan,
    phase: PhaseView,
    view: Projection,
    x: int,
    y: int,
)
    requires
        len >= WIDTH * HEIGHT,
        in_window(x, y),
        disc(CENTER as int, CENTER as int, 4)(x, y),
    ensures
        frame(len, scan, phase, view).len() == len,
        pixel_at(frame(len, scan, phase, view), x, y) == ORIGIN,
{
    lemma_scan_len(with_grid(blank(len)), scan, phase, view);
    lemma_painted_pixel(
        with_labels(with_scan(with_grid(blank(len)), scan, phase, view)),
        disc(CENTER as int, CENTER as int, 4),
        ORIGIN,
        x,
        y,
    );
}

/// What moved is red: where no human and no label is in front, the dot of a point that moved has
/// the colour of motion.
pub proof fn lemma_motion_is_red(
    len: nat,
    scan: Scan,
    background: Seq<Option<u32>>,
    view: Projection,
    i: int,
    x: int,
    y: int,
)
    requires
        len >= WIDTH * HEIGHT,
        0 <= i < scan.points@.len(),
        scan.points@[i].is_motion,
        in_window(x, y),
        disc(view.points@[i].x as int, view.points@[i].y as int, 3)(x, y),
        !overlay()(x, y),
        uncovered(scan.clusters@, view.clusters@, 0, scan.clusters@.len() as int, x, y),
    ensures
        pixel_at(frame(len, scan, PhaseView::Detecting { background }, view), x, y) == MOTION_COLOR,
{
    let phase = PhaseView::Detecting { background };
    lemma_outside_overlay(len, scan, phase, view, x, y);
    let shown = dots(view.points@, moving(scan.points@), scan.points@.len() as int, 3);
    let still = paint(
        with_grid(blank(len)),
        dots(view.background@, known(background), background.len() as int, 2),
        STATIC_COLOR,
    );
    assert(shown(x, y));
    lemma_painted_pixel(still, shown, MOTION_COLOR, x, y);
    lemma_outside_humans(
        paint(still, shown, MOTION_COLOR),
        scan.clusters@,
        view.clusters@,
        0,
        scan.clusters@.len() as int,
        x,
        y,
    );
}

/// What stands still is black: where nothing that moved, no human and no label is in front, the
/// dot of a background distance is black.
pub proof fn lemma_background_is_black(
    len: nat,
    scan: Scan,
    background: Seq<Option<u32>>,
    view: Projection,
    b: int,
    x: int,
    y: int,
)
    requires
        len >= WIDTH * HEIGHT,
        0 <= b < background.len(),
        background[b] is Some,
        in_window(x, y),
        disc(view.background@[b].x as int, view.background@[b].y as int, 2)(x, y),
        !dots(view.points@, moving(scan.points@), scan.points@.len() as int, 3)(x, y),
        !overlay()(x, y),
        uncovered(scan.clusters@, view.clusters@, 0, scan.clusters@.len() as int, x, y),
    ensures
        pixel_at(frame(len, scan, PhaseView::Detecting { background }, view), x, y) == STATIC_COLOR,
{
    let phase = PhaseView::Detecting { background };
    lemma_outside_overlay(len, scan, phase, view, x, y);
    let shown = dots(view.points@, moving(scan.points@), scan.points@.len() as int, 3);
    let wall = dots(view.background@, known(background), background.len() as int, 2);
    let grid = with_grid(blank(len));
    assert(wall(x, y));
    lemma_painted_pixel(grid, wall, STATIC_COLOR, x, y);
    lemma_painted_pixel(paint(grid, wall, STATIC_COLOR), shown, MOTION_COLOR, x, y);
    lemma_outside_humans(
        paint(paint(grid, wall, STATIC_COLOR), shown, MOTION_COLOR),
        scan.clusters@,
        view.clusters@,
        0,
        scan.clusters@.len() as int,
        x,
        y,
    );
}

/// Every human smiles: where no later human and no label is in front, the smile above a human is
/// blue.
pub proof fn lemma_humans_smile(
    len: nat,
    scan: Scan,
    background: Seq<Option<u32>>,
    view: Projection,
    k: int,
    x: int,
    y: int,
)
    requires
        len >= WIDTH * HEIGHT,
        0 <= k < scan.clusters@.len(),
        scan.clusters@[k].is_human,
        in_window(x, y),
        smile(
            view.clusters@[k].middle.x as int,
            view.clusters@[k].middle.y - SMILE_LIFT,
        )(x, y),
        !overlay()(x, y),
        uncovered(scan.clusters@, view.clusters@, k + 1, scan.clusters@.len() as int, x, y),
    ensures
        pixel_at(frame(len, scan, PhaseView::Detecting { background }, view), x, y) == 0xff,
{
    let phase = PhaseView::Detecting { background };
    lemma_outside_overlay(len, scan, phase, view, x, y);
    let both = paint(
        paint(
            with_grid(blank(len)),
            dots(view.background@, known(background), background.len() as int, 2),
            STATIC_COLOR,
        ),
        dots(view.points@, moving(scan.points@), scan.points@.len() as int, 3),
        MOTION_COLOR,
    );
    let rest = with_humans(both, scan.clusters@, view.clusters@, k);
    let h = view.clusters@[k];
    lemma_humans_len(both, scan.clusters@, view.clusters@, k);
    lemma_dots_len(rest, h.dots@, h.dots@.len() as int);
    lemma_painted_pixel(
        with_dots(rest, h.dots@, h.dots@.len() as int),
        smile(h.middle.x as int, h.middle.y - SMILE_LIFT),
        0xff,
        x,
        y,
    );
    lemma_outside_humans(
        both,
        scan.clusters@,
        view.clusters@,
        k + 1,
        scan.clusters@.len() as int,
        x,
        y,
    );
}

proof fn lemma_dot_shows(buf: Seq<u32>, ds: Seq<Dot>, i: int, n: int, x: int, y: int)
    requires
        0 <= i < n <= ds.len(),
        in_window(x, y),
        y * WIDTH + x < buf.len(),
        disc(ds[i].at.x as int, ds[i].at.y as int, 3)(x, y),
        forall|j: int|
            i < j < n ==> !#[trigger] disc(ds[j].at.x as int, ds[j].at.y as int, 3)(x, y),
    ensures
        pixel_at(with_dots(buf, ds, n), x, y) == dot_color(ds[i]),
    decreases n,
{
    let d = ds[n - 1];
    lemma_dots_len(buf, ds, n - 1);
    lemma_painted_pixel(
        with_dots(buf, ds, n - 1),
        disc(d.at.x as int, d.at.y as int, 3),
        dot_color(d),
        x,
        y,
    );
    if i < n - 1 {
        lemma_dot_shows(buf, ds, i, n - 1, x, y);
    }
}

/// Humans show their colours: where no later dot of a human, neither its smile, nor a later human
/// or a label is in front, dot `i` of a human has its own colour.
pub proof fn lemma_humans_show_their_dots(
    len: nat,
    scan: Scan,
    background: Seq<Option<u32>>,
    view: Projection,
    k: int,
    i: int,
    x: int,
    y: int,
)
    requires
        len >= WIDTH * HEIGHT,
        0 <= k < scan.clusters@.len(),
        scan.clusters@[k].is_human,
        0 <= i < view.clusters@[k].dots@.len(),
        in_window(x, y),
        disc(
            view.clusters@[k].dots@[i].at.x as int,
            view.clusters@[k].dots@[i].at.y as int,
            3,
        )(x, y),
        forall|j: int|
            i < j < view.clusters@[k].dots@.len() ==> !#[trigger] disc(
                view.clusters@[k].dots@[j].at.x as int,
                view.clusters@[k].dots@[j].at.y as int,
                3,
            )(x, y),
        !smile(
            view.clusters@[k].middle.x as int,
            view.clusters@[k].middle.y - SMILE_LIFT,
        )(x, y),
        !overlay()(x, y),
        uncovered(scan.clusters@, view.clusters@, k + 1, scan.clusters@.len() as int, x, y),
    ensures
        pixel_at(frame(len, scan, PhaseView::Detecting { background }, view), x, y) == dot_color(
            view.clusters@[k].dots@[i],
        ),
{
    let phase = PhaseView::Detecting { background };
    lemma_outside_overlay(len, scan, phase, view, x, y);
    let both = paint(
        paint(
            with_grid(blank(len)),
            dots(view.background@, known(background), background.len() as int, 2),
            STATIC_COLOR,
        ),
        dots(view.points@, moving(scan.points@), scan.points@.len() as int, 3),
        MOTION_COLOR,
    );
    let rest = with_humans(both, scan.clusters@, view.clusters@, k);
    let h = view.clusters@[k];
    let n = h.dots@.len() as int;
    lemma_humans_len(both, scan.clusters@, view.clusters@, k);
    lemma_dots_len(rest, h.dots@, n);
    lemma_dot_shows(rest, h.dots@, i, n, x, y);
    lemma_painted_pixel(
        with_dots(rest, h.dots@, n),
        smile(h.middle.x as int, h.middle.y - SMILE_LIFT),
        0xff,
        x,
        y,
    );
    lemma_outside_humans(
        both,
        scan.clusters@,
        view.clusters@,
        k + 1,
        scan.clusters@.len() as int,
        x,
        y,
    );
}

/// The sensor is in front of the labels, and those are in front of the scan.
proof fn lemma_front(
    len: nat,
    scan: Scan,
    phase: PhaseView,
    view: Projection,
    x: int,
    y: int,
)
    requires
        len >= WIDTH * HEIGHT,
        in_window(x, y),
    ensures
        pixel_at(frame(len, scan, phase, view), x, y) == if disc(CENTER as int, CENTER as int, 4)(
            x,
            y,
        ) {
            ORIGIN
        } else if overlay()(x, y) {
            STATIC_COLOR
        } else {
            pixel_at(with_scan(with_grid(blank(len)), scan, phase, view), x, y)
        },
{
    lemma_scan_len(with_grid(blank(len)), scan, phase, view);
    let buf = with_scan(with_grid(blank(len)), scan, phase, view);
    let b1 = paint(buf, label("Q1"@, 760, 40), STATIC_COLOR);
    let b2 = paint(b1, label("Q2"@, 20, 40), STATIC_COLOR);
    let b3 = paint(b2, label("Q3"@, 20, 760), STATIC_COLOR);
    let b4 = paint(b3, label("Q4"@, 760, 760), STATIC_COLOR);
    lemma_painted_pixel(buf, label("Q1"@, 760, 40), STATIC_COLOR, x, y);
    lemma_painted_pixel(b1, label("Q2"@, 20, 40), STATIC_COLOR, x, y);
    lemma_painted_pixel(b2, label("Q3"@, 20, 760), STATIC_COLOR, x, y);
    lemma_painted_pixel(b3, label("Q4"@, 760, 760), STATIC_COLOR, x, y);
    lemma_painted_pixel(b4, disc(CENTER as int, CENTER as int, 4), ORIGIN, x, y);
}

/// The grid: two lines and four circles on white.
proof fn lemma_grid(len: nat, x: int, y: int)
    requires
        len >= WIDTH * HEIGHT,
        in_window(x, y),
    ensures
        pixel_at(with_grid(blank(len)), x, y) ==
            if x == 400 || y == 400 || circle(400, 400, 100)(x, y)
            || circle(400, 400, 200)(x, y) || circle(400, 400, 300)(x, y)
            || circle(400, 400, 400)(x, y) {
            0xd0_d0_d0u32
        } else {
            0xff_ff_ff
        },
{
    let b0 = blank(len);
    let b1 = paint(b0, circle(400, 400, 100), GRID);
    let b2 = paint(b1, circle(400, 400, 200), GRID);
    let b3 = paint(b2, circle(400, 400, 300), GRID);
    let b4 = paint(b3, circle(400, 400, 400), GRID);
    let b5 = paint(b4, row(400), GRID);
    lemma_painted_pixel(b0, circle(400, 400, 100), GRID, x, y);
    lemma_painted_pixel(b1, circle(400, 400, 200), GRID, x, y);
    lemma_painted_pixel(b2, circle(400, 400, 300), GRID, x, y);
    lemma_painted_pixel(b3, circle(400, 400, 400), GRID, x, y);
    lemma_painted_pixel(b4, row(400), GRID, x, y);
    lemma_painted_pixel(b5, column(400), GRID, x, y);
}

/// Every pixel of a frame while calibrating, from front to back: the sensor, the labels, three by
/// three positions for each step of progress that is done, a disc of radius two for each point of
/// the scan, however many there are, and the grid. There is nothing else in it.
pub proof fn lemma_calibrating_frame(
    len: nat,
    scan: Scan,
    phase: PhaseView,
    view: Projection,
    x: int,
    y: int,
)
    requires
        len >= 640_000,
        phase is Calibrating,
        view.points@.len() == scan.points@.len(),
        0 <= x < 800,
        0 <= y < 800,
    ensures
        frame(len, scan, phase, view)[y * 800 + x] ==
            if (x - 400) * (x - 400) + (y - 400) * (y - 400) <= 16 {
            0xc0_a0_00u32
        } else if label("Q1"@, 760, 40)(x, y) || label("Q2"@, 20, 40)(x, y) || label(
            "Q3"@,
            20,
            760,
        )(x, y) || label("Q4"@, 760, 760)(x, y) {
            0
        } else if exists|i: int|
            0 <= i < view.arc_end && -1 <= x - (400 + (#[trigger] view.arc@[i]).x) <= 1 && -1 <= y
                - (400 + view.arc@[i].y) <= 1 {
            0x00_80_c8
        } else if exists|i: int|
            0 <= i < view.points@.len() && (x - (#[trigger] view.points@[i]).x) * (x
                - view.points@[i].x) + (y - view.points@[i].y) * (y - view.points@[i].y) <= 4 {
            0x00_80_c8
        } else if x == 400 || y == 400 || circle(400, 400, 100)(x, y)
            || circle(400, 400, 200)(x, y) || circle(400, 400, 300)(x, y)
            || circle(400, 400, 400)(x, y) {
            0xd0_d0_d0u32
        } else {
            0xff_ff_ff
        },
{
    let n = scan.points@.len() as int;
    let grid = with_grid(blank(len));
    let marks = dots(view.points@, every(), n, 2);
    let arc = progress_arc(CENTER as int, CENTER as int, view.arc@, view.arc_end as int);
    lemma_front(len, scan, phase, view, x, y);
    lemma_grid(len, x, y);
    lemma_painted_pixel(grid, marks, CAL_COLOR, x, y);
    lemma_painted_pixel(paint(grid, marks, CAL_COLOR), arc, CAL_COLOR, x, y);
    if arc(x, y) {
        let i = choose|i: int|
            0 <= i < view.arc_end && #[trigger] bead(
                CENTER as int,
                CENTER as int,
                view.arc@[i],
            )(x, y);
        assert(-1 <= x - (400 + view.arc@[i].x) <= 1);
    }
    if exists|i: int|
        0 <= i < view.arc_end && -1 <= x - (400 + (#[trigger] view.arc@[i]).x) <= 1 && -1 <= y - (
        400 + view.arc@[i].y) <= 1 {
        let i = choose|i: int|
            0 <= i < view.arc_end && -1 <= x - (400 + (#[trigger] view.arc@[i]).x) <= 1 && -1 <= y
                - (400 + view.arc@[i].y) <= 1;
        assert(bead(CENTER as int, CENTER as int, view.arc@[i])(x, y));
    }
    lemma_dots_cover(view.points@, every(), n, 2, x, y);
    assert(marks(x, y) <==> exists|i: int|
        0 <= i < view.points@.len() && (x - (#[trigger] view.points@[i]).x) * (x
            - view.points@[i].x) + (y - view.points@[i].y) * (y - view.points@[i].y) <= 4) by {
        if marks(x, y) {
            let i = choose|i: int|
                0 <= i < n && every()(i) && (x - (#[trigger] view.points@[i]).x) * (x
                    - view.points@[i].x) + (y - view.points@[i].y) * (y - view.points@[i].y) <= 4;
            assert(0 <= i < view.points@.len());
        }
        if exists|i: int|
            0 <= i < view.points@.len() && (x - (#[trigger] view.points@[i]).x) * (x
                - view.points@[i].x) + (y - view.points@[i].y) * (y - view.points@[i].y) <= 4 {
            let i = choose|i: int|
                0 <= i < view.points@.len() && (x - (#[trigger] view.points@[i]).x) * (x
                    - view.points@[i].x) + (y - view.points@[i].y) * (y - view.points@[i].y) <= 4;
            assert(every()(i));
        }
    }
}

/// Dots cover what is no further than the radius from one that is shown.
proof fn lemma_dots_cover(
    at: Seq<Pixel>,
    shown: spec_fn(int) -> bool,
    n: int,
    r: int,
    x: int,
    y: int,
)
    requires
        r >= 0,
    ensures
        dots(at, shown, n, r)(x, y) <==> exists|i: int|
            0 <= i < n && shown(i) && (x - (#[trigger] at[i]).x) * (x - at[i].x) + (y - at[i].y)
                * (y - at[i].y) <= r * r,
{
    if dots(at, shown, n, r)(x, y) {
        let i = choose|i: int|
            0 <= i < n && shown(i) && #[trigger] disc(at[i].x as int, at[i].y as int, r)(x, y);
        assert((x - at[i].x) * (x - at[i].x) + (y - at[i].y) * (y - at[i].y) <= r * r);
    }
    if exists|i: int|
        0 <= i < n && shown(i) && (x - (#[trigger] at[i]).x) * (x - at[i].x) + (y - at[i].y) * (y
            - at[i].y) <= r * r {
        let i = choose|i: int|
            0 <= i < n && shown(i) && (x - (#[trigger] at[i]).x) * (x - at[i].x) + (y - at[i].y)
                * (y - at[i].y) <= r * r;
        assert(disc(at[i].x as int, at[i].y as int, r)(x, y));
    }
}

/// Every pixel of a frame after calibration that no human covers, from front to back: the sensor,
/// the labels, a red disc of radius three for each point that moved, a black one of radius two for
/// each bin with a background distance, and the grid. There is nothing else in it.
pub proof fn lemma_detecting_frame(
    len: nat,
    scan: Scan,
    background: Seq<Option<u32>>,
    view: Projection,
    x: int,
    y: int,
)
    requires
        len >= 640_000,
        0 <= x < 800,
        0 <= y < 800,
        forall|k: int|
            0 <= k < scan.clusters@.len() && (#[trigger] scan.clusters@[k]).is_human ==> !smile(
                view.clusters@[k].middle.x as int,
                view.clusters@[k].middle.y - 18,
            )(x, y),
        forall|k: int, i: int|
            0 <= k < scan.clusters@.len() && scan.clusters@[k].is_human && 0 <= i
                < view.clusters@[k].dots@.len() ==> (x - (
            #[trigger] view.clusters@[k].dots@[i]).at.x) * (x - view.clusters@[k].dots@[i].at.x) + (
            y - view.clusters@[k].dots@[i].at.y) * (y - view.clusters@[k].dots@[i].at.y) > 9,
    ensures
        frame(len, scan, PhaseView::Detecting { background }, view)[y * 800 + x] ==
            if (x - 400) * (x - 400) + (y - 400) * (y - 400) <= 16 {
            0xc0_a0_00u32
        } else if label("Q1"@, 760, 40)(x, y) || label("Q2"@, 20, 40)(x, y) || label(
            "Q3"@,
            20,
            760,
        )(x, y) || label("Q4"@, 760, 760)(x, y) {
            0
        } else if exists|i: int|
            0 <= i < scan.points@.len() && scan.points@[i].is_motion && (x - (
            #[trigger] view.points@[i]).x) * (x - view.points@[i].x) + (y - view.points@[i].y) * (y
                - view.points@[i].y) <= 9 {
            0xff_30_30
        } else if exists|b: int|
            0 <= b < background.len() && background[b] is Some && (x - (
            #[trigger] view.background@[b]).x) * (x - view.background@[b].x) + (y
                - view.background@[b].y) * (y - view.background@[b].y) <= 4 {
            0
        } else if x == 400 || y == 400 || circle(400, 400, 100)(x, y)
            || circle(400, 400, 200)(x, y) || circle(400, 400, 300)(x, y)
            || circle(400, 400, 400)(x, y) {
            0xd0_d0_d0u32
        } else {
            0xff_ff_ff
        },
{
    let phase = PhaseView::Detecting { background };
    let n = scan.points@.len() as int;
    let grid = with_grid(blank(len));
    let wall = dots(view.background@, known(background), background.len() as int, 2);
    let shown = dots(view.points@, moving(scan.points@), n, 3);
    let still = paint(grid, wall, STATIC_COLOR);
    let both = paint(still, shown, MOTION_COLOR);
    lemma_front(len, scan, phase, view, x, y);
    lemma_grid(len, x, y);
    lemma_painted_pixel(grid, wall, STATIC_COLOR, x, y);
    lemma_painted_pixel(still, shown, MOTION_COLOR, x, y);
    lemma_dots_cover(view.background@, known(background), background.len() as int, 2, x, y);
    lemma_dots_cover(view.points@, moving(scan.points@), n, 3, x, y);
    assert forall|k: int| 0 <= k < scan.clusters@.len() && (
    #[trigger] scan.clusters@[k]).is_human implies !human_shape(view.clusters@[k])(x, y) by {
        let h = view.clusters@[k];
        assert forall|i: int| 0 <= i < h.dots@.len() implies !#[trigger] disc(
            h.dots@[i].at.x as int,
            h.dots@[i].at.y as int,
            3,
        )(x, y) by {
            assert((x - view.clusters@[k].dots@[i].at.x) * (x - view.clusters@[k].dots@[i].at.x) + (
            y - view.clusters@[k].dots@[i].at.y) * (y - view.clusters@[k].dots@[i].at.y) > 9);
        }
    }
    let end = scan.clusters@.len() as int;
    lemma_outside_humans(both, scan.clusters@, view.clusters@, 0, end, x, y);
}

/// Every pixel that a human covers, where the sensor and the labels do not: the last human there
/// is in front. It is blue where its smile is, 18 rows above its middle. Elsewhere the last of its
/// dots there is in front, a disc of radius three, with its amounts of red and blue and no green.
pub proof fn lemma_human_frame(
    len: nat,
    scan: Scan,
    background: Seq<Option<u32>>,
    view: Projection,
    k: int,
    x: int,
    y: int,
)
    requires
        len >= 640_000,
        0 <= x < 800,
        0 <= y < 800,
        0 <= k < scan.clusters@.len(),
        scan.clusters@[k].is_human,
        (x - 400) * (x - 400) + (y - 400) * (y - 400) > 16,
        !label("Q1"@, 760, 40)(x, y) && !label("Q2"@, 20, 40)(x, y),
        !label("Q3"@, 20, 760)(x, y) && !label("Q4"@, 760, 760)(x, y),
        forall|l: int|
            k < l < scan.clusters@.len() && (#[trigger] scan.clusters@[l]).is_human ==> !smile(
                view.clusters@[l].middle.x as int,
                view.clusters@[l].middle.y - 18,
            )(x, y),
        forall|l: int, i: int|
            k < l < scan.clusters@.len() && scan.clusters@[l].is_human && 0 <= i
                < view.clusters@[l].dots@.len() ==> (x - (
            #[trigger] view.clusters@[l].dots@[i]).at.x) * (x - view.clusters@[l].dots@[i].at.x) + (
            y - view.clusters@[l].dots@[i].at.y) * (y - view.clusters@[l].dots@[i].at.y) > 9,
    ensures
        ({
            let h = view.clusters@[k];
            let color = frame(len, scan, PhaseView::Detecting { background }, view)[y * 800 + x];
            let face = smile(h.middle.x as int, h.middle.y - 18)(x, y);
            &&& face ==> color == 0xff
            &&& forall|i: int|
                !face && 0 <= i < h.dots@.len() && (x - (#[trigger] h.dots@[i]).at.x) * (x
                    - h.dots@[i].at.x) + (y - h.dots@[i].at.y) * (y - h.dots@[i].at.y) <= 9 && (
                forall|j: int|
                    i < j < h.dots@.len() ==> (x - (#[trigger] h.dots@[j]).at.x) * (x
                        - h.dots@[j].at.x) + (y - h.dots@[j].at.y) * (y - h.dots@[j].at.y) > 9)
                    ==> color == h.dots@[i].red * 65_536 + h.dots@[i].blue
        }),
{
    let h = view.clusters@[k];
    let end = scan.clusters@.len() as int;
    let face = smile(h.middle.x as int, h.middle.y - 18)(x, y);
    assert(!overlay()(x, y));
    assert forall|l: int| k + 1 <= l < end && (
    #[trigger] scan.clusters@[l]).is_human implies !human_shape(view.clusters@[l])(x, y) by {
        let g = view.clusters@[l];
        assert forall|i: int| 0 <= i < g.dots@.len() implies !#[trigger] disc(
            g.dots@[i].at.x as int,
            g.dots@[i].at.y as int,
            3,
        )(x, y) by {
            assert((x - view.clusters@[l].dots@[i].at.x) * (x - view.clusters@[l].dots@[i].at.x) + (
            y - view.clusters@[l].dots@[i].at.y) * (y - view.clusters@[l].dots@[i].at.y) > 9);
        }
    }
    assert(uncovered(scan.clusters@, view.clusters@, k + 1, end, x, y));
    if face {
        lemma_humans_smile(len, scan, background, view, k, x, y);
    } else {
        assert forall|i: int|
            !face && 0 <= i < h.dots@.len() && (x - (#[trigger] h.dots@[i]).at.x) * (x
                - h.dots@[i].at.x) + (y - h.dots@[i].at.y) * (y - h.dots@[i].at.y) <= 9 && (
            forall|j: int|
                i < j < h.dots@.len() ==> (x - (#[trigger] h.dots@[j]).at.x) * (x - h.dots@[j].at.x)
                    + (y - h.dots@[j].at.y) * (y - h.dots@[j].at.y) > 9) implies frame(
            len,
            scan,
            PhaseView::Detecting { background },
            view,
        )[y * 800 + x] == h.dots@[i].red * 65_536 + h.dots@[i].blue by {
            assert forall|j: int| i < j < h.dots@.len() implies !#[trigger] disc(
                h.dots@[j].at.x as int,
                h.dots@[j].at.y as int,
                3,
            )(x, y) by {
                assert((x - h.dots@[j].at.x) * (x - h.dots@[j].at.x) + (y - h.dots@[j].at.y) * (y
                    - h.dots@[j].at.y) > 9);
            }
            lemma_humans_show_their_dots(len, scan, background, view, k, i, x, y);
        }
    }
}

/// A frame has as many pixels as the buffer, and what lies behind the window is white.
pub proof fn lemma_frame_fills_the_buffer(
    len: nat,
    scan: Scan,
    phase: PhaseView,
    view: Projection,
    i: int,
)
    ensures
        frame(len, scan, phase, view).len() == len,
        640_000 <= i < len ==> frame(len, scan, phase, view)[i] == 0xff_ff_ff,
{
    let grid = with_grid(blank(len));
    let buf = with_scan(grid, scan, phase, view);
    lemma_scan_len(grid, scan, phase, view);
    if 640_000 <= i < len {
        if let PhaseView::Detecting { background } = phase {
            let still = paint(
                grid,
                dots(view.background@, known(background), background.len() as int, 2),
                STATIC_COLOR,
            );
            let both = paint(
                still,
                dots(view.points@, moving(scan.points@), scan.points@.len() as int, 3),
                MOTION_COLOR,
            );
            let end = scan.clusters@.len() as int;
            lemma_humans_beyond(both, scan.clusters@, view.clusters@, end, i);
        }
    }
}

proof fn lemma_dots_beyond(buf: Seq<u32>, ds: Seq<Dot>, n: int, i: int)
    requires
        640_000 <= i < buf.len(),
    ensures
        with_dots(buf, ds, n)[i] == buf[i],
    decreases n,
{
    if n > 0 {
        lemma_dots_beyond(buf, ds, n - 1, i);
        lemma_dots_len(buf, ds, n - 1);
    }
}

proof fn lemma_humans_beyond(
    buf: Seq<u32>,
    clusters: Seq<Cluster>,
    pixels: Seq<ClusterPixels>,
    n: int,
    i: int,
)
    requires
        640_000 <= i < buf.len(),
    ensures
        with_humans(buf, clusters, pixels, n)[i] == buf[i],
    decreases n,
{
    if n > 0 {
        let rest = with_humans(buf, clusters, pixels, n - 1);
        let h = pixels[n - 1];
        lemma_humans_beyond(buf, clusters, pixels, n - 1, i);
        lemma_humans_len(buf, clusters, pixels, n - 1);
        lemma_dots_beyond(rest, h.dots@, h.dots@.len() as int, i);
        lemma_dots_len(rest, h.dots@, h.dots@.len() as int);
    }
}

} // verus!
