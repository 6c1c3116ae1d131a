//! Runs of readings as both programs go through them: where turns begin, which points a turn has,
//! and when calibration ends.

use crate::calibration::{
    after_readings, background_of, bin_of, distances_in, elapsed, finished, fresh, in_range,
    is_motion, lemma_calibration_learns, with_sample, PhaseView, ScanPoint, ANGLE_BINS,
    CALIBRATION,
};
use crate::double::Point;
use crate::session::{wraps, NO_DIR};
use vstd::prelude::*;

verus! {

/// What a program keeps from reading to reading: the last direction, the phase, and the points of
/// the turn that is under way.
pub struct Sweep {
    pub last_dir: u16,
    pub phase: PhaseView,
    pub points: Seq<ScanPoint>,
}

impl Sweep {
    /// The beginning, at `started`.
    pub open spec fn starts(self, started: u128) -> bool {
        &&& self.last_dir == NO_DIR
        &&& self.phase == fresh(started)
        &&& self.points == Seq::<ScanPoint>::empty()
    }
}

/// One reading. Its direction is noted at `now`, which leads from `before` to `ready`; then it is
/// taken, which leads to `after`.
pub struct Pass {
    pub dir: u16,
    pub mm: u32,
    pub at: Point,
    pub now: u128,
    pub before: Sweep,
    pub ready: Sweep,
    pub after: Sweep,
}

impl Pass {
    /// What a reading does: if it begins a new turn, the phase moves on if it is time, and the
    /// points are those of a new turn. If it is in range, it counts towards calibration while that
    /// lasts, and is one more point.
    pub open spec fn made(self, dir_round: u16) -> bool {
        &&& self.ready.last_dir == self.dir
        &&& if wraps(self.before.last_dir, self.dir, dir_round) {
            &&& self.ready.phase == finished(self.before.phase, self.now)
            &&& self.ready.points == Seq::<ScanPoint>::empty()
        } else {
            &&& self.ready.phase == self.before.phase
            &&& self.ready.points == self.before.points
        }
        &&& self.after.last_dir == self.dir
        &&& if in_range(self.mm) {
            &&& self.after.phase == with_sample(self.ready.phase, bin_of(self.dir), self.mm)
            &&& self.after.points == self.ready.points.push(self.point())
        } else {
            &&& self.after.phase == self.ready.phase
            &&& self.after.points == self.ready.points
        }
    }

    /// The point that the reading is, if it is in range.
    pub open spec fn point(self) -> ScanPoint {
        ScanPoint {
            at: self.at,
            is_motion: is_motion(self.ready.phase, bin_of(self.dir), self.mm),
        }
    }
}

/// Reading `j` finds everything as the one before left it.
pub open spec fn goes_on(passes: Seq<Pass>, j: int) -> bool {
    passes[j].before == passes[j - 1].after
}

/// A run of readings from the start at `started`.
pub open spec fn sweep_run(passes: Seq<Pass>, dir_round: u16, started: u128) -> bool {
    &&& passes.len() > 0 ==> passes[0].before.starts(started)
    &&& forall|j: int| 0 <= j < passes.len() ==> (#[trigger] passes[j]).made(dir_round)
    &&& forall|j: int| 0 < j < passes.len() ==> #[trigger] goes_on(passes, j)
}

/// Reading `j` begins a new turn: it is not the first, and falls back from the second half of a
/// turn.
pub open spec fn wraps_at(passes: Seq<Pass>, dir_round: u16, j: int) -> bool {
    0 < j < passes.len() && wraps(passes[j - 1].dir, passes[j].dir, dir_round)
}

/// Those of the first `n` readings that begin a new turn, in order.
pub open spec fn wrapping(passes: Seq<Pass>, dir_round: u16, n: int) -> Seq<int>
    decreases n,
{
    if n <= 0 {
        Seq::empty()
    } else if wraps_at(passes, dir_round, n - 1) {
        wrapping(passes, dir_round, n - 1).push(n - 1)
    } else {
        wrapping(passes, dir_round, n - 1)
    }
}

/// All readings of a run that begin a new turn, in order.
pub open spec fn wraps_of(passes: Seq<Pass>, dir_round: u16) -> Seq<int> {
    wrapping(passes, dir_round, passes.len() as int)
}

/// The first reading of turn `k`, counted from 0, where `w` are the readings that begin a new
/// turn: reading `w[k]` ends turn `k` and is the first of the next.
pub open spec fn turn_begin(w: Seq<int>, k: int) -> int {
    if k == 0 {
        0
    } else {
        w[k - 1]
    }
}

/// The readings of turn `k`, in order.
pub open spec fn turn_of(passes: Seq<Pass>, dir_round: u16, k: int) -> Seq<Pass> {
    let w = wraps_of(passes, dir_round);
    passes.subrange(turn_begin(w, k), w[k])
}

/// The points that the readings in range become, in order.
pub open spec fn points_read(passes: Seq<Pass>) -> Seq<ScanPoint> {
    passes.filter(|p: Pass| in_range(p.mm)).map_values(|p: Pass| p.point())
}

/// The directions and distances of readings.
pub open spec fn readings(passes: Seq<Pass>) -> Seq<(u16, u32)> {
    passes.map_values(|p: Pass| (p.dir, p.mm))
}

/// `wrapping` lists exactly the readings that begin a new turn, each of them once, in order.
pub proof fn lemma_wrapping_is_complete(passes: Seq<Pass>, dir_round: u16, n: int)
    requires
        0 <= n <= passes.len(),
    ensures
        ({
            let w = wrapping(passes, dir_round, n);
            &&& forall|k: int|
                0 <= k < w.len() ==> 0 < (#[trigger] w[k]) < n && wraps_at(passes, dir_round, w[k])
            &&& forall|i: int, k: int| 0 <= i < k < w.len() ==> #[trigger] w[i] < #[trigger] w[k]
            &&& forall|j: int|
                0 <= j < n && #[trigger] wraps_at(passes, dir_round, j) ==> w.contains(j)
        }),
    decreases n,
{
    if n > 0 {
        lemma_wrapping_is_complete(passes, dir_round, n - 1);
        let v = wrapping(passes, dir_round, n - 1);
        let w = wrapping(passes, dir_round, n);
        assert forall|j: int| 0 <= j < n && #[trigger] wraps_at(
            passes,
            dir_round,
            j,
        ) implies w.contains(j) by {
            if j < n - 1 {
                let k = choose|k: int| 0 <= k < v.len() && v[k] == j;
                assert(w[k] == j);
            } else {
                assert(w[w.len() - 1] == j);
            }
        }
    }
}

/// A turn has at least one reading, and no reading after the first of it begins a new one.
pub proof fn lemma_turns_do_not_overlap(passes: Seq<Pass>, dir_round: u16, k: int)
    requires
        0 <= k < wraps_of(passes, dir_round).len(),
    ensures
        ({
            let w = wraps_of(passes, dir_round);
            &&& 0 <= turn_begin(w, k) < w[k] < passes.len()
            &&& forall|j: int|
                turn_begin(w, k) < j < w[k] ==> !#[trigger] wraps_at(passes, dir_round, j)
        }),
{
    let w = wraps_of(passes, dir_round);
    lemma_wrapping_is_complete(passes, dir_round, passes.len() as int);
    assert(0 < w[k] < passes.len());
    if k > 0 {
        assert(w[k - 1] < w[k]);
    }
    assert forall|j: int| turn_begin(w, k) < j < w[k] implies !#[trigger] wraps_at(
        passes,
        dir_round,
        j,
    ) by {
        if wraps_at(passes, dir_round, j) {
            assert(w.contains(j));
            let i = choose|i: int| 0 <= i < w.len() && w[i] == j;
            if i < k - 1 {
                assert(w[i] < w[k - 1]);
            } else if i > k {
                assert(w[k] < w[i]);
            }
        }
    }
}

/// No readings, no points.
proof fn lemma_points_read_none(passes: Seq<Pass>)
    requires
        passes.len() == 0,
    ensures
        points_read(passes) == Seq::<ScanPoint>::empty(),
{
    passes.lemma_filter_len(|p: Pass| in_range(p.mm));
    assert(points_read(passes) =~= Seq::empty());
}

/// A reading more adds its point, if it is in range.
proof fn lemma_points_read_push(passes: Seq<Pass>, p: Pass)
    ensures
        points_read(passes.push(p)) == if in_range(p.mm) {
            points_read(passes).push(p.point())
        } else {
            points_read(passes)
        },
{
    passes.lemma_filter_push(p, |p: Pass| in_range(p.mm));
    assert(points_read(passes.push(p)) =~= if in_range(p.mm) {
        points_read(passes).push(p.point())
    } else {
        points_read(passes)
    });
}

/// What is kept before reading `n`: the direction of the one before, and the points read since the
/// turn under way began.
proof fn lemma_kept(passes: Seq<Pass>, dir_round: u16, started: u128, n: int)
    requires
        sweep_run(passes, dir_round, started),
        0 <= n < passes.len(),
    ensures
        ({
            let s = passes[n].before;
            let w = wrapping(passes, dir_round, n);
            let from = turn_begin(w, w.len() as int);
            &&& s.last_dir == if n == 0 {
                NO_DIR
            } else {
                passes[n - 1].dir
            }
            &&& 0 <= from <= n
            &&& s.points == points_read(passes.subrange(from, n))
        }),
    decreases n,
{
    let w = wrapping(passes, dir_round, n);
    let from = turn_begin(w, w.len() as int);
    if n == 0 {
        lemma_points_read_none(passes.subrange(0, 0));
    } else {
        lemma_kept(passes, dir_round, started, n - 1);
        let last = passes[n - 1];
        assert(last.made(dir_round));
        assert(goes_on(passes, n));
        lemma_points_read_push(passes.subrange(from, n - 1), last);
        assert(passes.subrange(from, n) =~= passes.subrange(from, n - 1).push(last));
        if wraps_at(passes, dir_round, n - 1) {
            lemma_points_read_none(passes.subrange(n - 1, n - 1));
        }
    }
}

/// A reading finds a turn complete exactly if it is one that begins a new turn.
pub proof fn lemma_turns_end_at_wraps(
    passes: Seq<Pass>,
    dir_round: u16,
    started: u128,
    j: int,
)
    requires
        sweep_run(passes, dir_round, started),
        0 <= j < passes.len(),
    ensures
        wraps(passes[j].before.last_dir, passes[j].dir, dir_round) <==> wraps_at(
            passes,
            dir_round,
            j,
        ),
{
    lemma_kept(passes, dir_round, started, j);
}

proof fn lemma_points_of_turns(passes: Seq<Pass>, dir_round: u16, started: u128, n: int)
    requires
        sweep_run(passes, dir_round, started),
        0 <= n <= passes.len(),
    ensures
        ({
            let w = wrapping(passes, dir_round, n);
            forall|k: int|
                0 <= k < w.len() ==> passes[#[trigger] w[k]].before.points == points_read(
                    passes.subrange(turn_begin(w, k), w[k]),
                )
        }),
    decreases n,
{
    if n > 0 {
        lemma_points_of_turns(passes, dir_round, started, n - 1);
        lemma_kept(passes, dir_round, started, n - 1);
        let v = wrapping(passes, dir_round, n - 1);
        let w = wrapping(passes, dir_round, n);
        assert forall|k: int| 0 <= k < w.len() implies passes[#[trigger] w[k]].before.points
            == points_read(passes.subrange(turn_begin(w, k), w[k])) by {
            assert(turn_begin(w, k) == turn_begin(v, k));
            if k < v.len() {
                assert(w[k] == v[k]);
            }
        }
    }
}

/// A turn has the points of its readings: when it is complete, there is one for each of them that
/// is in range, in order, each with the mark it was given when it was read. There are no others.
pub proof fn lemma_turns_have_their_points(
    passes: Seq<Pass>,
    dir_round: u16,
    started: u128,
    k: int,
)
    requires
        sweep_run(passes, dir_round, started),
        0 <= k < wraps_of(passes, dir_round).len(),
    ensures
        passes[wraps_of(passes, dir_round)[k]].before.points == points_read(
            turn_of(passes, dir_round, k),
        ),
{
    lemma_points_of_turns(passes, dir_round, started, passes.len() as int);
}

/// Calibration that goes on has begun at the start of the run, and has collected all readings.
proof fn lemma_collected(passes: Seq<Pass>, dir_round: u16, started: u128, n: int)
    requires
        sweep_run(passes, dir_round, started),
        0 <= n < passes.len(),
        passes[n].before.phase is Calibrating,
    ensures
        passes[n].before.phase->started == started,
        passes[n].before.phase == after_readings(fresh(started), readings(passes.take(n))),
    decreases n,
{
    if n == 0 {
        assert(readings(passes.take(0)) =~= Seq::empty());
    } else {
        let last = passes[n - 1];
        assert(last.made(dir_round));
        assert(goes_on(passes, n));
        lemma_collected(passes, dir_round, started, n - 1);
        let now = readings(passes.take(n));
        assert(now.drop_last() =~= readings(passes.take(n - 1)));
        assert(now.last() == (last.dir, last.mm));
    }
}

/// Once calibration is over, the phase stays as it is, and with it the background.
pub proof fn lemma_detecting_lasts(
    passes: Seq<Pass>,
    dir_round: u16,
    started: u128,
    i: int,
    j: int,
)
    requires
        sweep_run(passes, dir_round, started),
        0 <= i <= j < passes.len(),
        passes[i].ready.phase is Detecting,
    ensures
        passes[j].ready.phase == passes[i].ready.phase,
    decreases j,
{
    if i < j {
        lemma_detecting_lasts(passes, dir_round, started, i, j - 1);
        assert(passes[j - 1].made(dir_round));
        assert(goes_on(passes, j));
        assert(passes[j].made(dir_round));
    }
}

/// Calibration does not end before the next turn begins.
proof fn lemma_calibrating_lasts(
    passes: Seq<Pass>,
    dir_round: u16,
    started: u128,
    i: int,
    j: int,
)
    requires
        sweep_run(passes, dir_round, started),
        0 <= i <= j < passes.len(),
        passes[i].ready.phase is Calibrating,
        forall|m: int| i < m <= j ==> !#[trigger] wraps_at(passes, dir_round, m),
    ensures
        passes[j].ready.phase is Calibrating,
    decreases j,
{
    if i < j {
        lemma_calibrating_lasts(passes, dir_round, started, i, j - 1);
        lemma_turns_end_at_wraps(passes, dir_round, started, j);
        assert(!wraps_at(passes, dir_round, j));
        assert(passes[j - 1].made(dir_round));
        assert(goes_on(passes, j));
        assert(passes[j].made(dir_round));
    }
}

/// Calibration is still going on during turn `k`: the turn before it, if there is one, ended
/// without ending it.
pub open spec fn turn_calibrates(passes: Seq<Pass>, dir_round: u16, k: int) -> bool {
    k == 0 || passes[wraps_of(passes, dir_round)[k - 1]].ready.phase is Calibrating
}

/// During a turn that calibrates, every reading is taken while calibrating.
proof fn lemma_turn_calibrates(
    passes: Seq<Pass>,
    dir_round: u16,
    started: u128,
    k: int,
    j: int,
)
    requires
        sweep_run(passes, dir_round, started),
        0 <= k < wraps_of(passes, dir_round).len(),
        turn_calibrates(passes, dir_round, k),
        turn_begin(wraps_of(passes, dir_round), k) <= j < wraps_of(passes, dir_round)[k],
    ensures
        passes[j].ready.phase is Calibrating,
{
    let from = turn_begin(wraps_of(passes, dir_round), k);
    lemma_turns_do_not_overlap(passes, dir_round, k);
    if k == 0 {
        assert(passes[0].made(dir_round));
    }
    lemma_calibrating_lasts(passes, dir_round, started, from, j);
}

/// Nothing moves during calibration: no point of a turn that calibrates is marked as moving, even
/// if calibration ends with it.
pub proof fn lemma_nothing_moves_while_calibrating(
    passes: Seq<Pass>,
    dir_round: u16,
    started: u128,
    k: int,
)
    requires
        sweep_run(passes, dir_round, started),
        0 <= k < wraps_of(passes, dir_round).len(),
        turn_calibrates(passes, dir_round, k),
    ensures
        ({
            let points = points_read(turn_of(passes, dir_round, k));
            forall|i: int| 0 <= i < points.len() ==> !(#[trigger] points[i]).is_motion
        }),
{
    let kept = |p: Pass| in_range(p.mm);
    let from = turn_begin(wraps_of(passes, dir_round), k);
    let turn = turn_of(passes, dir_round, k);
    let points = points_read(turn);
    lemma_turns_do_not_overlap(passes, dir_round, k);
    assert forall|i: int| 0 <= i < points.len() implies !(#[trigger] points[i]).is_motion by {
        let p = turn.filter(kept)[i];
        assert(turn.filter(kept).contains(p));
        turn.lemma_filter_contains_rev(kept, p);
        let m = choose|m: int| 0 <= m < turn.len() && turn[m] == p;
        lemma_turn_calibrates(passes, dir_round, started, k, from + m);
    }
}

/// When a turn that calibrates is complete, calibration goes on or, if it has lasted long enough,
/// ends with the background of all readings in range so far.
pub proof fn lemma_calibration_ends_in_time(
    passes: Seq<Pass>,
    dir_round: u16,
    started: u128,
    k: int,
)
    requires
        sweep_run(passes, dir_round, started),
        0 <= k < wraps_of(passes, dir_round).len(),
        turn_calibrates(passes, dir_round, k),
    ensures
        ({
            let j = wraps_of(passes, dir_round)[k];
            let read = readings(passes.take(j));
            match passes[j].ready.phase {
                PhaseView::Calibrating { started: s, samples } => s == started && elapsed(
                    started,
                    passes[j].now,
                ) < CALIBRATION,
                PhaseView::Detecting { background } => {
                    &&& elapsed(started, passes[j].now) >= CALIBRATION
                    &&& background == Seq::new(
                        ANGLE_BINS as nat,
                        |b: int| background_of(distances_in(read, b)),
                    )
                },
            }
        }),
{
    let j = wraps_of(passes, dir_round)[k];
    lemma_turns_do_not_overlap(passes, dir_round, k);
    lemma_wrapping_is_complete(passes, dir_round, passes.len() as int);
    lemma_turn_calibrates(passes, dir_round, started, k, j - 1);
    assert(passes[j - 1].made(dir_round));
    assert(goes_on(passes, j));
    assert(passes[j].made(dir_round));
    assert(wraps_at(passes, dir_round, j));
    lemma_turns_end_at_wraps(passes, dir_round, started, j);
    lemma_collected(passes, dir_round, started, j);
    if elapsed(started, passes[j].now) >= CALIBRATION {
        lemma_calibration_learns(started, readings(passes.take(j)), passes[j].now);
    }
}

/// Calibration takes its time and no more: when turn `k` is complete it is still going on exactly
/// if neither that turn nor an earlier one ended when it had lasted long enough.
pub proof fn lemma_calibration_takes_its_time(
    passes: Seq<Pass>,
    dir_round: u16,
    started: u128,
    k: int,
)
    requires
        sweep_run(passes, dir_round, started),
        0 <= k < wraps_of(passes, dir_round).len(),
    ensures
        ({
            let w = wraps_of(passes, dir_round);
            passes[w[k]].ready.phase is Calibrating <==> forall|i: int|
                0 <= i <= k ==> elapsed(started, passes[#[trigger] w[i]].now) < CALIBRATION
        }),
    decreases k,
{
    let w = wraps_of(passes, dir_round);
    lemma_wrapping_is_complete(passes, dir_round, passes.len() as int);
    if k > 0 {
        lemma_calibration_takes_its_time(passes, dir_round, started, k - 1);
        if passes[w[k - 1]].ready.phase is Detecting {
            assert(w[k - 1] < w[k]);
            lemma_detecting_lasts(passes, dir_round, started, w[k - 1], w[k]);
        }
    }
    if turn_calibrates(passes, dir_round, k) {
        lemma_calibration_ends_in_time(passes, dir_round, started, k);
        assert(elapsed(started, passes[w[k]].now) < CALIBRATION
            <==> passes[w[k]].ready.phase is Calibrating);
    }
}

} // verus!
