//! Whole runs: what holds of the two programs from their start on, over any number of readings.

use crate::calibration::{
    background_of, distances_in, elapsed, PhaseView, ScanPoint, ANGLE_BINS, CALIBRATION,
};
use crate::double::{Double, Point, ZERO};
use crate::session::{lemma_server_takes, Server, Sighting, Turn, Viewer, BARK_COOLDOWN};
use crate::snapshot::{tells_point, tells_points, ScanSnapshot};
use crate::sweep::{
    goes_on, lemma_calibration_ends_in_time, lemma_calibration_takes_its_time,
    lemma_detecting_lasts, lemma_nothing_moves_while_calibrating, lemma_turns_do_not_overlap,
    lemma_turns_end_at_wraps, lemma_turns_have_their_points, lemma_wrapping_is_complete,
    points_read, readings, sweep_run, turn_calibrates, turn_of, wrapping, wraps_at, wraps_of, Pass,
    Sweep,
};
use crate::tracker::Cluster;
use vstd::prelude::*;

verus! {

/// One reading as the server goes through it: `before`, the direction is noted, which leads to
/// `turned`; if a turn is complete then, its snapshot is published, which leads to `ready`; and the
/// reading is taken, which leads to `after`.
pub struct ServerStep {
    pub dir: u16,
    pub mm: u32,
    pub at: Point,
    /// When the direction is noted.
    pub now: u128,
    pub clusters: Seq<Cluster>,
    pub distance: Seq<Vec<Double>>,
    /// When the snapshot is published.
    pub published: u128,
    pub since_epoch_ms: Option<u128>,
    pub before: Server,
    pub turned: Server,
    pub turn: Turn,
    pub ready: Server,
    pub snapshot: Option<ScanSnapshot>,
    pub after: Server,
}

impl ServerStep {
    /// The server goes through the reading: a snapshot is published exactly if `turn` says that a
    /// turn is complete.
    pub open spec fn made(self, dir_round: u16) -> bool {
        &&& self.before.turns(self.dir, dir_round, self.now, self.turned, self.turn)
        &&& match self.snapshot {
            Some(s) => self.turn is Done && self.turned.publishes(
                self.clusters,
                self.distance,
                self.published,
                self.since_epoch_ms,
                self.ready,
                s,
            ),
            None => self.turn is Going && self.ready == self.turned,
        }
        &&& self.ready.takes(self.dir, self.mm, self.at, self.after)
    }

    /// The reading, as far as it is the same in both programs.
    pub open spec fn pass(self) -> Pass {
        Pass {
            dir: self.dir,
            mm: self.mm,
            at: self.at,
            now: self.now,
            before: server_sweep(self.before),
            ready: server_sweep(self.ready),
            after: server_sweep(self.after),
        }
    }
}

/// What a server keeps from reading to reading, as far as it is the same in both programs.
pub open spec fn server_sweep(s: Server) -> Sweep {
    Sweep { last_dir: s.last_dir, phase: s.phase@, points: s.raw_points@ }
}

/// A run of readings from the start of a server at `started`.
pub open spec fn server_run(steps: Seq<ServerStep>, dir_round: u16, started: u128) -> bool {
    &&& steps.len() > 0 ==> steps[0].before.starts(started)
    &&& forall|j: int| 0 <= j < steps.len() ==> (#[trigger] steps[j]).made(dir_round)
    &&& forall|j: int| 0 < j < steps.len() ==> #[trigger] serves_on(steps, j)
}

/// The server goes on with reading `j` where it was left by the one before.
pub open spec fn serves_on(steps: Seq<ServerStep>, j: int) -> bool {
    steps[j].before == steps[j - 1].after
}

/// The readings of a server.
pub open spec fn server_passes(steps: Seq<ServerStep>) -> Seq<Pass> {
    steps.map_values(|st: ServerStep| st.pass())
}

/// The snapshots published during the first `n` readings, in order.
pub open spec fn snapshots_until(steps: Seq<ServerStep>, n: int) -> Seq<ScanSnapshot>
    decreases n,
{
    if n <= 0 {
        Seq::empty()
    } else {
        match steps[n - 1].snapshot {
            Some(s) => snapshots_until(steps, n - 1).push(s),
            None => snapshots_until(steps, n - 1),
        }
    }
}

/// All snapshots that are published during a run, in order.
pub open spec fn snapshots(steps: Seq<ServerStep>) -> Seq<ScanSnapshot> {
    snapshots_until(steps, steps.len() as int)
}

/// The readings of a run of a server that begin a new turn, in order.
pub open spec fn server_wraps(steps: Seq<ServerStep>, dir_round: u16) -> Seq<int> {
    wraps_of(server_passes(steps), dir_round)
}

/// A server goes through its readings as both programs do.
proof fn lemma_server_sweeps(steps: Seq<ServerStep>, dir_round: u16, started: u128)
    requires
        server_run(steps, dir_round, started),
    ensures
        sweep_run(server_passes(steps), dir_round, started),
{
    let passes = server_passes(steps);
    assert forall|j: int| 0 <= j < passes.len() implies (#[trigger] passes[j]).made(dir_round) by {
        assert(steps[j].made(dir_round));
    }
    assert forall|j: int| 0 < j < passes.len() implies #[trigger] goes_on(passes, j) by {
        assert(serves_on(steps, j));
    }
}

/// A reading publishes a snapshot exactly if it begins a new turn.
proof fn lemma_publishes_at_wraps(
    steps: Seq<ServerStep>,
    dir_round: u16,
    started: u128,
    j: int,
)
    requires
        server_run(steps, dir_round, started),
        0 <= j < steps.len(),
    ensures
        steps[j].snapshot is Some <==> wraps_at(server_passes(steps), dir_round, j),
{
    lemma_server_sweeps(steps, dir_round, started);
    lemma_turns_end_at_wraps(server_passes(steps), dir_round, started, j);
    assert(steps[j].made(dir_round));
}

/// The number of scans before reading `n` is that of the turns that were complete by then.
proof fn lemma_scan_number(steps: Seq<ServerStep>, dir_round: u16, started: u128, n: int)
    requires
        server_run(steps, dir_round, started),
        0 <= n < steps.len(),
    ensures
        steps[n].before.scan_number == wrapping(server_passes(steps), dir_round, n).len(),
    decreases n,
{
    if n > 0 {
        lemma_scan_number(steps, dir_round, started, n - 1);
        lemma_publishes_at_wraps(steps, dir_round, started, n - 1);
        assert(steps[n - 1].made(dir_round));
        assert(serves_on(steps, n));
    }
}

proof fn lemma_published(steps: Seq<ServerStep>, dir_round: u16, started: u128, n: int)
    requires
        server_run(steps, dir_round, started),
        0 <= n <= steps.len(),
    ensures
        ({
            let w = wrapping(server_passes(steps), dir_round, n);
            let s = snapshots_until(steps, n);
            &&& s.len() == w.len()
            &&& forall|k: int|
                0 <= k < s.len() ==> steps[w[k]].snapshot == Some(#[trigger] s[k])
                    && s[k].scan_number == k + 1
        }),
    decreases n,
{
    if n > 0 {
        lemma_published(steps, dir_round, started, n - 1);
        lemma_publishes_at_wraps(steps, dir_round, started, n - 1);
        lemma_scan_number(steps, dir_round, started, n - 1);
        assert(steps[n - 1].made(dir_round));
        let v = wrapping(server_passes(steps), dir_round, n - 1);
        let w = wrapping(server_passes(steps), dir_round, n);
        let s = snapshots_until(steps, n);
        assert forall|k: int| 0 <= k < s.len() implies steps[w[k]].snapshot == Some(
            #[trigger] s[k],
        ) && s[k].scan_number == k + 1 by {
            if k < v.len() {
                assert(s[k] == snapshots_until(steps, n - 1)[k]);
            }
        }
    }
}

/// Snapshots come exactly at the readings that begin a new turn, and are numbered from 1 on. The
/// first reading publishes nothing, and neither does one that falls back in the first half of a
/// turn or does not fall back at all.
pub proof fn lemma_snapshots_come_at_wraps(
    steps: Seq<ServerStep>,
    dir_round: u16,
    started: u128,
)
    requires
        server_run(steps, dir_round, started),
    ensures
        ({
            let w = server_wraps(steps, dir_round);
            let s = snapshots(steps);
            &&& s.len() == w.len()
            &&& forall|k: int|
                0 <= k < s.len() ==> steps[w[k]].snapshot == Some(#[trigger] s[k])
                    && s[k].scan_number == k + 1
        }),
        forall|j: int|
            0 <= j < steps.len() ==> ((#[trigger] steps[j]).snapshot is Some <==> wraps_at(
                server_passes(steps),
                dir_round,
                j,
            )),
        steps.len() > 0 ==> steps[0].snapshot is None,
        forall|j: int|
            0 < j < steps.len() && (steps[j - 1].dir <= dir_round / 2 || steps[j - 1].dir
                <= steps[j].dir) ==> (#[trigger] steps[j]).snapshot is None,
{
    lemma_published(steps, dir_round, started, steps.len() as int);
    assert forall|j: int| 0 <= j < steps.len() implies ((
    #[trigger] steps[j]).snapshot is Some <==> wraps_at(server_passes(steps), dir_round, j)) by {
        lemma_publishes_at_wraps(steps, dir_round, started, j);
    }
}

/// Snapshot `k` is published by a reading that is there, and tells about the server as it was then.
proof fn lemma_snapshot_step(
    steps: Seq<ServerStep>,
    dir_round: u16,
    started: u128,
    k: int,
)
    requires
        server_run(steps, dir_round, started),
        0 <= k < snapshots(steps).len(),
    ensures
        k < server_wraps(steps, dir_round).len(),
        ({
            let j = server_wraps(steps, dir_round)[k];
            let s = snapshots(steps)[k];
            let ready = server_passes(steps)[j].ready;
            &&& 0 < j < steps.len()
            &&& steps[j].made(dir_round)
            &&& tells_points(s.points@, server_passes(steps)[j].before.points)
            &&& is_calibrating(s) <==> ready.phase is Calibrating
            &&& is_detecting(s) <==> ready.phase is Detecting
            &&& ready.phase matches PhaseView::Detecting { background } ==> s.background@
                == background
        }),
{
    lemma_snapshots_come_at_wraps(steps, dir_round, started);
    lemma_wrapping_is_complete(server_passes(steps), dir_round, steps.len() as int);
    let j = server_wraps(steps, dir_round)[k];
    let s = snapshots(steps)[k];
    assert(0 < j < steps.len());
    assert(steps[j].made(dir_round));
    assert("calibrating"@ != "detecting"@) by {
        reveal_strlit("calibrating");
        reveal_strlit("detecting");
        assert("calibrating"@.len() != "detecting"@.len());
    }
}

/// A snapshot carries the points of its turn: one for each reading in range, in order, from the
/// one that ends the turn before it, or the first of all, up to but without the one that ends its
/// own, each with the mark it was given when it was read. There are no others.
pub proof fn lemma_snapshots_carry_their_turn(
    steps: Seq<ServerStep>,
    dir_round: u16,
    started: u128,
    k: int,
)
    requires
        server_run(steps, dir_round, started),
        0 <= k < snapshots(steps).len(),
    ensures
        tells_points(
            snapshots(steps)[k].points@,
            points_read(turn_of(server_passes(steps), dir_round, k)),
        ),
{
    lemma_server_sweeps(steps, dir_round, started);
    lemma_snapshot_step(steps, dir_round, started, k);
    lemma_turns_have_their_points(server_passes(steps), dir_round, started, k);
}

/// A snapshot from the time of calibration.
pub open spec fn is_calibrating(s: ScanSnapshot) -> bool {
    s.phase@ == "calibrating"@
}

/// A snapshot from the time after calibration.
pub open spec fn is_detecting(s: ScanSnapshot) -> bool {
    s.phase@ == "detecting"@
}

/// A snapshot in which no point is marked as moving.
pub open spec fn at_rest(s: ScanSnapshot) -> bool {
    forall|i: int|
        0 <= i < s.points@.len() ==> (#[trigger] s.points@[i])@[2] == (Double { bits: ZERO })
}

/// The phases of a run: its snapshots are of the time of calibration any number of times, and of
/// the time after it from then on. Those of the time after it all carry the same background.
pub proof fn lemma_detection_follows_calibration(
    steps: Seq<ServerStep>,
    dir_round: u16,
    started: u128,
)
    requires
        server_run(steps, dir_round, started),
    ensures
        ({
            let s = snapshots(steps);
            &&& forall|k: int|
                0 <= k < s.len() ==> (is_calibrating(#[trigger] s[k]) <==> !is_detecting(s[k]))
            &&& forall|i: int, j: int|
                0 <= i <= j < s.len() && is_detecting(#[trigger] s[i]) ==> is_detecting(
                    #[trigger] s[j],
                ) && s[j].background@ == s[i].background@
        }),
{
    let passes = server_passes(steps);
    let w = server_wraps(steps, dir_round);
    let s = snapshots(steps);
    lemma_server_sweeps(steps, dir_round, started);
    lemma_wrapping_is_complete(passes, dir_round, passes.len() as int);
    assert forall|k: int| 0 <= k < s.len() implies (is_calibrating(#[trigger] s[k])
        <==> !is_detecting(s[k])) by {
        lemma_snapshot_step(steps, dir_round, started, k);
    }
    assert forall|i: int, j: int|
        0 <= i <= j < s.len() && is_detecting(#[trigger] s[i]) implies is_detecting(
        #[trigger] s[j],
    ) && s[j].background@ == s[i].background@ by {
        lemma_snapshot_step(steps, dir_round, started, i);
        lemma_snapshot_step(steps, dir_round, started, j);
        assert(w[i] <= w[j]);
        lemma_detecting_lasts(passes, dir_round, started, w[i], w[j]);
    }
}

/// Snapshot `k` tells about a turn that calibrates: it is the first, or the one before it is of the
/// time of calibration.
proof fn lemma_snapshot_calibrates(
    steps: Seq<ServerStep>,
    dir_round: u16,
    started: u128,
    k: int,
)
    requires
        server_run(steps, dir_round, started),
        0 <= k < snapshots(steps).len(),
        k == 0 || is_calibrating(snapshots(steps)[k - 1]),
    ensures
        turn_calibrates(server_passes(steps), dir_round, k),
{
    if k > 0 {
        lemma_snapshot_step(steps, dir_round, started, k - 1);
    }
}

/// No point of a snapshot of the time of calibration is marked as moving, nor is one of the first
/// snapshot after it.
pub proof fn lemma_snapshots_are_at_rest(
    steps: Seq<ServerStep>,
    dir_round: u16,
    started: u128,
    k: int,
)
    requires
        server_run(steps, dir_round, started),
        0 <= k < snapshots(steps).len(),
        is_calibrating(snapshots(steps)[k]) || k == 0 || is_calibrating(snapshots(steps)[k - 1]),
    ensures
        at_rest(snapshots(steps)[k]),
{
    let passes = server_passes(steps);
    let s = snapshots(steps);
    if k > 0 {
        lemma_detection_follows_calibration(steps, dir_round, started);
        assert(is_detecting(s[k - 1]) ==> is_detecting(s[k]));
    }
    lemma_server_sweeps(steps, dir_round, started);
    lemma_snapshot_step(steps, dir_round, started, k);
    lemma_snapshot_calibrates(steps, dir_round, started, k);
    lemma_snapshots_carry_their_turn(steps, dir_round, started, k);
    lemma_nothing_moves_while_calibrating(passes, dir_round, started, k);
    let points = points_read(turn_of(passes, dir_round, k));
    assert forall|i: int| 0 <= i < s[k].points@.len() implies (#[trigger] s[k].points@[i])@[2] == (
    Double { bits: ZERO }) by {
        assert(tells_point(s[k].points@[i], points[i]));
        assert(!points[i].is_motion);
    }
}

/// A snapshot is of the time of calibration exactly if neither its turn nor an earlier one ended
/// when calibration had lasted long enough.
pub proof fn lemma_snapshots_tell_the_time(
    steps: Seq<ServerStep>,
    dir_round: u16,
    started: u128,
    k: int,
)
    requires
        server_run(steps, dir_round, started),
        0 <= k < snapshots(steps).len(),
    ensures
        ({
            let w = server_wraps(steps, dir_round);
            is_calibrating(snapshots(steps)[k]) <==> forall|i: int|
                0 <= i <= k ==> elapsed(started, steps[#[trigger] w[i]].now) < CALIBRATION
        }),
{
    let passes = server_passes(steps);
    let w = server_wraps(steps, dir_round);
    lemma_server_sweeps(steps, dir_round, started);
    lemma_snapshot_step(steps, dir_round, started, k);
    lemma_wrapping_is_complete(passes, dir_round, passes.len() as int);
    lemma_calibration_takes_its_time(passes, dir_round, started, k);
    assert forall|i: int| 0 <= i <= k implies passes[#[trigger] w[i]].now == steps[w[i]].now by {}
}

/// What a run learns: the background of the first snapshot after calibration, and so of all that
/// follow, is that of all readings in range that came before it.
pub proof fn lemma_snapshots_carry_what_was_learned(
    steps: Seq<ServerStep>,
    dir_round: u16,
    started: u128,
    k: int,
)
    requires
        server_run(steps, dir_round, started),
        0 <= k < snapshots(steps).len(),
        is_detecting(snapshots(steps)[k]),
        k == 0 || is_calibrating(snapshots(steps)[k - 1]),
    ensures
        ({
            let passes = server_passes(steps);
            let read = readings(passes.take(server_wraps(steps, dir_round)[k]));
            snapshots(steps)[k].background@ == Seq::new(
                ANGLE_BINS as nat,
                |b: int| background_of(distances_in(read, b)),
            )
        }),
{
    lemma_server_sweeps(steps, dir_round, started);
    lemma_snapshot_step(steps, dir_round, started, k);
    lemma_snapshot_calibrates(steps, dir_round, started, k);
    lemma_calibration_ends_in_time(server_passes(steps), dir_round, started, k);
}

/// One reading as the viewer goes through it: `before`, the direction is noted, which leads to
/// `turned`; if a turn is complete then, its scan is finished, which leads to `shown`, and the next
/// one begun, which leads to `ready`; and the reading is taken, which leads to `after`.
pub struct ViewerStep {
    pub dir: u16,
    pub mm: u32,
    pub at: Point,
    /// When the direction is noted.
    pub now: u128,
    pub clusters: Seq<Cluster>,
    pub distance: Seq<Vec<Double>>,
    pub ranges: Seq<Double>,
    pub angles: Seq<Double>,
    /// When the scan is finished.
    pub finished: u128,
    pub before: Viewer,
    pub turned: Viewer,
    pub turn: Turn,
    pub shown: Viewer,
    pub sighting: Option<Sighting>,
    pub ready: Viewer,
    pub after: Viewer,
}

impl ViewerStep {
    /// The viewer goes through the reading: a scan is finished exactly if `turn` says that a turn
    /// is complete.
    pub open spec fn made(self, dir_round: u16) -> bool {
        &&& self.before.turns(self.dir, dir_round, self.now, self.turned, self.turn)
        &&& match self.sighting {
            Some(s) => {
                &&& self.turn is Done
                &&& self.turned.finishes(
                    self.clusters,
                    self.distance,
                    self.ranges,
                    self.angles,
                    self.finished,
                    self.shown,
                    s,
                )
                &&& self.shown.clears(self.ready)
            },
            None => self.turn is Going && self.ready == self.turned,
        }
        &&& self.ready.takes(self.dir, self.mm, self.at, self.after)
    }

    /// The reading, as far as it is the same in both programs.
    pub open spec fn pass(self) -> Pass {
        Pass {
            dir: self.dir,
            mm: self.mm,
            at: self.at,
            now: self.now,
            before: viewer_sweep(self.before),
            ready: viewer_sweep(self.ready),
            after: viewer_sweep(self.after),
        }
    }

    /// Someone is sighted.
    pub open spec fn sights(self) -> bool {
        self.sighting matches Some(s) && s.angle is Some
    }

    /// There is a bark.
    pub open spec fn barks(self) -> bool {
        self.sighting matches Some(s) && s.bark
    }
}

/// The viewer goes on with reading `j` where it was left by the one before.
pub open spec fn looks_on(steps: Seq<ViewerStep>, j: int) -> bool {
    steps[j].before == steps[j - 1].after
}

/// A run of readings from the start of a viewer at `started`.
pub open spec fn viewer_run(steps: Seq<ViewerStep>, dir_round: u16, started: u128) -> bool {
    &&& steps.len() > 0 ==> steps[0].before.starts(started)
    &&& forall|j: int| 0 <= j < steps.len() ==> (#[trigger] steps[j]).made(dir_round)
    &&& forall|j: int| 0 < j < steps.len() ==> #[trigger] looks_on(steps, j)
}

/// What a viewer keeps from reading to reading, as far as it is the same in both programs.
pub open spec fn viewer_sweep(v: Viewer) -> Sweep {
    Sweep { last_dir: v.last_dir, phase: v.phase@, points: v.scan.points@ }
}

/// The readings of a viewer.
pub open spec fn viewer_passes(steps: Seq<ViewerStep>) -> Seq<Pass> {
    steps.map_values(|st: ViewerStep| st.pass())
}

/// The readings of a run of a viewer that begin a new turn, in order.
pub open spec fn viewer_wraps(steps: Seq<ViewerStep>, dir_round: u16) -> Seq<int> {
    wraps_of(viewer_passes(steps), dir_round)
}

/// A viewer goes through its readings as both programs do.
proof fn lemma_viewer_sweeps(steps: Seq<ViewerStep>, dir_round: u16, started: u128)
    requires
        viewer_run(steps, dir_round, started),
    ensures
        sweep_run(viewer_passes(steps), dir_round, started),
{
    let passes = viewer_passes(steps);
    assert forall|j: int| 0 <= j < passes.len() implies (#[trigger] passes[j]).made(dir_round) by {
        assert(steps[j].made(dir_round));
    }
    assert forall|j: int| 0 < j < passes.len() implies #[trigger] goes_on(passes, j) by {
        assert(looks_on(steps, j));
    }
}

/// Scans are finished exactly at the readings that begin a new turn.
pub proof fn lemma_scans_finish_at_wraps(
    steps: Seq<ViewerStep>,
    dir_round: u16,
    started: u128,
    j: int,
)
    requires
        viewer_run(steps, dir_round, started),
        0 <= j < steps.len(),
    ensures
        steps[j].sighting is Some <==> wraps_at(viewer_passes(steps), dir_round, j),
{
    lemma_viewer_sweeps(steps, dir_round, started);
    lemma_turns_end_at_wraps(viewer_passes(steps), dir_round, started, j);
    assert(steps[j].made(dir_round));
}

/// The scan that is shown when turn `k` is complete has the points of that turn, and the phase is
/// the one that comes after it. While calibrating and in the first scan after that no point is
/// marked as moving.
pub proof fn lemma_scans_show_their_turn(
    steps: Seq<ViewerStep>,
    dir_round: u16,
    started: u128,
    k: int,
)
    requires
        viewer_run(steps, dir_round, started),
        0 <= k < viewer_wraps(steps, dir_round).len(),
    ensures
        ({
            let passes = viewer_passes(steps);
            let shown = steps[viewer_wraps(steps, dir_round)[k]].shown;
            &&& shown.scan.points@ == points_read(turn_of(passes, dir_round, k))
            &&& shown.phase@ == passes[viewer_wraps(steps, dir_round)[k]].ready.phase
            &&& turn_calibrates(passes, dir_round, k) ==> forall|i: int|
                0 <= i < shown.scan.points@.len() ==> !(
                #[trigger] shown.scan.points@[i]).is_motion
        }),
{
    let passes = viewer_passes(steps);
    let j = viewer_wraps(steps, dir_round)[k];
    lemma_viewer_sweeps(steps, dir_round, started);
    lemma_turns_do_not_overlap(passes, dir_round, k);
    lemma_wrapping_is_complete(passes, dir_round, passes.len() as int);
    lemma_turns_have_their_points(passes, dir_round, started, k);
    assert(wraps_at(passes, dir_round, j));
    lemma_scans_finish_at_wraps(steps, dir_round, started, j);
    assert(steps[j].made(dir_round));
    if turn_calibrates(passes, dir_round, k) {
        lemma_nothing_moves_while_calibrating(passes, dir_round, started, k);
    }
}

/// Once calibration is over, it stays over, and every scan is shown with the same background.
pub proof fn lemma_shown_background_is_fixed(
    steps: Seq<ViewerStep>,
    dir_round: u16,
    started: u128,
    i: int,
    k: int,
)
    requires
        viewer_run(steps, dir_round, started),
        0 <= i <= k < viewer_wraps(steps, dir_round).len(),
        steps[viewer_wraps(steps, dir_round)[i]].shown.phase@ is Detecting,
    ensures
        ({
            let w = viewer_wraps(steps, dir_round);
            steps[w[k]].shown.phase@ == steps[w[i]].shown.phase@
        }),
{
    let passes = viewer_passes(steps);
    let w = viewer_wraps(steps, dir_round);
    lemma_viewer_sweeps(steps, dir_round, started);
    lemma_wrapping_is_complete(passes, dir_round, passes.len() as int);
    lemma_scans_show_their_turn(steps, dir_round, started, i);
    lemma_scans_show_their_turn(steps, dir_round, started, k);
    assert(0 < w[i] <= w[k] < passes.len());
    lemma_detecting_lasts(passes, dir_round, started, w[i], w[k]);
}

/// What the viewer remembers of its barks before reading `n`: when the last one was, which is no
/// earlier than any other.
proof fn lemma_last_bark(steps: Seq<ViewerStep>, dir_round: u16, started: u128, n: int)
    requires
        viewer_run(steps, dir_round, started),
        0 <= n < steps.len(),
    ensures
        match steps[n].before.last_bark {
            Some(t) => {
                &&& exists|i: int|
                    0 <= i < n && (#[trigger] steps[i]).barks() && steps[i].finished == t
                &&& forall|i: int|
                    0 <= i < n && (#[trigger] steps[i]).barks() ==> steps[i].finished <= t
            },
            None => forall|i: int| 0 <= i < n ==> !(#[trigger] steps[i]).barks(),
        },
    decreases n,
{
    if n > 0 {
        lemma_last_bark(steps, dir_round, started, n - 1);
        assert(steps[n - 1].made(dir_round));
        assert(looks_on(steps, n));
    }
}

/// Barks over a run: there is one exactly if someone is sighted and all earlier barks are at least
/// the cooldown ago. So no two barks come closer together than that.
pub proof fn lemma_barks_over_a_run(
    steps: Seq<ViewerStep>,
    dir_round: u16,
    started: u128,
    j: int,
)
    requires
        viewer_run(steps, dir_round, started),
        0 <= j < steps.len(),
    ensures
        steps[j].barks() <==> steps[j].sights() && forall|i: int|
            0 <= i < j && (#[trigger] steps[i]).barks() ==> steps[i].finished + BARK_COOLDOWN
                <= steps[j].finished,
{
    lemma_last_bark(steps, dir_round, started, j);
    assert(steps[j].made(dir_round));
}

/// Nobody is sighted before calibration has lasted long enough, and nothing barks.
pub proof fn lemma_nobody_is_sighted_while_calibrating(
    steps: Seq<ViewerStep>,
    dir_round: u16,
    started: u128,
    k: int,
)
    requires
        viewer_run(steps, dir_round, started),
        0 <= k < viewer_wraps(steps, dir_round).len(),
        forall|i: int|
            0 <= i <= k ==> elapsed(
                started,
                steps[#[trigger] viewer_wraps(steps, dir_round)[i]].now,
            ) < CALIBRATION,
    ensures
        !steps[viewer_wraps(steps, dir_round)[k]].sights(),
        !steps[viewer_wraps(steps, dir_round)[k]].barks(),
{
    let passes = viewer_passes(steps);
    let w = viewer_wraps(steps, dir_round);
    lemma_viewer_sweeps(steps, dir_round, started);
    lemma_wrapping_is_complete(passes, dir_round, passes.len() as int);
    assert forall|i: int| 0 <= i <= k implies elapsed(started, passes[#[trigger] w[i]].now)
        < CALIBRATION by {
        assert(passes[w[i]].now == steps[w[i]].now);
    }
    lemma_calibration_takes_its_time(passes, dir_round, started, k);
    assert(0 < w[k] < passes.len());
    assert(steps[w[k]].made(dir_round));
}

/// Every turn is published: a reading that follows another publishes a snapshot exactly if its
/// direction falls back from one in the second half of a turn. The first one never does.
pub proof fn lemma_every_turn_is_published(
    steps: Seq<ServerStep>,
    dir_round: u16,
    started: u128,
    j: int,
)
    requires
        server_run(steps, dir_round, started),
        0 <= j < steps.len(),
    ensures
        steps[j].snapshot is Some <==> 0 < j && steps[j - 1].dir != 65_535 && steps[j].dir
            < steps[j - 1].dir && 2 * steps[j - 1].dir > dir_round,
        steps[j].turn is Done <==> steps[j].snapshot is Some,
        steps[j].snapshot is Some ==> steps[j].after.scan_number == steps[j].before.scan_number + 1,
        steps[j].snapshot is None ==> steps[j].after.scan_number == steps[j].before.scan_number,
{
    lemma_publishes_at_wraps(steps, dir_round, started, j);
    assert(steps[j].made(dir_round));
}

/// Every turn is shown: a reading that follows another finishes a scan exactly if its direction
/// falls back from one in the second half of a turn. The first one never does.
pub proof fn lemma_every_turn_is_finished(
    steps: Seq<ViewerStep>,
    dir_round: u16,
    started: u128,
    j: int,
)
    requires
        viewer_run(steps, dir_round, started),
        0 <= j < steps.len(),
    ensures
        steps[j].sighting is Some <==> 0 < j && steps[j - 1].dir != 65_535 && steps[j].dir
            < steps[j - 1].dir && 2 * steps[j - 1].dir > dir_round,
        steps[j].turn is Done <==> steps[j].sighting is Some,
{
    lemma_scans_finish_at_wraps(steps, dir_round, started, j);
    assert(steps[j].made(dir_round));
}

/// Every reading of a run in range is a point of it: after reading `j` the last point of the scan
/// under way is where it was made, and nothing else is added. Out of range nothing is. While
/// calibrating it does not count as motion; then it does wherever there is no background.
pub proof fn lemma_every_reading_is_a_point(
    steps: Seq<ServerStep>,
    dir_round: u16,
    started: u128,
    j: int,
)
    requires
        server_run(steps, dir_round, started),
        0 <= j < steps.len(),
        steps[j].ready.wf(),
    ensures
        ({
            let st = steps[j];
            let points = if st.snapshot is Some {
                Seq::<ScanPoint>::empty()
            } else {
                st.before.raw_points@
            };
            let b = st.dir as int / 100 % 360;
            &&& st.mm == 0 || st.mm > 4000 ==> st.after.raw_points@ == points
            &&& 1 <= st.mm <= 4000 ==> {
                &&& st.after.raw_points@ == points.push(st.after.raw_points@.last())
                &&& st.after.raw_points@.last().at == st.at
                &&& match st.ready.phase@ {
                    PhaseView::Calibrating { .. } => !st.after.raw_points@.last().is_motion,
                    PhaseView::Detecting { background } => background[b] is None
                        ==> st.after.raw_points@.last().is_motion,
                }
            }
        }),
{
    let st = steps[j];
    assert(st.made(dir_round));
    lemma_server_takes(st.ready, st.dir, st.mm, st.at, st.after);
}

/// Calibration ends with the first turn that is complete 30 seconds after the start or later:
/// before that no snapshot is of the time after it, and from that turn on every one is.
pub proof fn lemma_calibration_lasts_thirty_seconds(
    steps: Seq<ServerStep>,
    dir_round: u16,
    started: u128,
    k: int,
)
    requires
        server_run(steps, dir_round, started),
        0 <= k < snapshots(steps).len(),
    ensures
        ({
            let w = server_wraps(steps, dir_round);
            let s = snapshots(steps)[k];
            &&& steps[w[k]].now >= started + 30_000_000_000 ==> s.phase@ == "detecting"@
            &&& (forall|i: int| 0 <= i <= k ==> steps[#[trigger] w[i]].now < started
                + 30_000_000_000) ==> s.phase@ == "calibrating"@
        }),
{
    let w = server_wraps(steps, dir_round);
    lemma_snapshots_tell_the_time(steps, dir_round, started, k);
    lemma_detection_follows_calibration(steps, dir_round, started);
    let s = snapshots(steps)[k];
    if steps[w[k]].now >= started + 30_000_000_000 {
        assert(elapsed(started, steps[w[k]].now) >= CALIBRATION);
        assert(!is_calibrating(s));
    }
}

/// No two barks are less than 5 seconds apart, and a human that is sighted 5 seconds after the
/// last bark or later, or before any, is barked at.
pub proof fn lemma_barks_are_five_seconds_apart(
    steps: Seq<ViewerStep>,
    dir_round: u16,
    started: u128,
    j: int,
)
    requires
        viewer_run(steps, dir_round, started),
        0 <= j < steps.len(),
    ensures
        forall|i: int|
            0 <= i < j && steps[j].barks() && (#[trigger] steps[i]).barks() ==> steps[i].finished
                + 5_000_000_000 <= steps[j].finished,
        steps[j].sights() && (forall|i: int|
            0 <= i < j && (#[trigger] steps[i]).barks() ==> steps[i].finished + 5_000_000_000
                <= steps[j].finished) ==> steps[j].barks(),
        steps[j].barks() ==> steps[j].sights(),
{
    lemma_barks_over_a_run(steps, dir_round, started, j);
}

} // verus!
