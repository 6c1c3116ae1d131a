//! The two programs, reading by reading: what each does with what the sensor says.
//!
//! A reading first goes to `turn`, which tells whether a turn of the sensor is complete. If it is,
//! the caller has the foreground divided into clusters and hands them to `finish` or `publish`.
//! Either way the reading itself then goes to `take`.

use crate::calibration::{
    bin_of, elapsed, finished, foreground, fresh, in_range, is_motion,
    lemma_motion_is_what_differs, locked, locked_bins, maybe_finish_calibration, motion_places,
    start_calibration, take_reading, time_since, with_sample, Phase, PhaseView, ScanPoint,
    ANGLE_BINS,
};
use crate::double::{Double, Point};
use crate::frame::Scan;
use crate::snapshot::{
    build_snapshot, lemma_calibrating_snapshot, lemma_detecting_snapshot, tells_calibrating,
    tells_detecting, ScanSnapshot,
};
use crate::tracker::{
    closest, closest_human_angle, clusters_after, countable, human, just_seen,
    lemma_closest_is_nearest, lemma_clusters_len, lemma_direction_is_kept, lemma_human_marks,
    lemma_one_track_per_human, lemma_tracks_stay_fresh, tracks_after, update_tracks,
    within_half_turn, Cluster, HumanTrack,
};
use vstd::prelude::*;

verus! {

/// The direction that no reading has had yet.
pub const NO_DIR: u16 = u16::MAX;

/// How long after a bark the next one may come, in nanoseconds.
pub const BARK_COOLDOWN: u128 = 5_000_000_000;

/// A direction after `last_dir` that begins a new turn: it falls back from the second half of a
/// turn of `dir_round`.
pub open spec fn wraps(last_dir: u16, dir: u16, dir_round: u16) -> bool {
    last_dir != NO_DIR && dir < last_dir && last_dir > dir_round / 2
}

/// Whether a direction begins a new turn.
pub fn is_wrapped(last_dir: u16, dir: u16, dir_round: u16) -> (r: bool)
    ensures
        r <==> last_dir != 65_535 && dir < last_dir && dir_round < 2 * last_dir,
        r == wraps(last_dir, dir, dir_round),
{
    last_dir != NO_DIR && dir < last_dir && last_dir > dir_round / 2
}

/// Whether a turn is complete, and what came out of it.
#[derive(Debug, PartialEq, Eq)]
pub enum Turn {
    Going,
    Done {
        /// How many bins have a background distance, if calibration just ended.
        locked: Option<usize>,
        /// The places of what moved, if calibration is over.
        foreground: Option<Vec<Point>>,
    },
}

/// `t` is what comes out of a turn with the given points that ends at `now`.
pub open spec fn turn_done(t: Turn, phase: PhaseView, points: Seq<ScanPoint>, now: u128) -> bool {
    &&& t is Done
    &&& match (phase, finished(phase, now)) {
        (PhaseView::Calibrating { .. }, PhaseView::Detecting { background }) => t->locked matches
            Some(n) && n == background.filter(locked()).len(),
        _ => t->locked is None,
    }
    &&& match finished(phase, now) {
        PhaseView::Detecting { .. } => t->foreground matches Some(f) && f@ == motion_places(points),
        PhaseView::Calibrating { .. } => t->foreground is None,
    }
}

/// Ends a turn: the phase moves on if it is time, and what moved is picked out.
fn end_turn(phase: &mut Phase, points: &Vec<ScanPoint>, now: u128) -> (t: Turn)
    requires
        old(phase)@.wf(),
    ensures
        final(phase)@ == finished(old(phase)@, now),
        final(phase)@.wf(),
        turn_done(t, old(phase)@, points@, now),
{
    let mut before: Phase = Phase::Detecting { background: Vec::new() };
    std::mem::swap(phase, &mut before);
    let calibrating: bool = match &before {
        Phase::Calibrating { .. } => true,
        Phase::Detecting { .. } => false,
    };
    *phase = maybe_finish_calibration(before, now);
    match &*phase {
        Phase::Calibrating { .. } => Turn::Done { locked: None, foreground: None },
        Phase::Detecting { background } => Turn::Done {
            locked: if calibrating {
                Some(locked_bins(background))
            } else {
                None
            },
            foreground: Some(foreground(points)),
        },
    }
}

/// The program that serves snapshots.
#[derive(Debug, PartialEq, Eq)]
pub struct Server {
    pub phase: Phase,
    pub raw_points: Vec<ScanPoint>,
    pub last_dir: u16,
    pub scan_number: u64,
    pub tracks: Vec<HumanTrack>,
}

impl Server {
    /// There is one entry per bin, and no track has been unseen for as long as can be counted.
    pub open spec fn wf(self) -> bool {
        self.phase@.wf() && countable(self.tracks@)
    }

    /// This server has just started, at `now`: it is calibrating and has seen nothing.
    pub open spec fn starts(self, now: u128) -> bool {
        &&& self.phase@ == fresh(now)
        &&& self.raw_points@ == Seq::<ScanPoint>::empty()
        &&& self.last_dir == NO_DIR
        &&& self.scan_number == 0
        &&& self.tracks@ == Seq::<HumanTrack>::empty()
    }

    /// Noting direction `dir` at `now` makes this server into `after`, and `t` comes out of it. If
    /// the direction begins a new turn, there is one more scan, and the phase moves on when due.
    pub open spec fn turns(
        self,
        dir: u16,
        dir_round: u16,
        now: u128,
        after: Server,
        t: Turn,
    ) -> bool {
        &&& after.last_dir == dir
        &&& after.raw_points == self.raw_points
        &&& after.tracks == self.tracks
        &&& if wraps(self.last_dir, dir, dir_round) {
            &&& after.scan_number == self.scan_number + 1
            &&& after.phase@ == finished(self.phase@, now)
            &&& turn_done(t, self.phase@, self.raw_points@, now)
        } else {
            &&& after.scan_number == self.scan_number
            &&& after.phase == self.phase
            &&& t is Going
        }
    }

    /// Summing up a scan makes this server into `after`, and `s` tells about the scan. Its points
    /// are gone then; its clusters have been matched with the tracks, if calibration is over.
    pub open spec fn publishes(
        self,
        clusters: Seq<Cluster>,
        distance: Seq<Vec<Double>>,
        now: u128,
        since_epoch_ms: Option<u128>,
        after: Server,
        s: ScanSnapshot,
    ) -> bool {
        &&& after.phase == self.phase
        &&& after.last_dir == self.last_dir
        &&& after.scan_number == self.scan_number
        &&& after.raw_points@ == Seq::<ScanPoint>::empty()
        &&& match self.phase@ {
            PhaseView::Calibrating { started, samples } => {
                &&& after.tracks@ == self.tracks@
                &&& tells_calibrating(
                    s,
                    self.raw_points@,
                    started,
                    self.scan_number,
                    now,
                    since_epoch_ms,
                )
            },
            PhaseView::Detecting { background } => {
                &&& after.tracks@ == tracks_after(self.tracks@, clusters, distance)
                &&& tells_detecting(
                    s,
                    self.raw_points@,
                    background,
                    clusters_after(self.tracks@, clusters, distance),
                    self.scan_number,
                    since_epoch_ms,
                )
            },
        }
    }

    /// Taking a reading makes this server into `after`: one in range counts towards calibration
    /// while that lasts, and is one more point of the scan. Any other changes nothing.
    pub open spec fn takes(self, dir: u16, mm: u32, at: Point, after: Server) -> bool {
        &&& after.last_dir == self.last_dir
        &&& after.scan_number == self.scan_number
        &&& after.tracks == self.tracks
        &&& after.phase@ == if in_range(mm) {
            with_sample(self.phase@, bin_of(dir), mm)
        } else {
            self.phase@
        }
        &&& after.raw_points@ == if in_range(mm) {
            self.raw_points@.push(
                ScanPoint { at, is_motion: is_motion(self.phase@, bin_of(dir), mm) },
            )
        } else {
            self.raw_points@
        }
    }

    /// Starts calibrating.
    pub fn new(now: u128) -> (s: Server)
        ensures
            s.wf(),
            s.starts(now),
    {
        Server {
            phase: start_calibration(now),
            raw_points: Vec::new(),
            last_dir: NO_DIR,
            scan_number: 0,
            tracks: Vec::new(),
        }
    }

    /// Notes the direction of the next reading. If it begins a new turn, the scan of the last one
    /// is complete and gets a number.
    pub fn turn(&mut self, dir: u16, dir_round: u16, now: u128) -> (t: Turn)
        requires
            old(self).wf(),
            wraps(old(self).last_dir, dir, dir_round) ==> old(self).scan_number < u64::MAX,
        ensures
            final(self).wf(),
            old(self).turns(dir, dir_round, now, *final(self), t),
    {
        let wrapped: bool = is_wrapped(self.last_dir, dir, dir_round);
        self.last_dir = dir;
        if wrapped {
            self.scan_number += 1;
            end_turn(&mut self.phase, &self.raw_points, now)
        } else {
            Turn::Going
        }
    }

    /// Sums up the scan that is complete, with the clusters of its foreground, and begins the next
    /// one. See `build_snapshot` for the parameters.
    pub fn publish(
        &mut self,
        clusters: Vec<Cluster>,
        distance: &Vec<Vec<Double>>,
        now: u128,
        since_epoch_ms: Option<u128>,
    ) -> (s: ScanSnapshot)
        requires
            old(self).wf(),
            old(self).phase@ is Detecting ==> {
                &&& distance@.len() == clusters@.len()
                &&& forall|c: int|
                    0 <= c < distance@.len() ==> (#[trigger] distance@[c])@.len()
                        == old(self).tracks@.len()
            },
        ensures
            final(self).wf(),
            s.background@.len() == ANGLE_BINS,
            old(self).publishes(clusters@, distance@, now, since_epoch_ms, *final(self), s),
    {
        proof {
            lemma_tracks_stay_fresh(self.tracks@, clusters@, distance@);
        }
        let s: ScanSnapshot = build_snapshot(
            &self.raw_points,
            &self.phase,
            clusters,
            distance,
            &mut self.tracks,
            self.scan_number,
            now,
            since_epoch_ms,
        );
        self.raw_points.clear();
        s
    }

    /// Takes a reading. See `take_reading` for the parameters.
    pub fn take(&mut self, dir: u16, mm: u32, at: Point)
        requires
            old(self).wf(),
        ensures
            final(self).wf(),
            old(self).takes(dir, mm, at, *final(self)),
    {
        take_reading(&mut self.phase, &mut self.raw_points, dir, mm, at);
    }
}

/// A bark may come at `now`: there was none yet, or it was long enough ago.
pub open spec fn bark_due(last_bark: Option<u128>, now: u128) -> bool {
    match last_bark {
        Some(t) => elapsed(t, now) >= BARK_COOLDOWN,
        None => true,
    }
}

/// What a complete scan gives rise to.
#[derive(Clone, Copy, Debug, PartialEq, Eq)]
pub struct Sighting {
    /// The direction of the closest human, in degrees.
    pub angle: Option<Double>,
    /// Whether to bark at it.
    pub bark: bool,
}

/// The program that shows the live view and barks at humans.
#[derive(Debug, PartialEq, Eq)]
pub struct Viewer {
    pub phase: Phase,
    pub scan: Scan,
    pub last_dir: u16,
    pub tracks: Vec<HumanTrack>,
    pub last_bark: Option<u128>,
}

impl Viewer {
    /// There is one entry per bin, and no track has been unseen for as long as can be counted.
    pub open spec fn wf(self) -> bool {
        self.phase@.wf() && countable(self.tracks@)
    }

    /// This viewer has just started, at `now`: it is calibrating, has seen nothing and not barked.
    pub open spec fn starts(self, now: u128) -> bool {
        &&& self.phase@ == fresh(now)
        &&& self.scan.points@ == Seq::<ScanPoint>::empty()
        &&& self.scan.clusters@ == Seq::<Cluster>::empty()
        &&& self.last_dir == NO_DIR
        &&& self.tracks@ == Seq::<HumanTrack>::empty()
        &&& self.last_bark is None
    }

    /// Noting direction `dir` at `now` makes this viewer into `after`, and `t` comes out of it. If
    /// the direction begins a new turn, the phase moves on if it is time.
    pub open spec fn turns(
        self,
        dir: u16,
        dir_round: u16,
        now: u128,
        after: Viewer,
        t: Turn,
    ) -> bool {
        &&& after.last_dir == dir
        &&& after.scan == self.scan
        &&& after.tracks == self.tracks
        &&& after.last_bark == self.last_bark
        &&& if wraps(self.last_dir, dir, dir_round) {
            &&& after.phase@ == finished(self.phase@, now)
            &&& turn_done(t, self.phase@, self.scan.points@, now)
        } else {
            &&& after.phase == self.phase
            &&& t is Going
        }
    }

    /// Finishing a scan at `now` makes this viewer into `after`, and `s` comes out of it. While
    /// calibrating nobody is followed. Then the clusters have been matched with the tracks, the
    /// closest human has been sighted, and a bark comes if it is due.
    pub open spec fn finishes(
        self,
        clusters: Seq<Cluster>,
        distance: Seq<Vec<Double>>,
        ranges: Seq<Double>,
        angles: Seq<Double>,
        now: u128,
        after: Viewer,
        s: Sighting,
    ) -> bool {
        &&& after.phase == self.phase
        &&& after.last_dir == self.last_dir
        &&& after.scan.points == self.scan.points
        &&& match self.phase@ {
            PhaseView::Calibrating { .. } => {
                &&& after.scan.clusters@ == Seq::<Cluster>::empty()
                &&& after.tracks@ == Seq::<HumanTrack>::empty()
                &&& s.angle is None
            },
            PhaseView::Detecting { .. } => {
                let all = clusters_after(self.tracks@, clusters, distance);
                &&& after.scan.clusters@ == all
                &&& after.tracks@ == tracks_after(self.tracks@, clusters, distance)
                &&& match closest(all, ranges, all.len() as int) {
                    Some(k) => s.angle == Some(within_half_turn(angles[k])),
                    None => s.angle is None,
                }
            },
        }
        &&& s.bark == (s.angle is Some && bark_due(self.last_bark, now))
        &&& after.last_bark == if s.bark {
            Some(now)
        } else {
            self.last_bark
        }
    }

    /// Beginning the next scan makes this viewer into `after`: the points are gone.
    pub open spec fn clears(self, after: Viewer) -> bool {
        &&& after.phase == self.phase
        &&& after.scan.points@ == Seq::<ScanPoint>::empty()
        &&& after.scan.clusters == self.scan.clusters
        &&& after.last_dir == self.last_dir
        &&& after.tracks == self.tracks
        &&& after.last_bark == self.last_bark
    }

    /// Taking a reading makes this viewer into `after`: one in range counts towards calibration
    /// while that lasts, and is one more point of the scan. Any other changes nothing.
    pub open spec fn takes(self, dir: u16, mm: u32, at: Point, after: Viewer) -> bool {
        &&& after.last_dir == self.last_dir
        &&& after.scan.clusters == self.scan.clusters
        &&& after.tracks == self.tracks
        &&& after.last_bark == self.last_bark
        &&& after.phase@ == if in_range(mm) {
            with_sample(self.phase@, bin_of(dir), mm)
        } else {
            self.phase@
        }
        &&& after.scan.points@ == if in_range(mm) {
            self.scan.points@.push(
                ScanPoint { at, is_motion: is_motion(self.phase@, bin_of(dir), mm) },
            )
        } else {
            self.scan.points@
        }
    }

    /// Starts calibrating. The first bark may come at once.
    pub fn new(now: u128) -> (v: Viewer)
        ensures
            v.wf(),
            v.starts(now),
    {
        Viewer {
            phase: start_calibration(now),
            scan: Scan { points: Vec::new(), clusters: Vec::new() },
            last_dir: NO_DIR,
            tracks: Vec::new(),
            last_bark: None,
        }
    }

    /// Notes the direction of the next reading. If it begins a new turn, the scan of the last one
    /// is complete.
    pub fn turn(&mut self, dir: u16, dir_round: u16, now: u128) -> (t: Turn)
        requires
            old(self).wf(),
        ensures
            final(self).wf(),
            old(self).turns(dir, dir_round, now, *final(self), t),
    {
        let wrapped: bool = is_wrapped(self.last_dir, dir, dir_round);
        self.last_dir = dir;
        if wrapped {
            end_turn(&mut self.phase, &self.scan.points, now)
        } else {
            Turn::Going
        }
    }

    /// Follows the clusters of the scan that is complete, finds the closest human and decides
    /// whether to bark. While calibrating there are no clusters and nobody is followed.
    ///
    /// `distance[c][t]` is the distance between cluster `c` and track `t`; `ranges[c]` and
    /// `angles[c]` are the polar coordinates of cluster `c`, the angle in degrees.
    pub fn finish(
        &mut self,
        clusters: Vec<Cluster>,
        distance: &Vec<Vec<Double>>,
        ranges: &Vec<Double>,
        angles: &Vec<Double>,
        now: u128,
    ) -> (s: Sighting)
        requires
            old(self).wf(),
            old(self).phase@ is Detecting ==> {
                &&& distance@.len() == clusters@.len()
                &&& forall|c: int|
                    0 <= c < distance@.len() ==> (#[trigger] distance@[c])@.len()
                        == old(self).tracks@.len()
                &&& ranges@.len() == clusters@.len()
                &&& angles@.len() == clusters@.len()
            },
        ensures
            final(self).wf(),
            old(self).finishes(clusters@, distance@, ranges@, angles@, now, *final(self), s),
    {
        let detecting: bool = match &self.phase {
            Phase::Calibrating { .. } => false,
            Phase::Detecting { .. } => true,
        };
        if !detecting {
            self.scan.clusters.clear();
            self.tracks.clear();
            return Sighting { angle: None, bark: false };
        }
        proof {
            lemma_tracks_stay_fresh(self.tracks@, clusters@, distance@);
            lemma_clusters_len(self.tracks@, clusters@, distance@);
        }
        let mut clusters: Vec<Cluster> = clusters;
        update_tracks(&mut self.tracks, &mut clusters, distance);
        let angle: Option<Double> = closest_human_angle(&clusters, ranges, angles);
        self.scan.clusters = clusters;
        let due: bool = match self.last_bark {
            Some(t) => time_since(t, now) >= BARK_COOLDOWN,
            None => true,
        };
        let bark: bool = angle.is_some() && due;
        if bark {
            self.last_bark = Some(now);
        }
        Sighting { angle, bark }
    }

    /// Begins the next scan.
    pub fn next_scan(&mut self)
        ensures
            old(self).clears(*final(self)),
    {
        self.scan.points.clear();
    }

    /// Takes a reading. See `take_reading` for the parameters.
    pub fn take(&mut self, dir: u16, mm: u32, at: Point)
        requires
            old(self).wf(),
        ensures
            final(self).wf(),
            old(self).takes(dir, mm, at, *final(self)),
    {
        take_reading(&mut self.phase, &mut self.scan.points, dir, mm, at);
    }
}

/// Barks keep their distance: after a bark at `first` none is due at `then` until the cooldown is
/// over, and then one is.
pub proof fn lemma_barks_keep_their_distance(first: u128, then: u128)
    ensures
        bark_due(Some(first), then) <==> first + BARK_COOLDOWN <= then,
{
}

/// The first direction of all begins no turn, and neither does one that goes on from the last.
pub proof fn lemma_turns_fall_back(last_dir: u16, dir: u16, dir_round: u16)
    ensures
        !wraps(NO_DIR, dir, dir_round),
        last_dir <= dir ==> !wraps(last_dir, dir, dir_round),
{
}

/// A turn of the sensor is complete exactly if the direction falls back from the second half of a
/// turn, and is not the first. Then there is one more scan, and calibration ends if it has lasted
/// 30 seconds; the bins with a background distance are counted when that happens, and from then on
/// the places of what moved are handed out. Otherwise only the direction is noted.
pub proof fn lemma_server_turns(
    s: Server,
    dir: u16,
    dir_round: u16,
    now: u128,
    after: Server,
    t: Turn,
)
    requires
        s.turns(dir, dir_round, now, after, t),
    ensures
        after.last_dir == dir,
        after.raw_points == s.raw_points,
        after.tracks == s.tracks,
        ({
            let complete = s.last_dir != 65_535 && dir < s.last_dir && dir_round < 2 * s.last_dir;
            let places = s.raw_points@.filter(|p: ScanPoint| p.is_motion).map_values(
                |p: ScanPoint| p.at,
            );
            &&& !complete ==> {
                &&& after.scan_number == s.scan_number
                &&& after.phase == s.phase
                &&& t is Going
            }
            &&& complete ==> t is Done && after.scan_number == s.scan_number + 1
            &&& complete ==> match s.phase@ {
                PhaseView::Calibrating { started, samples } => {
                    &&& now < started + 30_000_000_000 ==> {
                        &&& after.phase@ == s.phase@
                        &&& t->locked is None
                        &&& t->foreground is None
                    }
                    &&& now >= started + 30_000_000_000 ==> {
                        &&& after.phase@ matches PhaseView::Detecting { background }
                        &&& t->locked matches Some(n)
                        &&& n == background.filter(|b: Option<u32>| b is Some).len()
                        &&& t->foreground matches Some(f)
                        &&& f@ == places
                    }
                },
                PhaseView::Detecting { background } => {
                    &&& after.phase@ == s.phase@
                    &&& t->locked is None
                    &&& t->foreground matches Some(f)
                    &&& f@ == places
                },
            }
        }),
{
    assert(locked() =~= (|b: Option<u32>| b is Some));
    assert(motion_places(s.raw_points@) =~= s.raw_points@.filter(
        |p: ScanPoint| p.is_motion,
    ).map_values(|p: ScanPoint| p.at));
}

/// A turn of the sensor is complete exactly if the direction falls back from the second half of a
/// turn, and is not the first. Then calibration ends if it has lasted 30 seconds; the
/// bins with a background distance are counted when that happens, and from then on the places of
/// what moved are handed out. Otherwise only the direction is noted.
pub proof fn lemma_viewer_turns(
    s: Viewer,
    dir: u16,
    dir_round: u16,
    now: u128,
    after: Viewer,
    t: Turn,
)
    requires
        s.turns(dir, dir_round, now, after, t),
    ensures
        after.last_dir == dir,
        after.scan == s.scan,
        after.last_bark == s.last_bark,
        after.tracks == s.tracks,
        ({
            let complete = s.last_dir != 65_535 && dir < s.last_dir && dir_round < 2 * s.last_dir;
            let places = s.scan.points@.filter(|p: ScanPoint| p.is_motion).map_values(
                |p: ScanPoint| p.at,
            );
            &&& !complete ==> after.phase == s.phase && t is Going
            &&& complete ==> t is Done
            &&& complete ==> match s.phase@ {
                PhaseView::Calibrating { started, samples } => {
                    &&& now < started + 30_000_000_000 ==> {
                        &&& after.phase@ == s.phase@
                        &&& t->locked is None
                        &&& t->foreground is None
                    }
                    &&& now >= started + 30_000_000_000 ==> {
                        &&& after.phase@ matches PhaseView::Detecting { background }
                        &&& t->locked matches Some(n)
                        &&& n == background.filter(|b: Option<u32>| b is Some).len()
                        &&& t->foreground matches Some(f)
                        &&& f@ == places
                    }
                },
                PhaseView::Detecting { background } => {
                    &&& after.phase@ == s.phase@
                    &&& t->locked is None
                    &&& t->foreground matches Some(f)
                    &&& f@ == places
                },
            }
        }),
{
    assert(locked() =~= (|b: Option<u32>| b is Some));
    assert(motion_places(s.scan.points@) =~= s.scan.points@.filter(
        |p: ScanPoint| p.is_motion,
    ).map_values(|p: ScanPoint| p.at));
}

/// A reading of 1 to 4000 mm becomes a point at the end of the scan, where it was made, and no
/// other does. While calibrating it does not count as motion and joins its bin; then it does
/// wherever its bin has no background distance, or one that is more than 150 mm away.
pub proof fn lemma_server_takes(s: Server, dir: u16, mm: u32, at: Point, after: Server)
    requires
        s.wf(),
        s.takes(dir, mm, at, after),
    ensures
        after.last_dir == s.last_dir,
        after.tracks == s.tracks,
        after.scan_number == s.scan_number,
        mm == 0 || mm > 4000 ==> after.phase@ == s.phase@ && after.raw_points@ == s.raw_points@,
        1 <= mm <= 4000 ==> {
            let p = after.raw_points@.last();
            let b = dir as int / 100 % 360;
            &&& after.raw_points@ == s.raw_points@.push(p)
            &&& p.at == at
            &&& match s.phase@ {
                PhaseView::Calibrating { started, samples } => {
                    &&& !p.is_motion
                    &&& after.phase@ == (PhaseView::Calibrating {
                        started,
                        samples: samples.update(b, samples[b].push(mm)),
                    })
                },
                PhaseView::Detecting { background } => {
                    &&& after.phase@ == s.phase@
                    &&& background[b] is None ==> p.is_motion
                    &&& background[b] matches Some(bg) ==> {
                        &&& mm > bg + 150 || bg > mm + 150 ==> p.is_motion
                        &&& bg - 150 < mm < bg + 150 ==> !p.is_motion
                    }
                },
            }
        },
{
    lemma_motion_is_what_differs(s.phase@, dir, mm);
}

/// A reading of 1 to 4000 mm becomes a point at the end of the scan, where it was made, and no
/// other does. While calibrating it does not count as motion and joins its bin; then it does
/// wherever its bin has no background distance, or one that is more than 150 mm away.
pub proof fn lemma_viewer_takes(s: Viewer, dir: u16, mm: u32, at: Point, after: Viewer)
    requires
        s.wf(),
        s.takes(dir, mm, at, after),
    ensures
        after.last_dir == s.last_dir,
        after.tracks == s.tracks,
        after.scan.clusters == s.scan.clusters,
        after.last_bark == s.last_bark,
        mm == 0 || mm > 4000 ==> after.phase@ == s.phase@ && after.scan.points@ == s.scan.points@,
        1 <= mm <= 4000 ==> {
            let p = after.scan.points@.last();
            let b = dir as int / 100 % 360;
            &&& after.scan.points@ == s.scan.points@.push(p)
            &&& p.at == at
            &&& match s.phase@ {
                PhaseView::Calibrating { started, samples } => {
                    &&& !p.is_motion
                    &&& after.phase@ == (PhaseView::Calibrating {
                        started,
                        samples: samples.update(b, samples[b].push(mm)),
                    })
                },
                PhaseView::Detecting { background } => {
                    &&& after.phase@ == s.phase@
                    &&& background[b] is None ==> p.is_motion
                    &&& background[b] matches Some(bg) ==> {
                        &&& mm > bg + 150 || bg > mm + 150 ==> p.is_motion
                        &&& bg - 150 < mm < bg + 150 ==> !p.is_motion
                    }
                },
            }
        },
{
    lemma_motion_is_what_differs(s.phase@, dir, mm);
}

/// Both programs start calibrating, in 360 empty bins, with no direction, no point and nobody
/// followed; the server has published nothing, and the viewer has not barked.
pub proof fn lemma_starts_afresh(s: Server, v: Viewer, now: u128)
    requires
        s.starts(now),
        v.starts(now),
    ensures
        s.last_dir == 65_535 && v.last_dir == 65_535,
        s.raw_points@.len() == 0 && v.scan.points@.len() == 0,
        s.tracks@.len() == 0 && v.tracks@.len() == 0,
        s.scan_number == 0,
        v.scan.clusters@.len() == 0,
        v.last_bark is None,
        s.phase@ == v.phase@,
        s.phase@ matches PhaseView::Calibrating { started, samples } && {
            &&& started == now
            &&& samples.len() == 360
            &&& forall|b: int| 0 <= b < 360 ==> (#[trigger] samples[b]).len() == 0
        },
{
}

/// What is published and what it leaves: the scan is told and its points are gone, and nothing
/// else changes but the tracks. While calibrating those do not change either; then they are what
/// the clusters make of them.
pub proof fn lemma_server_publishes(
    s: Server,
    clusters: Seq<Cluster>,
    distance: Seq<Vec<Double>>,
    now: u128,
    since_epoch_ms: Option<u128>,
    after: Server,
    snapshot: ScanSnapshot,
)
    requires
        s.wf(),
        s.publishes(clusters, distance, now, since_epoch_ms, after, snapshot),
    ensures
        after.phase == s.phase,
        after.last_dir == s.last_dir,
        after.scan_number == s.scan_number,
        after.raw_points@.len() == 0,
        snapshot.scan_number == s.scan_number,
        snapshot.points@.len() == s.raw_points@.len(),
        forall|i: int|
            0 <= i < s.raw_points@.len() ==> {
                &&& (#[trigger] snapshot.points@[i])@[0] == s.raw_points@[i].at.x
                &&& snapshot.points@[i]@[1] == s.raw_points@[i].at.y
                &&& s.raw_points@[i].is_motion ==> snapshot.points@[i]@[2].bits
                    == 0x3ff0_0000_0000_0000
                &&& !s.raw_points@[i].is_motion ==> snapshot.points@[i]@[2].bits == 0
            },
        since_epoch_ms is None ==> snapshot.timestamp_ms == 0,
        since_epoch_ms matches Some(ms) ==> ms <= u64::MAX ==> snapshot.timestamp_ms == ms,
        snapshot.background@.len() == 360,
        match s.phase@ {
            PhaseView::Calibrating { started, samples } => {
                &&& snapshot.phase@ == "calibrating"@
                &&& after.tracks@ == s.tracks@
                &&& snapshot.clusters@.len() == 0
                &&& snapshot.humans_detected == 0
                &&& started <= now <= started + 30_000_000_000 ==> started
                    + snapshot.calibration_progress == now
                &&& started + 30_000_000_000 <= now ==> snapshot.calibration_progress
                    == 30_000_000_000
            },
            PhaseView::Detecting { background } => {
                &&& snapshot.phase@ == "detecting"@
                &&& snapshot.calibration_progress == 30_000_000_000
                &&& snapshot.background@ == background
                &&& after.tracks@ == tracks_after(s.tracks@, clusters, distance)
                &&& snapshot.clusters@.len() == clusters.len()
                &&& snapshot.humans_detected == after.tracks@.filter(
                    |t: HumanTrack| t.missed == 0,
                ).len()
                &&& forall|k: int|
                    0 <= k < clusters.len() && clusters[k].is_human ==> (
                    #[trigger] snapshot.clusters@[k]).is_human
                &&& forall|k: int|
                    0 <= k < clusters.len() ==> {
                        let c = clusters_after(s.tracks@, clusters, distance)[k];
                        &&& (#[trigger] snapshot.clusters@[k]).is_human == c.is_human
                        &&& snapshot.clusters@[k].centroid@[0] == clusters[k].centroid.x
                        &&& snapshot.clusters@[k].centroid@[1] == clusters[k].centroid.y
                        &&& snapshot.clusters@[k].features.width == clusters[k].features.width
                        &&& snapshot.clusters@[k].features.depth == clusters[k].features.depth
                        &&& snapshot.clusters@[k].features.curvature
                            == clusters[k].features.curvature
                        &&& snapshot.clusters@[k].features.point_count
                            == clusters[k].features.point_count
                        &&& snapshot.clusters@[k].points@.len() == clusters[k].points@.len()
                    }
            },
        },
{
    if let PhaseView::Calibrating { started, samples } = s.phase@ {
        lemma_calibrating_snapshot(
            snapshot,
            s.raw_points@,
            started,
            s.scan_number,
            now,
            since_epoch_ms,
        );
    }
    if let PhaseView::Detecting { background } = s.phase@ {
        let all = clusters_after(s.tracks@, clusters, distance);
        lemma_clusters_len(s.tracks@, clusters, distance);
        lemma_detecting_snapshot(
            snapshot,
            s.raw_points@,
            background,
            all,
            s.scan_number,
            since_epoch_ms,
        );
        lemma_one_track_per_human(s.tracks@, clusters, distance);
        assert(just_seen() =~= (|t: HumanTrack| t.missed == 0));
        assert(human() =~= (|c: Cluster| c.is_human));
        assert forall|k: int| 0 <= k < clusters.len() && clusters[k].is_human implies (
        #[trigger] snapshot.clusters@[k]).is_human by {
            lemma_human_marks(s.tracks@, clusters, distance, k);
        }
        assert forall|k: int| 0 <= k < clusters.len() implies {
            let c = clusters_after(s.tracks@, clusters, distance)[k];
            &&& (#[trigger] snapshot.clusters@[k]).is_human == c.is_human
            &&& snapshot.clusters@[k].centroid@[0] == clusters[k].centroid.x
            &&& snapshot.clusters@[k].centroid@[1] == clusters[k].centroid.y
            &&& snapshot.clusters@[k].features.width == clusters[k].features.width
            &&& snapshot.clusters@[k].features.depth == clusters[k].features.depth
            &&& snapshot.clusters@[k].features.curvature == clusters[k].features.curvature
            &&& snapshot.clusters@[k].features.point_count == clusters[k].features.point_count
            &&& snapshot.clusters@[k].points@.len() == clusters[k].points@.len()
        } by {
            lemma_human_marks(s.tracks@, clusters, distance, k);
        }
    }
}

/// What a finished scan gives rise to: while calibrating nobody is followed and nobody sighted.
/// Then someone is sighted exactly if a human is not behind the sensor, namely one that no other
/// such human is nearer than, and its direction is reported, as it is from 0 to 180 degrees and as
/// the nearer end otherwise. A bark comes exactly with a sighting at least 5 seconds after the last
/// bark, and is remembered.
pub proof fn lemma_viewer_finishes(
    v: Viewer,
    clusters: Seq<Cluster>,
    distance: Seq<Vec<Double>>,
    ranges: Seq<Double>,
    angles: Seq<Double>,
    now: u128,
    after: Viewer,
    s: Sighting,
)
    requires
        v.wf(),
        v.finishes(clusters, distance, ranges, angles, now, after, s),
        ranges.len() == clusters.len(),
        angles.len() == clusters.len(),
        forall|k: int| 0 <= k < ranges.len() ==> !(#[trigger] ranges[k]).nan(),
    ensures
        after.phase == v.phase,
        after.last_dir == v.last_dir,
        after.scan.points == v.scan.points,
        s.bark <==> s.angle is Some && (v.last_bark matches Some(t) ==> t + 5_000_000_000 <= now),
        s.bark ==> after.last_bark == Some(now),
        !s.bark ==> after.last_bark == v.last_bark,
        match v.phase@ {
            PhaseView::Calibrating { .. } => {
                &&& after.scan.clusters@.len() == 0
                &&& after.tracks@.len() == 0
                &&& s.angle is None
            },
            PhaseView::Detecting { .. } => {
                let all = after.scan.clusters@;
                let zero = Double { bits: 0 };
                let half = Double { bits: 0x4066_8000_0000_0000 };
                &&& all.len() == clusters.len()
                &&& all == clusters_after(v.tracks@, clusters, distance)
                &&& after.tracks@ == tracks_after(v.tracks@, clusters, distance)
                &&& all.filter(|c: Cluster| c.is_human).len() == after.tracks@.filter(
                    |t: HumanTrack| t.missed == 0,
                ).len()
                &&& s.angle is None ==> forall|k: int|
                    0 <= k < all.len() && (#[trigger] all[k]).is_human ==> !zero.le(
                        all[k].centroid.y,
                    )
                &&& s.angle matches Some(angle) ==> exists|k: int|
                    0 <= k < all.len() && (#[trigger] all[k]).is_human && {
                        &&& zero.le(all[k].centroid.y)
                        &&& forall|j: int|
                            0 <= j < all.len() && (#[trigger] all[j]).is_human && zero.le(
                                all[j].centroid.y,
                            ) ==> ranges[k].le(ranges[j]) && (j < k ==> ranges[k].lt(ranges[j]))
                        &&& zero.le(angles[k]) && angles[k].le(half) ==> angle == angles[k]
                        &&& angles[k].lt(zero) ==> angle == zero
                        &&& half.lt(angles[k]) ==> angle == half
                    }
            },
        },
{
    if let PhaseView::Detecting { .. } = v.phase@ {
        let all = after.scan.clusters@;
        lemma_clusters_len(v.tracks@, clusters, distance);
        lemma_one_track_per_human(v.tracks@, clusters, distance);
        assert(just_seen() =~= (|t: HumanTrack| t.missed == 0));
        assert(human() =~= (|c: Cluster| c.is_human));
        lemma_closest_is_nearest(all, ranges, all.len() as int);
        if let Some(k) = closest(all, ranges, all.len() as int) {
            lemma_direction_is_kept(angles[k]);
            assert(all[k].is_human);
        }
    }
}

/// The next scan begins without points, and with everything else as it was.
pub proof fn lemma_viewer_clears(v: Viewer, after: Viewer)
    requires
        v.clears(after),
    ensures
        after.scan.points@.len() == 0,
        after.scan.clusters == v.scan.clusters,
        after.phase == v.phase && after.last_dir == v.last_dir,
        after.tracks == v.tracks && after.last_bark == v.last_bark,
{
}

/// The directions decide: a turn begins exactly where the direction falls back from one in the
/// second half of a turn. Nothing else matters, not how far it falls back nor from where.
pub proof fn lemma_directions_decide(last_dir: u16, dir: u16, dir_round: u16)
    ensures
        last_dir == 65_535 ==> !wraps(last_dir, dir, dir_round),
        dir >= last_dir ==> !wraps(last_dir, dir, dir_round),
        2 * last_dir <= dir_round ==> !wraps(last_dir, dir, dir_round),
        last_dir != 65_535 && dir < last_dir && 2 * last_dir > dir_round ==> wraps(
            last_dir,
            dir,
            dir_round,
        ),
{
}

} // verus!
