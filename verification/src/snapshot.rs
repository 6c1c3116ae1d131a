//! What a client of the server is told about a scan.

use crate::calibration::{
    elapsed, time_since, Phase, PhaseView, ScanPoint, ANGLE_BINS, CALIBRATION,
};
use crate::double::{Double, Point, ONE, ZERO};
use crate::tracker::{
    clusters_after, countable, human, just_seen, lemma_one_track_per_human, tracks_after,
    update_tracks, Cluster, Features, HumanTrack,
};
use vstd::prelude::*;

verus! {

/// The features of a cluster.
#[derive(Clone, Copy, Debug, PartialEq, Eq, Structural)]
pub struct FeaturesJson {
    pub width: Double,
    pub depth: Double,
    pub curvature: Double,
    pub point_count: Double,
}

/// A cluster.
#[derive(Debug, PartialEq, Eq)]
pub struct ClusterJson {
    pub centroid: [Double; 2],
    pub is_human: bool,
    pub features: FeaturesJson,
    pub points: Vec<[Double; 2]>,
}

/// A scan.
#[derive(Debug, PartialEq, Eq)]
pub struct ScanSnapshot {
    pub phase: String,
    /// How much of calibration is over, in nanoseconds: all of `CALIBRATION` when it is done.
    pub calibration_progress: u128,
    pub scan_number: u64,
    pub timestamp_ms: u64,
    /// x, y, and 1 or 0 for whether it moved.
    pub points: Vec<[Double; 3]>,
    /// The background distance of every bin, in millimetres; `None` where there are not enough
    /// readings for one.
    pub background: Vec<Option<u32>>,
    pub clusters: Vec<ClusterJson>,
    pub humans_detected: usize,
}

/// `a` holds the coordinates of `p`.
pub open spec fn place_of(a: [Double; 2], p: Point) -> bool {
    a@ == seq![p.x, p.y]
}

/// `f` holds the features `g`.
pub open spec fn features_of(f: FeaturesJson, g: Features) -> bool {
    &&& f.width == g.width
    &&& f.depth == g.depth
    &&& f.curvature == g.curvature
    &&& f.point_count == g.point_count
}

/// `j` tells about cluster `c`.
pub open spec fn tells_cluster(j: ClusterJson, c: Cluster) -> bool {
    &&& place_of(j.centroid, c.centroid)
    &&& j.is_human == c.is_human
    &&& features_of(j.features, c.features)
    &&& j.points@.len() == c.points@.len()
    &&& forall|i: int| 0 <= i < c.points@.len() ==> place_of(#[trigger] j.points@[i], c.points@[i])
}

/// `js` tells about each of `cs`, in order.
pub open spec fn tells_clusters(js: Seq<ClusterJson>, cs: Seq<Cluster>) -> bool {
    &&& js.len() == cs.len()
    &&& forall|k: int| 0 <= k < cs.len() ==> tells_cluster(#[trigger] js[k], cs[k])
}

fn place_to_json(p: Point) -> (a: [Double; 2])
    ensures
        place_of(a, p),
{
    let a: [Double; 2] = [p.x, p.y];
    assert(a@ =~= seq![p.x, p.y]);
    a
}

fn cluster_to_json(c: &Cluster) -> (j: ClusterJson)
    ensures
        tells_cluster(j, *c),
{
    let mut points: Vec<[Double; 2]> = Vec::new();
    let mut i: usize = 0;
    while i < c.points.len()
        invariant
            i <= c.points@.len(),
            points@.len() == i,
            forall|k: int| 0 <= k < i ==> place_of(#[trigger] points@[k], c.points@[k]),
        decreases c.points@.len() - i,
    {
        points.push(place_to_json(c.points[i]));
        i += 1;
    }
    ClusterJson {
        centroid: place_to_json(c.centroid),
        is_human: c.is_human,
        features: FeaturesJson {
            width: c.features.width,
            depth: c.features.depth,
            curvature: c.features.curvature,
            point_count: c.features.point_count,
        },
        points,
    }
}

/// What is told about clusters.
pub fn clusters_to_json(clusters: Vec<Cluster>) -> (r: Vec<ClusterJson>)
    ensures
        tells_clusters(r@, clusters@),
{
    let mut r: Vec<ClusterJson> = Vec::new();
    let mut k: usize = 0;
    while k < clusters.len()
        invariant
            k <= clusters@.len(),
            r@.len() == k,
            forall|i: int| 0 <= i < k ==> tells_cluster(#[trigger] r@[i], clusters@[i]),
        decreases clusters@.len() - k,
    {
        r.push(cluster_to_json(&clusters[k]));
        k += 1;
    }
    r
}

/// What is told about a point: where it is, and 1 if it moved or 0 if not.
pub open spec fn tells_point(a: [Double; 3], p: ScanPoint) -> bool {
    a@ == seq![
        p.at.x,
        p.at.y,
        Double {
            bits: if p.is_motion {
                ONE
            } else {
                ZERO
            },
        },
    ]
}

/// `a` tells about each of `ps`, in order.
pub open spec fn tells_points(a: Seq<[Double; 3]>, ps: Seq<ScanPoint>) -> bool {
    &&& a.len() == ps.len()
    &&& forall|i: int| 0 <= i < ps.len() ==> tells_point(#[trigger] a[i], ps[i])
}

fn points_to_json(points: &Vec<ScanPoint>) -> (r: Vec<[Double; 3]>)
    ensures
        tells_points(r@, points@),
{
    let mut r: Vec<[Double; 3]> = Vec::new();
    let mut i: usize = 0;
    while i < points.len()
        invariant
            i <= points@.len(),
            r@.len() == i,
            forall|k: int| 0 <= k < i ==> tells_point(#[trigger] r@[k], points@[k]),
        decreases points@.len() - i,
    {
        let p: ScanPoint = points[i];
        let mark: Double = Double { bits: if p.is_motion { ONE } else { ZERO } };
        let a: [Double; 3] = [p.at.x, p.at.y, mark];
        assert(a@ =~= seq![p.at.x, p.at.y, mark]);
        r.push(a);
        i += 1;
    }
    r
}

/// How many clusters are marked as human.
pub fn count_humans(clusters: &Vec<Cluster>) -> (n: usize)
    ensures
        n == clusters@.filter(human()).len(),
{
    let mut n: usize = 0;
    let mut k: usize = 0;
    while k < clusters.len()
        invariant
            k <= clusters@.len(),
            n <= k,
            n == clusters@.take(k as int).filter(human()).len(),
        decreases clusters@.len() - k,
    {
        proof {
            assert(clusters@.take(k + 1) =~= clusters@.take(k as int).push(clusters@[k as int]));
            clusters@.take(k as int).lemma_filter_len_push(human(), clusters@[k as int]);
        }
        if clusters[k].is_human {
            n += 1;
        }
        k += 1;
    }
    assert(clusters@.take(k as int) =~= clusters@);
    n
}

/// The background while calibrating: no bin has a distance yet.
pub open spec fn unknown_background() -> Seq<Option<u32>> {
    Seq::new(ANGLE_BINS as nat, |b: int| None::<u32>)
}

fn no_background() -> (r: Vec<Option<u32>>)
    ensures
        r@ == unknown_background(),
{
    let mut r: Vec<Option<u32>> = Vec::new();
    while r.len() < ANGLE_BINS
        invariant
            r@.len() <= ANGLE_BINS,
            forall|b: int| 0 <= b < r@.len() ==> (#[trigger] r@[b]) is None,
        decreases ANGLE_BINS - r@.len(),
    {
        r.push(None);
    }
    assert(r@ =~= unknown_background());
    r
}

fn copy_background(background: &Vec<Option<u32>>) -> (r: Vec<Option<u32>>)
    ensures
        r@ == background@,
{
    let mut r: Vec<Option<u32>> = Vec::new();
    let mut b: usize = 0;
    while b < background.len()
        invariant
            b <= background@.len(),
            r@ == background@.take(b as int),
        decreases background@.len() - b,
    {
        r.push(background[b]);
        b += 1;
        assert(r@ =~= background@.take(b as int));
    }
    assert(background@.take(b as int) =~= background@);
    r
}

/// Milliseconds since the epoch, in 64 bits; 0 if the clock stands before it.
pub open spec fn timestamp(since_epoch_ms: Option<u128>) -> int {
    match since_epoch_ms {
        Some(ms) => ms as int % 0x1_0000_0000_0000_0000,
        None => 0,
    }
}

fn to_timestamp(since_epoch_ms: Option<u128>) -> (t: u64)
    ensures
        t == timestamp(since_epoch_ms),
{
    match since_epoch_ms {
        Some(ms) => {
            assert((ms as u64) == ms % 0x1_0000_0000_0000_0000) by (bit_vector);
            #[verifier::truncate]
            (ms as u64)
        },
        None => 0,
    }
}

/// The snapshot of a scan while calibrating: how far that is, the points, and no bin with
/// a background distance.
pub open spec fn tells_calibrating(
    s: ScanSnapshot,
    points: Seq<ScanPoint>,
    started: u128,
    scan_number: u64,
    now: u128,
    since_epoch_ms: Option<u128>,
) -> bool {
    &&& s.phase@ == "calibrating"@
    &&& s.calibration_progress == if elapsed(started, now) < CALIBRATION {
        elapsed(started, now)
    } else {
        CALIBRATION
    }
    &&& s.scan_number == scan_number
    &&& s.timestamp_ms == timestamp(since_epoch_ms)
    &&& tells_points(s.points@, points)
    &&& s.background@ == unknown_background()
    &&& s.clusters@ == Seq::<ClusterJson>::empty()
    &&& s.humans_detected == 0
}

/// The snapshot of a scan when calibration is over: the points, the background, the clusters and
/// how many of them are humans.
pub open spec fn tells_detecting(
    s: ScanSnapshot,
    points: Seq<ScanPoint>,
    background: Seq<Option<u32>>,
    clusters: Seq<Cluster>,
    scan_number: u64,
    since_epoch_ms: Option<u128>,
) -> bool {
    &&& s.phase@ == "detecting"@
    &&& s.calibration_progress == CALIBRATION
    &&& s.scan_number == scan_number
    &&& s.timestamp_ms == timestamp(since_epoch_ms)
    &&& tells_points(s.points@, points)
    &&& s.background@ == background
    &&& tells_clusters(s.clusters@, clusters)
    &&& s.humans_detected == clusters.filter(human()).len()
}

/// Sums up a scan.
///
/// `clusters` are the clusters of its foreground, and `distance[c][t]` is the distance between
/// cluster `c` and track `t`; both count only when calibration is over. `now` is read on the clock
/// of the phase, `since_epoch_ms` is the time since the epoch, if it has begun.
pub fn build_snapshot(
    raw_points: &Vec<ScanPoint>,
    phase: &Phase,
    clusters: Vec<Cluster>,
    distance: &Vec<Vec<Double>>,
    tracks: &mut Vec<HumanTrack>,
    scan_number: u64,
    now: u128,
    since_epoch_ms: Option<u128>,
) -> (s: ScanSnapshot)
    requires
        phase@ is Detecting ==> {
            &&& distance@.len() == clusters@.len()
            &&& forall|c: int|
                0 <= c < distance@.len() ==> (#[trigger] distance@[c])@.len() == old(tracks)@.len()
            &&& countable(old(tracks)@)
        },
    ensures
        match phase@ {
            PhaseView::Calibrating { started, samples } => {
                &&& final(tracks)@ == old(tracks)@
                &&& tells_calibrating(
                    s,
                    raw_points@,
                    started,
                    scan_number,
                    now,
                    since_epoch_ms,
                )
            },
            PhaseView::Detecting { background } => {
                &&& final(tracks)@ == tracks_after(old(tracks)@, clusters@, distance@)
                &&& tells_detecting(
                    s,
                    raw_points@,
                    background,
                    clusters_after(old(tracks)@, clusters@, distance@),
                    scan_number,
                    since_epoch_ms,
                )
            },
        },
{
    let timestamp_ms: u64 = to_timestamp(since_epoch_ms);
    let points: Vec<[Double; 3]> = points_to_json(raw_points);
    match phase {
        Phase::Calibrating { started, .. } => {
            let t: u128 = time_since(*started, now);
            ScanSnapshot {
                phase: "calibrating".to_string(),
                calibration_progress: if t < CALIBRATION {
                    t
                } else {
                    CALIBRATION
                },
                scan_number,
                timestamp_ms,
                points,
                background: no_background(),
                clusters: Vec::new(),
                humans_detected: 0,
            }
        },
        Phase::Detecting { background } => {
            let mut clusters: Vec<Cluster> = clusters;
            update_tracks(tracks, &mut clusters, distance);
            let humans_detected: usize = count_humans(&clusters);
            let clusters: Vec<ClusterJson> = clusters_to_json(clusters);
            ScanSnapshot {
                phase: "detecting".to_string(),
                calibration_progress: CALIBRATION,
                scan_number,
                timestamp_ms,
                points,
                background: copy_background(background),
                clusters,
                humans_detected,
            }
        },
    }
}

/// Clusters and what is told about them have the human marks in the same places.
proof fn lemma_same_marks(js: Seq<ClusterJson>, cs: Seq<Cluster>)
    requires
        tells_clusters(js, cs),
    ensures
        js.filter(|j: ClusterJson| j.is_human).len() == cs.filter(human()).len(),
    decreases cs.len(),
{
    let marked = |j: ClusterJson| j.is_human;
    if cs.len() == 0 {
        assert(js.filter(marked) =~= js);
        assert(cs.filter(human()) =~= cs);
    } else {
        let js0 = js.drop_last();
        let cs0 = cs.drop_last();
        assert forall|k: int| 0 <= k < cs0.len() implies tells_cluster(#[trigger] js0[k], cs0[k]) by {
            assert(tells_cluster(js[k], cs[k]));
        }
        lemma_same_marks(js0, cs0);
        assert(tells_cluster(js[js.len() - 1], cs[cs.len() - 1]));
        assert(js =~= js0.push(js.last()));
        assert(cs =~= cs0.push(cs.last()));
        js0.lemma_filter_push(js.last(), marked);
        cs0.lemma_filter_push(cs.last(), human());
    }
}

/// The number of humans in a snapshot is that of the clusters it marks as human.
pub proof fn lemma_humans_add_up(
    s: ScanSnapshot,
    points: Seq<ScanPoint>,
    background: Seq<Option<u32>>,
    clusters: Seq<Cluster>,
    scan_number: u64,
    since_epoch_ms: Option<u128>,
)
    requires
        tells_detecting(s, points, background, clusters, scan_number, since_epoch_ms),
    ensures
        s.humans_detected == s.clusters@.filter(|j: ClusterJson| j.is_human).len(),
        s.humans_detected <= s.clusters@.len(),
{
    lemma_same_marks(s.clusters@, clusters);
    s.clusters@.lemma_filter_len(|j: ClusterJson| j.is_human);
}

/// The number of humans in a snapshot is that of the tracks that have just been seen.
pub proof fn lemma_humans_detected_are_tracked(
    s: ScanSnapshot,
    points: Seq<ScanPoint>,
    background: Seq<Option<u32>>,
    tracks: Seq<HumanTrack>,
    clusters: Seq<Cluster>,
    distance: Seq<Vec<Double>>,
    scan_number: u64,
    since_epoch_ms: Option<u128>,
)
    requires
        countable(tracks),
        tells_detecting(
            s,
            points,
            background,
            clusters_after(tracks, clusters, distance),
            scan_number,
            since_epoch_ms,
        ),
    ensures
        s.humans_detected == tracks_after(tracks, clusters, distance).filter(just_seen()).len(),
{
    lemma_one_track_per_human(tracks, clusters, distance);
}

/// Progress never goes beyond the whole of calibration, and is the whole of it from then on.
pub proof fn lemma_progress_is_capped(
    s: ScanSnapshot,
    points: Seq<ScanPoint>,
    started: u128,
    scan_number: u64,
    now: u128,
    since_epoch_ms: Option<u128>,
)
    requires
        tells_calibrating(s, points, started, scan_number, now, since_epoch_ms),
    ensures
        s.calibration_progress <= CALIBRATION,
        s.calibration_progress == CALIBRATION <==> elapsed(started, now) >= CALIBRATION,
{
}

/// What a client is told while calibrating: how much of the 30 seconds has passed, where each
/// point is and, with a 1 or a 0, whether it moved, 360 bins without a background, no cluster and
/// no human.
pub proof fn lemma_calibrating_snapshot(
    s: ScanSnapshot,
    points: Seq<ScanPoint>,
    started: u128,
    scan_number: u64,
    now: u128,
    since_epoch_ms: Option<u128>,
)
    requires
        tells_calibrating(s, points, started, scan_number, now, since_epoch_ms),
    ensures
        s.phase@ == "calibrating"@,
        now <= started ==> s.calibration_progress == 0,
        started <= now <= started + 30_000_000_000 ==> started + s.calibration_progress == now,
        started + 30_000_000_000 <= now ==> s.calibration_progress == 30_000_000_000,
        s.scan_number == scan_number,
        since_epoch_ms is None ==> s.timestamp_ms == 0,
        since_epoch_ms matches Some(ms) ==> ms <= u64::MAX ==> s.timestamp_ms == ms,
        since_epoch_ms matches Some(ms) ==> (ms - s.timestamp_ms) % 0x1_0000_0000_0000_0000 == 0,
        s.points@.len() == points.len(),
        forall|i: int|
            0 <= i < points.len() ==> {
                &&& (#[trigger] s.points@[i])@.len() == 3
                &&& s.points@[i]@[0] == points[i].at.x
                &&& s.points@[i]@[1] == points[i].at.y
                &&& points[i].is_motion ==> s.points@[i]@[2].bits == 0x3ff0_0000_0000_0000
                &&& !points[i].is_motion ==> s.points@[i]@[2].bits == 0
            },
        s.background@.len() == 360,
        forall|b: int| 0 <= b < 360 ==> (#[trigger] s.background@[b]) is None,
        s.clusters@.len() == 0,
        s.humans_detected == 0,
{
    assert forall|i: int| 0 <= i < points.len() implies {
        &&& (#[trigger] s.points@[i])@.len() == 3
        &&& s.points@[i]@[0] == points[i].at.x
        &&& s.points@[i]@[1] == points[i].at.y
        &&& points[i].is_motion ==> s.points@[i]@[2].bits == 0x3ff0_0000_0000_0000
        &&& !points[i].is_motion ==> s.points@[i]@[2].bits == 0
    } by {
        assert(tells_point(s.points@[i], points[i]));
    }
}

/// What a client is told when calibration is over: that it is, where each point is and whether it
/// moved, the background of each bin, and of each cluster its centroid, its mark, its features and
/// its points. The humans are the clusters that are marked.
pub proof fn lemma_detecting_snapshot(
    s: ScanSnapshot,
    points: Seq<ScanPoint>,
    background: Seq<Option<u32>>,
    clusters: Seq<Cluster>,
    scan_number: u64,
    since_epoch_ms: Option<u128>,
)
    requires
        tells_detecting(s, points, background, clusters, scan_number, since_epoch_ms),
    ensures
        s.phase@ == "detecting"@,
        s.calibration_progress == 30_000_000_000,
        s.scan_number == scan_number,
        since_epoch_ms is None ==> s.timestamp_ms == 0,
        since_epoch_ms matches Some(ms) ==> ms <= u64::MAX ==> s.timestamp_ms == ms,
        since_epoch_ms matches Some(ms) ==> (ms - s.timestamp_ms) % 0x1_0000_0000_0000_0000 == 0,
        s.points@.len() == points.len(),
        forall|i: int|
            0 <= i < points.len() ==> {
                &&& (#[trigger] s.points@[i])@.len() == 3
                &&& s.points@[i]@[0] == points[i].at.x
                &&& s.points@[i]@[1] == points[i].at.y
                &&& points[i].is_motion ==> s.points@[i]@[2].bits == 0x3ff0_0000_0000_0000
                &&& !points[i].is_motion ==> s.points@[i]@[2].bits == 0
            },
        s.background@.len() == background.len(),
        forall|b: int|
            0 <= b < background.len() ==> #[trigger] s.background@[b] == background[b],
        s.clusters@.len() == clusters.len(),
        forall|k: int|
            0 <= k < clusters.len() ==> {
                &&& (#[trigger] s.clusters@[k]).centroid@.len() == 2
                &&& s.clusters@[k].centroid@[0] == clusters[k].centroid.x
                &&& s.clusters@[k].centroid@[1] == clusters[k].centroid.y
                &&& s.clusters@[k].is_human == clusters[k].is_human
                &&& s.clusters@[k].features.width == clusters[k].features.width
                &&& s.clusters@[k].features.depth == clusters[k].features.depth
                &&& s.clusters@[k].features.curvature == clusters[k].features.curvature
                &&& s.clusters@[k].features.point_count == clusters[k].features.point_count
                &&& s.clusters@[k].points@.len() == clusters[k].points@.len()
            },
        forall|k: int, i: int|
            0 <= k < clusters.len() && 0 <= i < clusters[k].points@.len() ==> {
                &&& (#[trigger] s.clusters@[k].points@[i])@.len() == 2
                &&& s.clusters@[k].points@[i]@[0] == clusters[k].points@[i].x
                &&& s.clusters@[k].points@[i]@[1] == clusters[k].points@[i].y
            },
        s.humans_detected == clusters.filter(|c: Cluster| c.is_human).len(),
{
    assert forall|i: int| 0 <= i < points.len() implies {
        &&& (#[trigger] s.points@[i])@.len() == 3
        &&& s.points@[i]@[0] == points[i].at.x
        &&& s.points@[i]@[1] == points[i].at.y
        &&& points[i].is_motion ==> s.points@[i]@[2].bits == 0x3ff0_0000_0000_0000
        &&& !points[i].is_motion ==> s.points@[i]@[2].bits == 0
    } by {
        assert(tells_point(s.points@[i], points[i]));
    }
    assert forall|k: int| 0 <= k < clusters.len() implies {
        &&& (#[trigger] s.clusters@[k]).centroid@.len() == 2
        &&& s.clusters@[k].centroid@[0] == clusters[k].centroid.x
        &&& s.clusters@[k].centroid@[1] == clusters[k].centroid.y
        &&& s.clusters@[k].is_human == clusters[k].is_human
        &&& s.clusters@[k].features.width == clusters[k].features.width
        &&& s.clusters@[k].features.depth == clusters[k].features.depth
        &&& s.clusters@[k].features.curvature == clusters[k].features.curvature
        &&& s.clusters@[k].features.point_count == clusters[k].features.point_count
        &&& s.clusters@[k].points@.len() == clusters[k].points@.len()
    } by {
        assert(tells_cluster(s.clusters@[k], clusters[k]));
    }
    assert forall|k: int, i: int|
        0 <= k < clusters.len() && 0 <= i < clusters[k].points@.len() implies {
        &&& (#[trigger] s.clusters@[k].points@[i])@.len() == 2
        &&& s.clusters@[k].points@[i]@[0] == clusters[k].points@[i].x
        &&& s.clusters@[k].points@[i]@[1] == clusters[k].points@[i].y
    } by {
        assert(tells_cluster(s.clusters@[k], clusters[k]));
        assert(place_of(s.clusters@[k].points@[i], clusters[k].points@[i]));
    }
    assert(human() =~= (|c: Cluster| c.is_human));
}

} // verus!
