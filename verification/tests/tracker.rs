use lidar_monitor::double::{Double, Point};
use lidar_monitor::tracker::{
    closest_human_angle, update_tracks, Cluster, Features, HumanTrack, TRACK_TTL_SCANS,
};

fn double(value: f64) -> Double {
    Double { bits: value.to_bits() }
}

fn place(x: f64, y: f64) -> Point {
    Point { x: double(x), y: double(y) }
}

fn cluster(x: f64, y: f64, is_human: bool) -> Cluster {
    let zero = double(0.0);
    Cluster {
        centroid: place(x, y),
        is_human,
        features: Features { width: double(x), depth: zero, curvature: zero, point_count: zero },
        points: vec![place(x, y)],
    }
}

fn track(x: f64, y: f64, missed: u32) -> HumanTrack {
    HumanTrack { centroid: place(x, y), missed }
}

fn float(d: Double) -> f64 {
    f64::from_bits(d.bits)
}

fn distances(clusters: &[Cluster], tracks: &[HumanTrack]) -> Vec<Vec<Double>> {
    let mut all = Vec::new();
    for c in clusters {
        let mut row = Vec::new();
        for t in tracks {
            let dx = float(c.centroid.x) - float(t.centroid.x);
            let dy = float(c.centroid.y) - float(t.centroid.y);
            row.push(double((dx * dx + dy * dy).sqrt()));
        }
        all.push(row);
    }
    all
}

fn update(tracks: &mut Vec<HumanTrack>, clusters: &mut Vec<Cluster>) {
    let distance = distances(clusters, tracks);
    update_tracks(tracks, clusters, &distance);
}

#[test]
fn humans_start_tracks() {
    let mut tracks = vec![];
    let mut clusters = vec![cluster(1.0, 1.0, true), cluster(2.0, 2.0, false)];
    update(&mut tracks, &mut clusters);
    assert_eq!(tracks, vec![track(1.0, 1.0, 0)]);
    assert!(clusters[0].is_human);
    assert!(!clusters[1].is_human);
}

#[test]
fn a_cluster_near_a_track_is_human() {
    let mut tracks = vec![track(1.0, 1.0, 4)];
    let mut clusters = vec![cluster(1.3, 1.0, false)];
    update(&mut tracks, &mut clusters);
    assert!(clusters[0].is_human);
    assert_eq!(clusters[0], cluster(1.3, 1.0, true));
    assert_eq!(tracks, vec![track(1.3, 1.0, 0)]);
}

#[test]
fn reach_is_forty_centimetres() {
    for (d, human) in [(0.4, true), (0.4000000000000001, false), (f64::NAN, false), (-0.0, true)] {
        let mut tracks = vec![track(0.0, 0.0, 0)];
        let mut clusters = vec![cluster(5.0, 5.0, false)];
        update_tracks(&mut tracks, &mut clusters, &vec![vec![double(d)]]);
        assert_eq!(clusters[0].is_human, human, "{d}");
    }
}

#[test]
fn the_nearest_track_is_taken() {
    let mut tracks = vec![track(0.0, 0.0, 1), track(0.2, 0.0, 2), track(0.3, 0.0, 3)];
    let mut clusters = vec![cluster(0.21, 0.0, false)];
    update(&mut tracks, &mut clusters);
    assert_eq!(tracks, vec![track(0.0, 0.0, 2), track(0.21, 0.0, 0), track(0.3, 0.0, 4)]);
}

#[test]
fn of_equally_near_tracks_the_first_is_taken() {
    let mut tracks = vec![track(9.0, 9.0, 0), track(0.0, 0.25, 0), track(0.25, 0.0, 0)];
    let mut clusters = vec![cluster(0.0, 0.0, false)];
    update(&mut tracks, &mut clusters);
    assert_eq!(tracks, vec![track(9.0, 9.0, 1), track(0.0, 0.0, 0), track(0.25, 0.0, 1)]);
}

#[test]
fn a_track_is_taken_once() {
    let mut tracks = vec![track(0.0, 0.0, 0)];
    let mut clusters = vec![cluster(0.1, 0.0, false), cluster(0.0, 0.0, false)];
    update(&mut tracks, &mut clusters);
    assert!(clusters[0].is_human);
    assert!(!clusters[1].is_human);
    assert_eq!(tracks, vec![track(0.1, 0.0, 0)]);
}

#[test]
fn new_tracks_are_not_taken_in_the_same_scan() {
    let mut tracks = vec![];
    let mut clusters = vec![cluster(0.0, 0.0, true), cluster(0.1, 0.0, false)];
    update(&mut tracks, &mut clusters);
    assert!(!clusters[1].is_human);
    assert_eq!(tracks, vec![track(0.0, 0.0, 0)]);
}

#[test]
fn tracks_expire() {
    let mut tracks = vec![track(0.0, 0.0, 0)];
    for scan in 1..=TRACK_TTL_SCANS {
        update(&mut tracks, &mut vec![]);
        assert_eq!(tracks, vec![track(0.0, 0.0, scan)]);
    }
    update(&mut tracks, &mut vec![]);
    assert!(tracks.is_empty());
}

#[test]
fn the_last_track_takes_the_place_of_an_expired_one() {
    let mut tracks = vec![
        track(1.0, 0.0, 30),
        track(2.0, 0.0, 5),
        track(3.0, 0.0, 30),
        track(4.0, 0.0, 7),
        track(5.0, 0.0, 30),
    ];
    update(&mut tracks, &mut vec![]);
    assert_eq!(tracks, vec![track(4.0, 0.0, 8), track(2.0, 0.0, 6)]);
}

#[test]
fn a_match_saves_an_old_track() {
    let mut tracks = vec![track(1.0, 0.0, 30), track(2.0, 0.0, 100)];
    let mut clusters = vec![cluster(1.0, 0.1, false)];
    update(&mut tracks, &mut clusters);
    assert_eq!(tracks, vec![track(1.0, 0.1, 0)]);
}

#[test]
fn once_human_always_human_while_something_is_near() {
    let mut tracks = vec![];
    update(&mut tracks, &mut vec![cluster(0.0, 1.0, true)]);
    for step in 1..50 {
        let mut clusters = vec![cluster(0.3 * step as f64, 1.0, false)];
        update(&mut tracks, &mut clusters);
        assert!(clusters[0].is_human);
        assert_eq!(tracks.len(), 1);
    }
}

fn polar(clusters: &[Cluster]) -> (Vec<Double>, Vec<Double>) {
    let mut ranges = Vec::new();
    let mut angles = Vec::new();
    for c in clusters {
        let (x, y) = (float(c.centroid.x), float(c.centroid.y));
        ranges.push(double(x.hypot(y)));
        angles.push(double(y.atan2(x).to_degrees()));
    }
    (ranges, angles)
}

fn angle(clusters: &Vec<Cluster>) -> Option<f64> {
    let (ranges, angles) = polar(clusters);
    closest_human_angle(clusters, &ranges, &angles).map(float)
}

#[test]
fn the_closest_human_in_front_counts() {
    let clusters = vec![
        cluster(0.5, 0.0, false),
        cluster(0.0, 3.0, true),
        cluster(0.5, -0.5, true),
        cluster(-1.0, 1.0, true),
        cluster(1.0, 1.0, true),
    ];
    assert_eq!(angle(&clusters), Some(135.0));
}

#[test]
fn nobody_in_front() {
    assert_eq!(angle(&vec![]), None);
    assert_eq!(angle(&vec![cluster(0.0, 1.0, false), cluster(0.0, -1.0, true)]), None);
    assert_eq!(angle(&vec![cluster(1.0, f64::NAN, true)]), None);
}

#[test]
fn negative_zero_is_in_front() {
    assert_eq!(angle(&vec![cluster(1.0, -0.0, true)]), Some(0.0));
    assert_eq!(angle(&vec![cluster(-1.0, -0.0, true)]), Some(0.0));
    assert_eq!(angle(&vec![cluster(-1.0, 0.0, true)]), Some(180.0));
}

#[test]
fn angles_stay_in_the_half_turn() {
    let clusters = vec![cluster(0.0, 1.0, true)];
    for (given, told) in [(-0.5, 0.0), (0.0, 0.0), (77.5, 77.5), (180.0, 180.0), (180.5, 180.0)] {
        let got = closest_human_angle(&clusters, &vec![double(1.0)], &vec![double(given)]);
        assert_eq!(got, Some(double(told)));
    }
    let got = closest_human_angle(&clusters, &vec![double(1.0)], &vec![double(f64::NAN)]);
    assert!(float(got.unwrap()).is_nan());
}

#[test]
fn a_range_that_is_not_a_number_is_never_nearer() {
    let clusters = vec![cluster(1.0, 1.0, true), cluster(0.0, 1.0, true)];
    let angles = vec![double(45.0), double(90.0)];
    let nan = double(f64::NAN);
    let one = double(1.0);
    assert_eq!(closest_human_angle(&clusters, &vec![nan, one], &angles), Some(double(45.0)));
    assert_eq!(closest_human_angle(&clusters, &vec![one, nan], &angles), Some(double(45.0)));
}

#[test]
fn an_unseen_human_is_remembered() {
    let mut tracks = vec![track(0.0, 0.0, 7)];
    let mut clusters = vec![cluster(3.0, 0.0, true)];
    update(&mut tracks, &mut clusters);
    assert_eq!(tracks, vec![track(0.0, 0.0, 8), track(3.0, 0.0, 0)]);
}
