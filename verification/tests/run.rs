use lidar_monitor::calibration::CALIBRATION;
use lidar_monitor::double::{Double, Point};
use lidar_monitor::session::{Server, Turn, Viewer, BARK_COOLDOWN};
use lidar_monitor::snapshot::ScanSnapshot;
use lidar_monitor::tracker::{Cluster, Features};

const ROUND: u16 = 36_000;

fn double(value: f64) -> Double {
    Double { bits: value.to_bits() }
}

fn place(x: f64, y: f64) -> Point {
    Point { x: double(x), y: double(y) }
}

fn cluster(is_human: bool, x: f64) -> Cluster {
    let zero = double(0.0);
    Cluster {
        centroid: place(x, 1.0),
        is_human,
        features: Features { width: zero, depth: zero, curvature: zero, point_count: zero },
        points: vec![],
    }
}

/// The server goes through one reading, whose place is its distance and direction.
fn read(server: &mut Server, dir: u16, mm: u32, now: u128) -> Option<ScanSnapshot> {
    let snapshot = match server.turn(dir, ROUND, now) {
        Turn::Done { .. } => Some(server.publish(vec![], &vec![], now, None)),
        Turn::Going => None,
    };
    server.take(dir, mm, place(mm as f64, dir as f64));
    snapshot
}

#[test]
fn snapshots_come_at_wraps_and_are_numbered() {
    let mut server = Server::new(0);
    let dirs = [35_000, 10, 9_000, 8_990, 18_000, 17_990, 18_001, 18_000, 20_000, 30_000, 5];
    let mut numbers = Vec::new();
    for (j, &dir) in dirs.iter().enumerate() {
        if let Some(s) = read(&mut server, dir, 1000, 1) {
            numbers.push((j, s.scan_number));
        }
    }
    assert_eq!(numbers, vec![(1, 1), (7, 2), (10, 3)]);
}

#[test]
fn snapshots_carry_the_readings_of_their_turn() {
    let mut server = Server::new(0);
    assert_eq!(read(&mut server, 100, 11, 1), None);
    assert_eq!(read(&mut server, 200, 0, 1), None);
    assert_eq!(read(&mut server, 300, 4001, 1), None);
    assert_eq!(read(&mut server, 35_000, 4000, 1), None);
    let s = read(&mut server, 50, 12, 1).unwrap();
    let zero = double(0.0);
    assert_eq!(
        s.points,
        vec![[double(11.0), double(100.0), zero], [double(4000.0), double(35_000.0), zero]]
    );
    assert_eq!(read(&mut server, 34_000, 13, 1), None);
    let s = read(&mut server, 60, 14, 1).unwrap();
    assert_eq!(
        s.points,
        vec![[double(12.0), double(50.0), zero], [double(13.0), double(34_000.0), zero]]
    );
}

#[test]
fn detection_follows_calibration_and_keeps_its_background() {
    let mut server = Server::new(0);
    let mut snapshots = Vec::new();
    for turn in 0..12u128 {
        let now = CALIBRATION / 8 * turn;
        let mm = if turn < 8 { 1000 } else { 2000 };
        for dir in [0, 1000, 30_000] {
            snapshots.extend(read(&mut server, dir, mm, now));
        }
    }
    assert_eq!(snapshots.len(), 11);
    let (calibrating, detecting) = snapshots.split_at(7);
    assert!(calibrating.iter().all(|s| s.phase == "calibrating"));
    assert!(calibrating.iter().all(|s| s.background == vec![None; 360]));
    assert!(detecting.iter().all(|s| s.phase == "detecting"));
    assert!(detecting.iter().all(|s| s.background == detecting[0].background));
    for bin in 0..360 {
        let known = [0, 10, 300].contains(&bin);
        assert_eq!(detecting[0].background[bin], if known { Some(1000) } else { None });
    }
    let moving = |s: &ScanSnapshot| s.points.iter().filter(|p| p[2] == double(1.0)).count();
    assert!(calibrating.iter().all(|s| s.points.len() == 3 && moving(s) == 0));
    assert_eq!(moving(&detecting[0]), 0);
    assert!(detecting[1..].iter().all(|s| moving(s) == 3));
}

#[test]
fn humans_detected_are_the_tracks_just_seen() {
    let mut server = Server::new(0);
    read(&mut server, 35_000, 1000, 1);
    server.turn(0, ROUND, CALIBRATION);
    let all = vec![cluster(true, 0.0), cluster(false, 1.0), cluster(true, 2.0)];
    let s = server.publish(all, &vec![vec![]; 3], CALIBRATION, None);
    assert_eq!(s.humans_detected, 2);
    assert!(server.tracks.iter().all(|t| t.missed == 0));
    assert_eq!(server.tracks.len(), 2);

    // The first track is taken by something near it, the second by nothing, and one is new.
    let all = vec![cluster(false, 0.1), cluster(false, 1.0), cluster(true, 5.0)];
    let distance = vec![
        vec![double(0.1), double(1.9)],
        vec![double(1.0), double(1.0)],
        vec![double(5.0), double(3.0)],
    ];
    let s = server.publish(all, &distance, CALIBRATION, None);
    assert_eq!(s.humans_detected, 2);
    let seen: Vec<Point> =
        server.tracks.iter().filter(|t| t.missed == 0).map(|t| t.centroid).collect();
    assert_eq!(seen, vec![place(0.1, 1.0), place(5.0, 1.0)]);
    assert_eq!(server.tracks.len(), 3);
}

#[test]
fn barks_keep_their_distance_over_a_run() {
    let mut viewer = Viewer::new(0);
    let second = 1_000_000_000u128;
    let mut barks = Vec::new();
    let mut shown = Vec::new();
    for turn in 0..45u128 {
        let now = turn * second;
        for dir in [0, 30_000] {
            if let Turn::Done { .. } = viewer.turn(dir, ROUND, now) {
                let human = vec![cluster(true, 0.0)];
                let distance = vec![vec![double(0.0); viewer.tracks.len()]];
                let s = viewer.finish(human, &distance, &vec![double(1.0)], &vec![double(90.0)], now);
                assert_eq!(s.angle.is_some(), now >= CALIBRATION);
                if s.bark {
                    barks.push(now / second);
                }
                shown.push(viewer.scan.points.len());
                viewer.next_scan();
            }
            viewer.take(dir, 1000, place(0.0, 1.0));
        }
    }
    assert_eq!(barks, vec![30, 35, 40]);
    assert_eq!(BARK_COOLDOWN, 5 * second);
    assert_eq!(shown, vec![2; 44]);
}
