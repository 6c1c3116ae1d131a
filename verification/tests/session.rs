use lidar_monitor::calibration::{Phase, CALIBRATION};
use lidar_monitor::double::{Double, Point};
use lidar_monitor::session::{is_wrapped, Server, Sighting, Turn, Viewer, BARK_COOLDOWN, NO_DIR};
use lidar_monitor::tracker::{Cluster, Features};

const ROUND: u16 = 36_000;

fn double(value: f64) -> Double {
    Double { bits: value.to_bits() }
}

fn place(x: f64, y: f64) -> Point {
    Point { x: double(x), y: double(y) }
}

fn human() -> Cluster {
    let zero = double(0.0);
    Cluster {
        centroid: place(0.0, 1.0),
        is_human: true,
        features: Features { width: zero, depth: zero, curvature: zero, point_count: zero },
        points: vec![],
    }
}

#[test]
fn turns_begin_where_the_direction_falls_back() {
    assert!(is_wrapped(35_990, 10, ROUND));
    assert!(is_wrapped(18_001, 18_000, ROUND));
    assert!(!is_wrapped(18_000, 10, ROUND));
    assert!(!is_wrapped(35_990, 35_990, ROUND));
    assert!(!is_wrapped(35_990, 35_995, ROUND));
    assert!(!is_wrapped(NO_DIR, 10, ROUND));
}

/// Feeds five readings at one metre into every tenth of a degree around 10 degrees.
fn calibrated_server() -> Server {
    let mut server = Server::new(0);
    for scan in 0..5u128 {
        for dir in [1000, 1050, 35_000] {
            let turn = server.turn(dir, ROUND, scan);
            if let Turn::Done { locked, foreground } = turn {
                assert_eq!(locked, None);
                assert_eq!(foreground, None);
                let s = server.publish(vec![], &vec![], scan, None);
                assert_eq!(s.background, vec![None; 360]);
            }
            server.take(dir, 1000, place(0.0, 1.0));
        }
    }
    server
}

#[test]
fn server_calibrates_then_detects() {
    let mut server = calibrated_server();
    assert_eq!(server.scan_number, 4);
    assert_eq!(server.raw_points.len(), 3);

    let turn = server.turn(1000, ROUND, CALIBRATION);
    assert_eq!(turn, Turn::Done { locked: Some(2), foreground: Some(vec![]) });
    let s = server.publish(vec![], &vec![], CALIBRATION, Some(3));
    assert_eq!(s.phase, "detecting");
    assert_eq!(s.scan_number, 5);
    assert_eq!(s.timestamp_ms, 3);
    assert_eq!(s.points.len(), 3);
    assert_eq!(s.background.len(), 360);
    assert_eq!(s.background[10], Some(1000));
    assert_eq!(s.background[350], Some(1000));
    assert_eq!(s.background[11], None);
    assert!(server.raw_points.is_empty());

    server.take(1000, 1000, place(0.0, 1.0));
    server.take(1010, 1400, place(0.0, 1.4));
    server.take(1020, 0, place(0.0, 0.0));
    assert_eq!(server.turn(34_000, ROUND, CALIBRATION), Turn::Going);
    server.take(34_000, 2000, place(0.0, 2.0));
    let turn = server.turn(5, ROUND, CALIBRATION);
    assert_eq!(
        turn,
        Turn::Done { locked: None, foreground: Some(vec![place(0.0, 1.4), place(0.0, 2.0)]) }
    );
    let s = server.publish(vec![human()], &vec![vec![]], CALIBRATION, None);
    assert_eq!(s.humans_detected, 1);
    assert_eq!(server.tracks.len(), 1);
}

#[test]
fn server_starts_empty() {
    let server = Server::new(9);
    assert!(matches!(server.phase, Phase::Calibrating { started: 9, .. }));
    assert_eq!(server.last_dir, NO_DIR);
    assert_eq!(server.scan_number, 0);
    assert!(server.raw_points.is_empty());
    assert!(server.tracks.is_empty());
}

fn detecting_viewer() -> Viewer {
    let mut viewer = Viewer::new(0);
    assert_eq!(viewer.turn(35_000, ROUND, 1), Turn::Going);
    viewer.take(35_000, 1500, place(1.0, 1.0));
    let turn = viewer.turn(0, ROUND, CALIBRATION);
    assert_eq!(turn, Turn::Done { locked: Some(0), foreground: Some(vec![]) });
    viewer
}

fn see(viewer: &mut Viewer, clusters: Vec<Cluster>, now: u128) -> Sighting {
    let n = clusters.len();
    let distance = vec![vec![double(9.0); viewer.tracks.len()]; n];
    viewer.finish(clusters, &distance, &vec![double(1.0); n], &vec![double(90.0); n], now)
}

#[test]
fn viewer_barks_with_a_cooldown() {
    let mut viewer = detecting_viewer();
    let start = CALIBRATION;
    let seen = see(&mut viewer, vec![human()], start);
    assert_eq!(seen, Sighting { angle: Some(double(90.0)), bark: true });
    let seen = see(&mut viewer, vec![human()], start + BARK_COOLDOWN - 1);
    assert_eq!(seen, Sighting { angle: Some(double(90.0)), bark: false });
    assert_eq!(viewer.last_bark, Some(start));
    let seen = see(&mut viewer, vec![], start + BARK_COOLDOWN);
    assert_eq!(seen, Sighting { angle: None, bark: false });
    let seen = see(&mut viewer, vec![human()], start + BARK_COOLDOWN);
    assert_eq!(seen, Sighting { angle: Some(double(90.0)), bark: true });
    assert_eq!(viewer.last_bark, Some(start + BARK_COOLDOWN));
    assert_eq!(BARK_COOLDOWN, 5_000_000_000);
}

#[test]
fn viewer_sees_nobody_while_calibrating() {
    let mut viewer = Viewer::new(0);
    let seen = see(&mut viewer, vec![human()], 10);
    assert_eq!(seen, Sighting { angle: None, bark: false });
    assert!(viewer.scan.clusters.is_empty());
    assert!(viewer.tracks.is_empty());
    assert_eq!(viewer.last_bark, None);
}

#[test]
fn viewer_keeps_clusters_for_the_frame() {
    let mut viewer = detecting_viewer();
    see(&mut viewer, vec![human()], CALIBRATION);
    assert_eq!(viewer.scan.clusters, vec![human()]);
    assert_eq!(viewer.scan.points.len(), 1);
    viewer.next_scan();
    assert!(viewer.scan.points.is_empty());
    assert_eq!(viewer.scan.clusters.len(), 1);
    viewer.take(4200, 900, place(2.0, 2.0));
    assert_eq!(viewer.scan.points.len(), 1);
    assert!(viewer.scan.points[0].is_motion);
}
