use lidar_monitor::calibration::{start_calibration, Phase, ScanPoint, CALIBRATION};
use lidar_monitor::double::{Double, Point};
use lidar_monitor::snapshot::{build_snapshot, clusters_to_json, count_humans, FeaturesJson};
use lidar_monitor::tracker::{Cluster, Features, HumanTrack};

fn double(value: f64) -> Double {
    Double { bits: value.to_bits() }
}

fn place(x: f64, y: f64) -> Point {
    Point { x: double(x), y: double(y) }
}

fn cluster(x: f64, is_human: bool) -> Cluster {
    Cluster {
        centroid: place(x, 1.5),
        is_human,
        features: Features {
            width: double(0.5),
            depth: double(0.25),
            curvature: double(0.125),
            point_count: double(2.0),
        },
        points: vec![place(x, 1.0), place(x, 2.0)],
    }
}

fn points() -> Vec<ScanPoint> {
    vec![
        ScanPoint { at: place(1.0, 2.0), is_motion: true },
        ScanPoint { at: place(3.0, 4.0), is_motion: false },
    ]
}

#[test]
fn clusters_are_told_in_order() {
    let json = clusters_to_json(vec![cluster(0.5, true), cluster(-2.0, false)]);
    assert_eq!(json.len(), 2);
    assert_eq!(json[0].centroid, [double(0.5), double(1.5)]);
    assert!(json[0].is_human);
    assert!(!json[1].is_human);
    assert_eq!(
        json[1].features,
        FeaturesJson {
            width: double(0.5),
            depth: double(0.25),
            curvature: double(0.125),
            point_count: double(2.0),
        }
    );
    assert_eq!(
        json[1].points,
        vec![[double(-2.0), double(1.0)], [double(-2.0), double(2.0)]]
    );
}

#[test]
fn humans_are_counted() {
    assert_eq!(count_humans(&vec![]), 0);
    assert_eq!(count_humans(&vec![cluster(0.0, true), cluster(1.0, false), cluster(2.0, true)]), 2);
}

#[test]
fn snapshot_while_calibrating() {
    let phase = start_calibration(1_000);
    let mut tracks = vec![HumanTrack { centroid: place(0.0, 0.0), missed: 3 }];
    let before = tracks.clone();
    let s = build_snapshot(
        &points(),
        &phase,
        vec![cluster(0.0, true)],
        &vec![],
        &mut tracks,
        17,
        15_000_001_000,
        Some(1_700_000_000_123),
    );
    assert_eq!(s.phase, "calibrating");
    assert_eq!(s.calibration_progress, CALIBRATION / 2);
    assert_eq!(s.scan_number, 17);
    assert_eq!(s.timestamp_ms, 1_700_000_000_123);
    assert_eq!(
        s.points,
        vec![
            [double(1.0), double(2.0), double(1.0)],
            [double(3.0), double(4.0), double(0.0)],
        ]
    );
    assert_eq!(s.background, vec![None; 360]);
    assert!(s.clusters.is_empty());
    assert_eq!(s.humans_detected, 0);
    assert_eq!(tracks, before);
}

#[test]
fn progress_is_capped() {
    for (now, progress) in [(0, 0), (CALIBRATION - 1, CALIBRATION - 1), (u128::MAX, CALIBRATION)] {
        let phase = start_calibration(0);
        let s = build_snapshot(&vec![], &phase, vec![], &vec![], &mut vec![], 0, now, None);
        assert_eq!(s.calibration_progress, progress);
    }
}

#[test]
fn timestamps_have_sixty_four_bits() {
    for (ms, told) in [(None, 0), (Some(5), 5), (Some((1u128 << 64) + 9), 9)] {
        let phase = start_calibration(0);
        let s = build_snapshot(&vec![], &phase, vec![], &vec![], &mut vec![], 0, 0, ms);
        assert_eq!(s.timestamp_ms, told);
    }
}

#[test]
fn snapshot_while_detecting() {
    let phase = Phase::Detecting { background: vec![Some(1500), None] };
    let mut tracks = vec![HumanTrack { centroid: place(0.1, 1.5), missed: 3 }];
    let clusters = vec![cluster(0.0, false), cluster(3.0, false), cluster(-3.0, true)];
    let distance = vec![vec![double(0.1)], vec![double(2.9)], vec![double(3.1)]];
    let s = build_snapshot(&points(), &phase, clusters, &distance, &mut tracks, 18, 5, None);
    assert_eq!(s.phase, "detecting");
    assert_eq!(s.calibration_progress, CALIBRATION);
    assert_eq!(s.scan_number, 18);
    assert_eq!(s.background, vec![Some(1500), None]);
    assert_eq!(s.points.len(), 2);
    let humans: Vec<bool> = s.clusters.iter().map(|c| c.is_human).collect();
    assert_eq!(humans, vec![true, false, true]);
    assert_eq!(s.humans_detected, 2);
    assert_eq!(
        tracks,
        vec![
            HumanTrack { centroid: place(0.0, 1.5), missed: 0 },
            HumanTrack { centroid: place(-3.0, 1.5), missed: 0 },
        ]
    );
}
