use lidar_monitor::calibration::{Phase, ScanPoint, ANGLE_BINS};
use lidar_monitor::canvas::{
    draw_circle, draw_hline, draw_label, draw_progress_arc, draw_smile, draw_vline, fill_dot, Pixel,
    HEIGHT, WIDTH,
};
use lidar_monitor::double::{Double, Point};
use lidar_monitor::frame::{
    redraw, ClusterPixels, Dot, Projection, Scan, BG_COLOR, CAL_COLOR, GRID, MOTION_COLOR, ORIGIN,
    STATIC_COLOR,
};
use lidar_monitor::tracker::{Cluster, Features};

const NOWHERE: Point = Point { x: Double { bits: 0 }, y: Double { bits: 0 } };

fn scan(motion: &[bool], humans: &[bool]) -> Scan {
    let zero = Double { bits: 0 };
    Scan {
        points: motion.iter().map(|&is_motion| ScanPoint { at: NOWHERE, is_motion }).collect(),
        clusters: humans
            .iter()
            .map(|&is_human| Cluster {
                centroid: NOWHERE,
                is_human,
                features: Features { width: zero, depth: zero, curvature: zero, point_count: zero },
                points: vec![NOWHERE, NOWHERE],
            })
            .collect(),
    }
}

fn pixel(x: isize, y: isize) -> Pixel {
    Pixel { x, y }
}

fn cluster_pixels(x: isize, y: isize) -> ClusterPixels {
    ClusterPixels {
        dots: vec![
            Dot { at: pixel(x - 4, y), red: 255, blue: 0 },
            Dot { at: pixel(x, y), red: 10, blue: 245 },
        ],
        middle: pixel(x, y),
    }
}

fn grid() -> Vec<u32> {
    let mut buf = vec![BG_COLOR; WIDTH * HEIGHT];
    for r in [100, 200, 300, 400] {
        draw_circle(&mut buf, 400, 400, r, GRID);
    }
    draw_hline(&mut buf, 400, GRID);
    draw_vline(&mut buf, 400, GRID);
    buf
}

fn overlay(buf: &mut Vec<u32>) {
    draw_label(buf, 760, 40, "Q1", STATIC_COLOR);
    draw_label(buf, 20, 40, "Q2", STATIC_COLOR);
    draw_label(buf, 20, 760, "Q3", STATIC_COLOR);
    draw_label(buf, 760, 760, "Q4", STATIC_COLOR);
    fill_dot(buf, 400, 400, 4, ORIGIN);
}

fn at(buf: &[u32], x: usize, y: usize) -> u32 {
    buf[y * WIDTH + x]
}

#[test]
fn calibrating_frame() {
    let scan = scan(&[false, false], &[]);
    let phase = Phase::Calibrating { started: 0, samples: vec![vec![]; ANGLE_BINS] };
    let view = Projection {
        points: vec![pixel(500, 300), pixel(-1, 799)],
        background: vec![],
        clusters: vec![],
        arc: vec![pixel(0, -390), pixel(7, -390)],
        arc_end: 1,
    };
    let mut expected = grid();
    fill_dot(&mut expected, 500, 300, 2, CAL_COLOR);
    fill_dot(&mut expected, -1, 799, 2, CAL_COLOR);
    draw_progress_arc(&mut expected, 400, 400, &view.arc, 1, CAL_COLOR);
    overlay(&mut expected);

    let mut buf = vec![5; WIDTH * HEIGHT];
    redraw(&scan, &phase, &view, &mut buf);
    assert!(buf == expected);
    assert_eq!(at(&buf, 500, 300), CAL_COLOR);
    assert_eq!(at(&buf, 400, 10), CAL_COLOR);
    assert_eq!(at(&buf, 400, 400), ORIGIN);
}

#[test]
fn detecting_frame() {
    let scan = scan(&[true, false], &[false, true]);
    let phase = Phase::Detecting { background: vec![Some(1000), None] };
    let view = Projection {
        points: vec![pixel(100, 100), pixel(120, 120)],
        background: vec![pixel(200, 200), pixel(220, 220)],
        clusters: vec![cluster_pixels(600, 600), cluster_pixels(650, 500)],
        arc: vec![],
        arc_end: 0,
    };
    let mut expected = grid();
    fill_dot(&mut expected, 200, 200, 2, STATIC_COLOR);
    fill_dot(&mut expected, 100, 100, 3, MOTION_COLOR);
    fill_dot(&mut expected, 646, 500, 3, 0xff0000);
    fill_dot(&mut expected, 650, 500, 3, 0x0a00f5);
    draw_smile(&mut expected, 650, 482, 0x0000ff);
    overlay(&mut expected);

    let mut buf = vec![5; WIDTH * HEIGHT];
    redraw(&scan, &phase, &view, &mut buf);
    assert!(buf == expected);
    assert_eq!(at(&buf, 100, 100), MOTION_COLOR);
    assert_eq!(at(&buf, 120, 120), BG_COLOR);
    assert_eq!(at(&buf, 200, 200), STATIC_COLOR);
    assert_eq!(at(&buf, 220, 220), BG_COLOR);
    assert_eq!(at(&buf, 600, 600), BG_COLOR);
    assert_eq!(at(&buf, 650, 500), 0x0a00f5);
    assert_eq!(at(&buf, 660, 482), 0x0000ff);
}

#[test]
fn frames_do_not_depend_on_what_was_there() {
    let scan = scan(&[true], &[]);
    let phase = Phase::Detecting { background: vec![] };
    let view = Projection {
        points: vec![pixel(100, 100)],
        background: vec![],
        clusters: vec![],
        arc: vec![],
        arc_end: 0,
    };
    let mut first = vec![1; WIDTH * HEIGHT];
    let mut second = vec![2; WIDTH * HEIGHT];
    redraw(&scan, &phase, &view, &mut first);
    redraw(&scan, &phase, &view, &mut second);
    assert!(first == second);
    redraw(&scan, &phase, &view, &mut second);
    assert!(first == second);
}

#[test]
fn pixels_after_the_window_are_blanked() {
    let scan = scan(&[], &[]);
    let phase = Phase::Detecting { background: vec![] };
    let view = Projection {
        points: vec![],
        background: vec![],
        clusters: vec![],
        arc: vec![],
        arc_end: 0,
    };
    let mut buf = vec![1; WIDTH * HEIGHT + 3];
    redraw(&scan, &phase, &view, &mut buf);
    assert_eq!(buf[WIDTH * HEIGHT..], [BG_COLOR; 3]);
}
