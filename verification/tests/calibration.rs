use lidar_monitor::calibration::{
    bin_background, foreground, locked_bins, maybe_finish_calibration, start_calibration,
    take_reading, time_since, Phase, ScanPoint, ANGLE_BINS, CALIBRATION,
};
use lidar_monitor::double::{Double, Point};

fn place(x: f64, y: f64) -> Point {
    Point { x: Double { bits: x.to_bits() }, y: Double { bits: y.to_bits() } }
}

fn samples(phase: &Phase) -> &Vec<Vec<u32>> {
    match phase {
        Phase::Calibrating { samples, .. } => samples,
        Phase::Detecting { .. } => panic!("calibration is over"),
    }
}

fn background(phase: &Phase) -> &Vec<Option<u32>> {
    match phase {
        Phase::Detecting { background } => background,
        Phase::Calibrating { .. } => panic!("still calibrating"),
    }
}

#[test]
fn background_needs_five_readings() {
    assert_eq!(bin_background(&vec![]), None);
    assert_eq!(bin_background(&vec![9, 9, 9, 9]), None);
    assert_eq!(bin_background(&vec![9, 9, 9, 9, 9]), Some(9));
}

#[test]
fn background_is_the_upper_median() {
    assert_eq!(bin_background(&vec![5, 1, 3, 2, 4]), Some(3));
    assert_eq!(bin_background(&vec![6, 5, 4, 3, 2, 1]), Some(4));
    assert_eq!(bin_background(&vec![1000, 10, 1000, 10, 1000, 10, 10]), Some(10));
}

#[test]
fn background_is_that_of_sorted_floats() {
    let mut state: u32 = 12345;
    for n in 5..80usize {
        let mut mm = Vec::new();
        for _ in 0..n {
            state = state.wrapping_mul(1664525).wrapping_add(1013904223);
            mm.push(1 + (state >> 16) % 4000);
        }
        let mut meters: Vec<f64> = mm.iter().map(|&v| v as f64 / 1000.0).collect();
        meters.sort_by(|a, b| a.partial_cmp(b).unwrap());
        let median = bin_background(&mm).unwrap();
        assert_eq!(median as f64 / 1000.0, meters[n / 2]);
    }
}

#[test]
fn order_of_readings_does_not_matter() {
    assert_eq!(bin_background(&vec![4, 8, 15, 16, 23, 42]), Some(16));
    assert_eq!(bin_background(&vec![42, 4, 16, 8, 23, 15]), Some(16));
}

#[test]
fn time_does_not_run_backwards() {
    assert_eq!(time_since(5, 12), 7);
    assert_eq!(time_since(12, 5), 0);
}

#[test]
fn calibration_starts_empty() {
    let phase = start_calibration(77);
    assert_eq!(samples(&phase).len(), ANGLE_BINS);
    assert!(samples(&phase).iter().all(|s| s.is_empty()));
    assert!(matches!(phase, Phase::Calibrating { started: 77, .. }));
}

#[test]
fn calibration_lasts_thirty_seconds() {
    assert_eq!(CALIBRATION, 30_000_000_000);
    let phase = maybe_finish_calibration(start_calibration(1), CALIBRATION);
    assert!(matches!(phase, Phase::Calibrating { started: 1, .. }));
    let phase = maybe_finish_calibration(phase, CALIBRATION + 1);
    assert_eq!(background(&phase), &vec![None; ANGLE_BINS]);
    let phase = maybe_finish_calibration(phase, 0);
    assert_eq!(background(&phase), &vec![None; ANGLE_BINS]);
}

#[test]
fn readings_fall_into_their_bins() {
    let mut phase = start_calibration(0);
    let mut points = Vec::new();
    for (dir, bin) in [(0u16, 0usize), (99, 0), (100, 1), (35_999, 359), (36_000, 0), (65_535, 295)] {
        let before = samples(&phase)[bin].len();
        take_reading(&mut phase, &mut points, dir, 1234, place(1.0, 2.0));
        assert_eq!(samples(&phase)[bin].len(), before + 1);
    }
    assert_eq!(samples(&phase)[0], vec![1234, 1234, 1234]);
    assert_eq!(points.len(), 6);
    assert!(points.iter().all(|p| !p.is_motion && p.at == place(1.0, 2.0)));
}

#[test]
fn bins_are_those_of_floats() {
    let mut phase = start_calibration(0);
    for dir in 0..=u16::MAX {
        let bin = ((dir as f64 / 100.0).floor() as usize) % ANGLE_BINS;
        let before = samples(&phase)[bin].len();
        take_reading(&mut phase, &mut Vec::new(), dir, 5, place(0.0, 0.0));
        assert_eq!(samples(&phase)[bin].len(), before + 1);
    }
}

#[test]
fn readings_out_of_range_are_dropped() {
    let mut phase = start_calibration(0);
    let mut points = Vec::new();
    for mm in [0, 4001, 12_000, u32::MAX] {
        take_reading(&mut phase, &mut points, 0, mm, place(0.0, 0.0));
    }
    assert!(points.is_empty());
    assert!(samples(&phase)[0].is_empty());
    take_reading(&mut phase, &mut points, 0, 4000, place(0.0, 0.0));
    take_reading(&mut phase, &mut points, 0, 1, place(0.0, 0.0));
    assert_eq!(samples(&phase)[0], vec![4000, 1]);
}

#[test]
fn what_calibration_learns_tells_motion() {
    let mut phase = start_calibration(0);
    let mut points = Vec::new();
    for mm in [1000, 1002, 998, 1001, 999] {
        take_reading(&mut phase, &mut points, 4550, mm, place(0.0, 0.0));
    }
    let mut phase = maybe_finish_calibration(phase, CALIBRATION);
    assert_eq!(background(&phase)[45], Some(1000));
    assert_eq!(locked_bins(background(&phase)), 1);
    points.clear();
    for mm in [1000, 1149, 1150, 1151, 851, 850, 849] {
        take_reading(&mut phase, &mut points, 4500, mm, place(0.0, 0.0));
    }
    let motion: Vec<bool> = points.iter().map(|p| p.is_motion).collect();
    assert_eq!(motion, vec![false, false, false, true, false, true, true]);
    assert_eq!(background(&phase)[45], Some(1000));
}

#[test]
fn everything_moves_where_nothing_is_known() {
    let mut phase = maybe_finish_calibration(start_calibration(0), CALIBRATION);
    let mut points = Vec::new();
    take_reading(&mut phase, &mut points, 0, 2000, place(3.0, 4.0));
    assert_eq!(points, vec![ScanPoint { at: place(3.0, 4.0), is_motion: true }]);
}

#[test]
fn foreground_is_what_moved() {
    let points = vec![
        ScanPoint { at: place(1.0, 0.0), is_motion: true },
        ScanPoint { at: place(2.0, 0.0), is_motion: false },
        ScanPoint { at: place(3.0, 0.0), is_motion: true },
    ];
    assert_eq!(foreground(&points), vec![place(1.0, 0.0), place(3.0, 0.0)]);
    assert_eq!(foreground(&vec![]), vec![]);
}

#[test]
fn locked_bins_are_counted() {
    assert_eq!(locked_bins(&vec![None, Some(1), None, Some(2), Some(3)]), 3);
    assert_eq!(locked_bins(&vec![]), 0);
}
