use lidar_monitor::distance::is_apart;

fn apart(mm: u32, other: u32) -> bool {
    (mm as f64 / 1000.0 - other as f64 / 1000.0).abs() > 0.15
}

#[test]
fn rounding_decides_at_the_tolerance() {
    assert!(is_apart(1000, 850));
    assert!(!is_apart(1150, 1000));
    assert!(is_apart(151, 0));
    assert!(!is_apart(150, 0));
}

#[test]
fn clear_cases() {
    for mm in [1, 500, 2000, 3849] {
        assert!(!is_apart(mm, mm));
        assert!(!is_apart(mm, mm + 149));
        assert!(!is_apart(mm + 149, mm));
        assert!(is_apart(mm, mm + 151));
        assert!(is_apart(mm + 151, mm));
    }
}

#[test]
fn agrees_with_floats_near_the_tolerance() {
    for mm in 0..=4000u32 {
        for other in mm.saturating_sub(153)..=mm.saturating_sub(147) {
            assert_eq!(is_apart(mm, other), apart(mm, other), "{mm} {other}");
            assert_eq!(is_apart(other, mm), apart(other, mm), "{other} {mm}");
        }
    }
}

#[test]
fn agrees_with_floats_everywhere_else() {
    for mm in (0..=4000u32).step_by(7) {
        for other in (0..=4000u32).step_by(11) {
            assert_eq!(is_apart(mm, other), apart(mm, other), "{mm} {other}");
        }
    }
    for (mm, other) in [(u32::MAX, u32::MAX - 150), (65_535, 65_385), (1_000_000, 1_000_150)] {
        assert_eq!(is_apart(mm, other), apart(mm, other), "{mm} {other}");
    }
}
