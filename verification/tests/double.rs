use lidar_monitor::double::Double;

fn double(value: f64) -> Double {
    Double { bits: value.to_bits() }
}

fn values() -> Vec<f64> {
    let mut all = vec![
        0.0,
        f64::MIN_POSITIVE,
        5e-324,
        0.15,
        0.39999999999999997,
        0.4,
        0.4000000000000001,
        1.0,
        180.0,
        1e300,
        f64::MAX,
        f64::INFINITY,
        f64::NAN,
    ];
    let negative: Vec<f64> = all.iter().map(|v| -v).collect();
    all.extend(negative);
    all
}

#[test]
fn comparisons_are_those_of_floats() {
    for a in values() {
        assert_eq!(double(a).is_nan(), a.is_nan());
        for b in values() {
            assert_eq!(double(a).less_than(double(b)), a < b, "{a} < {b}");
            assert_eq!(double(a).at_most(double(b)), a <= b, "{a} <= {b}");
        }
    }
}

#[test]
fn zeros_are_equal() {
    assert!(double(0.0).at_most(double(-0.0)));
    assert!(double(-0.0).at_most(double(0.0)));
    assert!(!double(-0.0).less_than(double(0.0)));
}
