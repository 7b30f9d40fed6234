use onebrc::{format_tenths, round_mean};

fn rendered(t: i64) -> String {
    String::from_utf8(format_tenths(t)).unwrap()
}

#[test]
fn test_round_value() {
    // 10.0, -20.0 and 1.0/3.0*2.0 (two thirds: 20 tenths over 3 values)
    // rendered with one fractional digit.
    assert_eq!(
        (
            rendered(round_mean(100, 1)),
            rendered(round_mean(-200, 1)),
            rendered(round_mean(20, 3)),
        ),
        ("10.0".to_string(), "-20.0".to_string(), "0.7".to_string())
    );
}

#[test]
fn mean_rounds_to_nearest_tenth() {
    // 10.0/3.0*2.0 = 20/3 = 6.666... rounds to 6.7.
    assert_eq!(rendered(round_mean(200, 3)), "6.7");
    // A value already in tenths stays exactly itself.
    assert_eq!(rendered(round_mean(-200, 1)), "-20.0");
}

#[test]
fn rounding_is_idempotent_on_tenths() {
    for t in [-200i128, -55, -1, 0, 1, 67, 100, 999] {
        let r = round_mean(t, 1);
        assert_eq!(r as i128, t);
        assert_eq!(round_mean(r as i128, 1), r);
    }
}

#[test]
fn ties_round_away_from_zero() {
    // 1.5 tenths over 2 values: mean 0.75 -> 0.8; mirrored for -0.75.
    assert_eq!(round_mean(15, 2), 8);
    assert_eq!(round_mean(-15, 2), -8);
    assert_eq!(round_mean(5, 2), 3);
    assert_eq!(round_mean(-5, 2), -3);
}

#[test]
fn renders_exactly_one_fractional_digit() {
    assert_eq!(rendered(0), "0.0");
    assert_eq!(rendered(-1), "-0.1");
    assert_eq!(rendered(7), "0.7");
    assert_eq!(rendered(-137), "-13.7");
    assert_eq!(rendered(27), "2.7");
    assert_eq!(rendered(1000), "100.0");
    assert_eq!(rendered(i64::MAX), "922337203685477580.7");
    assert_eq!(rendered(i64::MIN), "-922337203685477580.8");
}
