//! Tests of the curve parser and the interpolator.

use amdfand::interpolation::{Error, Interpolator};

fn lines(ls: &[&str]) -> Vec<Vec<u8>> {
    ls.iter().map(|l| l.as_bytes().to_vec()).collect()
}

fn table(ls: &[&str]) -> Interpolator {
    Interpolator::from_lines(&lines(ls)).expect("curve must parse")
}

fn entries(t: &Interpolator) -> Vec<(i16, u8)> {
    let mut v = Vec::new();
    for i in 0..t.len() {
        v.push(t.entry(i));
    }
    v
}

#[test]
fn round_trip_scaling_and_boundaries() {
    let t = table(&["0 => 10", "50 => 40", "60 => 70", "100 => 100"]);
    assert_eq!(entries(&t), vec![(0, 25), (50, 102), (60, 178), (100, 255)]);
    assert_eq!(t.interpolate(-1), 25);
    assert_eq!(t.interpolate(101), 255);
    assert_eq!(t.interpolate(0), 25);
    assert_eq!(t.interpolate(50), 102);
    assert_eq!(t.interpolate(55), 140);
    assert_eq!(t.interpolate(25), 63);
    assert_eq!(t.interpolate(80), 216);
    assert_eq!(t.interpolate(100), 255);
}

#[test]
fn low_clamp_returns_lowest_duty() {
    let t = table(&["10 => 20", "50 => 40"]);
    assert_eq!(t.interpolate(10), 51);
    assert_eq!(t.interpolate(9), 51);
    assert_eq!(t.interpolate(-32768), 51);
}

#[test]
fn above_highest_returns_full_speed_not_highest_duty() {
    let t = table(&["10 => 20", "50 => 40"]);
    assert_eq!(t.interpolate(50), 102);
    assert_eq!(t.interpolate(51), 255);
    assert_eq!(t.interpolate(32767), 255);
}

#[test]
fn empty_table_returns_full_speed() {
    let t = table(&[]);
    assert_eq!(t.len(), 0);
    assert_eq!(t.interpolate(-32768), 255);
    assert_eq!(t.interpolate(0), 255);
    assert_eq!(t.interpolate(32767), 255);
}

#[test]
fn duplicate_temperature_keeps_last_entry_only() {
    let t = table(&["10 => 20", "10 => 50"]);
    assert_eq!(entries(&t), vec![(10, 127)]);
}

#[test]
fn entries_come_out_sorted_with_unique_keys() {
    let t = table(&["60 => 70", "0 => 10", "50 => 40", "0 => 20"]);
    assert_eq!(entries(&t), vec![(0, 51), (50, 102), (60, 178)]);
}

#[test]
fn monotonic_on_rising_curve() {
    let t = table(&["0 => 10", "50 => 40", "60 => 70", "100 => 100"]);
    let mut prev: u8 = t.interpolate(0);
    let mut temp: i16 = 0;
    while temp <= 100 {
        let d = t.interpolate(temp);
        assert!(d >= prev, "duty fell from {prev} to {d} at {temp}");
        prev = d;
        temp += 1;
    }
}

#[test]
fn malformed_temperature_identifies_offending_line() {
    let r = Interpolator::from_lines(&lines(&["notanumber => 50"]));
    match r {
        Err(Error::ParseTemperature(l)) => assert_eq!(l, b"notanumber => 50".to_vec()),
        other => panic!("expected a temperature parse error, got {other:?}"),
    }
}

#[test]
fn missing_delimiter_identifies_offending_line() {
    let r = Interpolator::from_lines(&lines(&["0 => 10", "10 50"]));
    match r {
        Err(Error::ConfigMissingDelimiter(l)) => assert_eq!(l, b"10 50".to_vec()),
        other => panic!("expected a missing-delimiter error, got {other:?}"),
    }
}

#[test]
fn blank_line_is_an_error_not_skipped() {
    let r = Interpolator::from_config_text(&b"0 => 10\n\n50 => 40\n".to_vec());
    match r {
        Err(Error::ConfigMissingDelimiter(l)) => assert_eq!(l, b"".to_vec()),
        other => panic!("expected a missing-delimiter error, got {other:?}"),
    }
}

#[test]
fn malformed_percentage_identifies_offending_line() {
    let r = Interpolator::from_lines(&lines(&["10 => abc"]));
    match r {
        Err(Error::ParseFanPercent(l)) => assert_eq!(l, b"10 => abc".to_vec()),
        other => panic!("expected a percentage parse error, got {other:?}"),
    }
}

#[test]
fn negative_percentage_is_rejected() {
    let r = Interpolator::from_lines(&lines(&["10 => -5"]));
    assert!(matches!(r, Err(Error::ParseFanPercent(_))));
}

#[test]
fn out_of_range_temperature_is_rejected() {
    let r = Interpolator::from_lines(&lines(&["40000 => 10"]));
    assert!(matches!(r, Err(Error::ParseTemperature(_))));
    let r = Interpolator::from_lines(&lines(&["-40000 => 10"]));
    assert!(matches!(r, Err(Error::ParseTemperature(_))));
}

#[test]
fn extreme_temperatures_parse() {
    let t = table(&["-32768 => 0", "32767 => 100"]);
    assert_eq!(entries(&t), vec![(-32768, 0), (32767, 255)]);
}

#[test]
fn first_bad_line_decides_the_error() {
    let r = Interpolator::from_lines(&lines(&["0 => 10", "bad", "x => 1"]));
    match r {
        Err(Error::ConfigMissingDelimiter(l)) => assert_eq!(l, b"bad".to_vec()),
        other => panic!("expected the second line's error, got {other:?}"),
    }
}

#[test]
fn fractional_percentages_truncate() {
    let t = table(&["0 => 0.5", "10 => 33.3", "20 => 100.5"]);
    assert_eq!(entries(&t), vec![(0, 1), (10, 84), (20, 255)]);
}

#[test]
fn oversized_percentage_saturates() {
    let t = table(&["0 => 150"]);
    assert_eq!(entries(&t), vec![(0, 255)]);
}

#[test]
fn signed_and_spaced_fields_parse() {
    let t = table(&["  -5  =>  20  ", "+10 => +30"]);
    assert_eq!(entries(&t), vec![(-5, 51), (10, 76)]);
}

#[test]
fn config_text_splits_lines_and_strips_carriage_returns() {
    let t = Interpolator::from_config_text(&b"0 => 10\r\n50 => 40".to_vec()).unwrap();
    assert_eq!(entries(&t), vec![(0, 25), (50, 102)]);
    let t = Interpolator::from_config_text(&b"0 => 10\n50 => 40\n".to_vec()).unwrap();
    assert_eq!(entries(&t), vec![(0, 25), (50, 102)]);
}
