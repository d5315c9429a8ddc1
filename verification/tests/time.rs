use play::time::{format_time, parse_time, pts_to_us, Rational, TimeError};

// --- format_time ---

#[test]
fn format_time_zero() {
    assert_eq!(format_time(0), "00:00:00");
}

#[test]
fn format_time_positive() {
    // 1h 23m 45s
    let us = (3600 + 23 * 60 + 45) * 1_000_000;
    assert_eq!(format_time(us), "01:23:45");
}

#[test]
fn format_time_negative() {
    let us = -((2 * 60 + 30) * 1_000_000);
    assert_eq!(format_time(us), "-00:02:30");
}

#[test]
fn format_time_boundary() {
    // 59:59:59
    let us = (59 * 3600 + 59 * 60 + 59) * 1_000_000;
    assert_eq!(format_time(us), "59:59:59");
}

#[test]
fn format_time_large() {
    // 100 hours
    let us: i64 = 100 * 3600 * 1_000_000;
    assert_eq!(format_time(us), "100:00:00");
}

#[test]
fn format_time_truncates_subsecond() {
    // 1.999s should display as 1s
    assert_eq!(format_time(1_999_999), "00:00:01");
}

// --- parse_time ---

#[test]
fn parse_time_bare_seconds() {
    assert_eq!(parse_time("90").unwrap(), 90_000_000);
}

#[test]
fn parse_time_mm_ss() {
    assert_eq!(parse_time("1:30").unwrap(), 90_000_000);
}

#[test]
fn parse_time_hh_mm_ss() {
    assert_eq!(parse_time("1:02:03").unwrap(), (3600 + 120 + 3) * 1_000_000);
}

#[test]
fn parse_time_fractional() {
    assert_eq!(parse_time("1.5").unwrap(), 1_500_000);
}

#[test]
fn parse_time_invalid() {
    assert!(parse_time("not:a:time:stamp").is_err());
    assert!(parse_time("abc").is_err());
}

// --- pts_to_us ---

#[test]
fn pts_to_us_90k_timebase() {
    let tb = Rational::new(1, 90000);
    // 90000 ticks = 1 second = 1_000_000 us
    assert_eq!(pts_to_us(90000, tb), 1_000_000);
}

#[test]
fn pts_to_us_48k_timebase() {
    let tb = Rational::new(1, 48000);
    assert_eq!(pts_to_us(48000, tb), 1_000_000);
}

#[test]
fn pts_to_us_zero_denominator() {
    let tb = Rational::new(0, 0);
    assert_eq!(pts_to_us(12345, tb), 0);
}

#[test]
fn pts_to_us_large_value_no_overflow() {
    let tb = Rational::new(1, 90000);
    // 8 hours in 90kHz ticks — would overflow with i64 multiply
    let pts: i64 = 8 * 3600 * 90000;
    let us = pts_to_us(pts, tb);
    assert_eq!(us, 8 * 3600 * 1_000_000);
}

#[test]
fn parse_time_names_what_is_wrong() {
    assert_eq!(parse_time("1:2:3:4"), Err(TimeError::InvalidFormat));
    assert_eq!(parse_time("1:x"), Err(TimeError::InvalidNumber));
    assert_eq!(parse_time(""), Err(TimeError::InvalidNumber));
}

#[test]
fn parse_time_gives_the_nearest_microsecond() {
    for text in ["1.005", "0.1", "2.3", "4.35", "1e3", "-1.5", "1e300", "-1e300", "nan", "inf"] {
        let seconds: f64 = text.parse().unwrap();
        assert_eq!(parse_time(text), Ok((seconds * 1_000_000.0).round() as i64), "{text}");
    }
    assert_eq!(parse_time("1.005"), Ok(1_005_000));
    assert_eq!(parse_time("1.0000006"), Ok(1_000_001));
    assert_eq!(parse_time("-0.0000004"), Ok(0));
    assert_eq!(parse_time("0.5:30.25"), Ok(60_250_000));
}

#[test]
fn times_of_whole_microseconds_are_exact() {
    assert_eq!(parse_time("-1.005"), Ok(-1_005_000));
    assert_eq!(parse_time("1073741823.999999"), Ok(1_073_741_823_999_999));
    assert_eq!(parse_time("59:59.999999"), Ok(3_599_999_999));
    assert_eq!(parse_time("99:59:59.999"), Ok(359_999_999_000));
    assert_eq!(parse_time("298261:36:15.999999"), Ok(1_073_741_775_999_999));
    for ms in 0..1000 {
        let bare = format!("1.{ms:03}");
        assert_eq!(parse_time(&bare), Ok(1_000_000 + ms * 1_000), "{bare}");
        let clock = format!("02:03:04.{ms:03}");
        assert_eq!(parse_time(&clock), Ok(7_384_000_000 + ms * 1_000), "{clock}");
    }
}

#[test]
fn printed_time_reads_back() {
    for us in [0, 1_000_000, 59_999_999, 3_600_000_000, 362_439_000_000, 576_460_752_303_000_000] {
        assert_eq!(parse_time(&format_time(us)), Ok(us / 1_000_000 * 1_000_000));
    }
    let last = i64::MAX / 1_000_000;
    let nearest = (last as f64 * 1_000_000.0) as i64;
    assert_eq!(parse_time(&format_time(i64::MAX)), Ok(nearest));
}

#[test]
fn format_time_covers_the_range() {
    assert_eq!(format_time(-999_999), "-00:00:00");
    assert_eq!(format_time(i64::MIN), "-2562047788:00:54");
    assert_eq!(format_time(i64::MAX), "2562047788:00:54");
}

#[test]
fn pts_to_us_rounds_towards_zero_and_wraps() {
    assert_eq!(pts_to_us(1, Rational::new(1, 3)), 333_333);
    assert_eq!(pts_to_us(-1, Rational::new(1, 3)), -333_333);
    assert_eq!(pts_to_us(1, Rational::new(1, -3)), -333_333);
    assert_eq!(pts_to_us(i64::MAX, Rational::new(1, 1)), -1_000_000);
    let base = Rational::new(1001, 30000);
    assert_eq!((base.numerator(), base.denominator()), (1001, 30000));
}
