use play::bignum::BigNat;
use play::binary64::{from_u64, multiply, plus, round, to_i64, to_nearest_i64, Double};
use play::decimal::parse_double;

fn read(s: &str) -> Option<Double> {
    parse_double(&s.chars().collect())
}

/// The machine's double of the same value.
fn machine(d: Double) -> f64 {
    match d {
        Double::NotANumber => f64::NAN,
        Double::Infinite { negative } => if negative { f64::NEG_INFINITY } else { f64::INFINITY },
        Double::Finite { negative, mantissa, exponent } => {
            let high = exponent.max(-1000);
            let value = mantissa as f64 * 2f64.powi(exponent - high) * 2f64.powi(high);
            if negative { -value } else { value }
        }
    }
}

fn same(a: f64, b: f64) -> bool {
    a.to_bits() == b.to_bits() || (a.is_nan() && b.is_nan())
}

const TEXTS: [&str; 36] = [
    "0", "-0", "1", "+1", "0.1", "0.2", "0.3", "1.005", "123456789.987654321", "1e22", "1e23",
    "9007199254740993", "9007199254740992.5", "5e-324", "2.4703282292062327e-324",
    "2.4703282292062328e-324", "2.2250738585072014e-308", "1.7976931348623157e308",
    "1.7976931348623159e308", "1e400", "-1e400", "1e-400", ".5", "5.", "1E3", "1e+3", "1e-3",
    "0e99999999999999999999", "1e99999999999999999999", "1e-99999999999999999999", "inf",
    "-Infinity", "nan", "NaN", "0.000000000000000000000000000001", "4.35",
];

#[test]
fn decimals_are_read_as_the_machine_reads_them() {
    for s in TEXTS {
        let expected: f64 = s.parse().unwrap();
        assert!(same(machine(read(s).unwrap()), expected), "{s}");
    }
    for s in ["", ".", "e5", "1e", "1e+", "1 ", " 1", "1.2.3", "--1", "+", "0x1", "infin", "1_0", "\u{661}"] {
        assert!(s.parse::<f64>().is_err(), "{s}");
        assert!(read(s).is_none(), "{s}");
    }
}

#[test]
fn arithmetic_rounds_as_the_machine_does() {
    for a in TEXTS {
        for b in TEXTS {
            let (x, y) = (read(a).unwrap(), read(b).unwrap());
            let (f, g): (f64, f64) = (a.parse().unwrap(), b.parse().unwrap());
            assert!(same(machine(multiply(x, y)), f * g), "{a} * {b}");
            assert!(same(machine(plus(x, y)), f + g), "{a} + {b}");
        }
    }
}

#[test]
fn truncation_saturates() {
    for s in TEXTS {
        let expected: f64 = s.parse().unwrap();
        assert_eq!(to_i64(read(s).unwrap()), expected as i64, "{s}");
    }
    assert_eq!(to_i64(read("-9223372036854775808").unwrap()), i64::MIN);
    assert_eq!(to_i64(read("-1.9").unwrap()), -1);
}

#[test]
fn the_nearest_whole_number_saturates() {
    for s in TEXTS {
        let expected: f64 = s.parse().unwrap();
        assert_eq!(to_nearest_i64(read(s).unwrap()), expected.round() as i64, "{s}");
    }
    for (s, expected) in [("0.5", 1), ("-0.5", -1), ("1.5", 2), ("2.5", 3), ("2.4999", 2)] {
        assert_eq!(to_nearest_i64(read(s).unwrap()), expected, "{s}");
    }
    assert_eq!(to_nearest_i64(read("-9223372036854775808").unwrap()), i64::MIN);
    assert_eq!(to_nearest_i64(read("9223372036854775808").unwrap()), i64::MAX);
    assert_eq!(to_nearest_i64(read("0.49999999999999994").unwrap()), 0);
}

#[test]
fn quotients_round_to_nearest() {
    for (n, d) in [(1u64, 3u64), (2, 3), (1_000_000, 44_100), (1, 10), (u64::MAX, 7), (0, 5)] {
        let r = round(false, &BigNat::from_u64(n), &BigNat::from_u64(d));
        if n < 1 << 53 {
            assert!(same(machine(r), n as f64 / d as f64), "{n}/{d}");
        }
    }
    for n in [0, 1, 1 << 53, (1 << 53) + 1, (1 << 53) + 3, u64::MAX] {
        assert!(same(machine(from_u64(n)), n as f64), "{n}");
    }
}
