use dabping::decimal::{display_text, fixed_text, read_double};
use dabping::double::Double;
use dabping::time::Duration;

fn d(v: f64) -> Double {
    Double { bits: v.to_bits() }
}

/// Numbers of all sizes, from a fixed sequence.
fn samples() -> Vec<f64> {
    let mut out = vec![
        0.0, -0.0, 1.0, -1.0, 0.1, 0.2, 0.3, 2.0 / 3.0, 100.0 / 3.0, 99.5, 95.0, 1e9, 1e-9, 1e22, 1e23,
        1e300, 1e-300, 5e-324, 2.2250738585072014e-308, 2.225073858507201e-308,
        1.7976931348623157e308, 9007199254740992.0, 9007199254740993.0, 0.5, 0.25, 0.125,
        1125899906842624.25, 1125899906842624.75, 0.015, 0.0205, 12.345, 1e21, 123456789.125,
        f64::INFINITY, f64::NEG_INFINITY, f64::NAN,
    ];
    let mut x: u64 = 0x9e37_79b9_7f4a_7c15;
    for _ in 0..60 {
        x ^= x << 13;
        x ^= x >> 7;
        x ^= x << 17;
        out.push(f64::from_bits(x));
        out.push((x % 1_000_000) as f64 / 1000.0);
    }
    out
}

fn same(a: Double, b: f64) -> bool {
    a.bits == b.to_bits() || (a.is_nan() && b.is_nan())
}

#[test]
fn arithmetic_is_that_of_the_machine() {
    let all = samples();
    for (i, a) in all.iter().enumerate() {
        for b in all.iter().skip(i % 3).step_by(3) {
            assert!(same(d(*a).plus(d(*b)), a + b), "{a} + {b}");
            assert!(same(d(*a).minus(d(*b)), a - b), "{a} - {b}");
            assert!(same(d(*a).times(d(*b)), a * b), "{a} * {b}");
            assert!(same(d(*a).over(d(*b)), a / b), "{a} / {b}");
            assert_eq!(d(*a).num_lt(d(*b)), a < b, "{a} < {b}");
            assert_eq!(d(*a).num_eq(d(*b)), a == b, "{a} == {b}");
        }
    }
}

#[test]
fn whole_numbers_are_rounded() {
    for n in [0u64, 1, 100, 1000, u64::MAX, (1 << 53) + 1, (1 << 63) + 1025] {
        assert!(same(Double::from_u64(n), n as f64), "{n}");
        assert!(same(Double::from_u128(n as u128), n as f64), "{n}");
    }
}

#[test]
fn fixed_places() {
    for x in samples() {
        assert_eq!(fixed_text(d(x), 0), format!("{x:.0}"));
        assert_eq!(fixed_text(d(x), 1), format!("{x:.1}"));
        assert_eq!(fixed_text(d(x), 2), format!("{x:.2}"));
        assert_eq!(fixed_text(d(x), 3), format!("{x:.3}"));
        assert_eq!(fixed_text(d(x), 6), format!("{x:.6}"));
    }
}

#[test]
fn shortest_decimals() {
    for x in samples() {
        assert_eq!(display_text(d(x)), format!("{x}"));
    }
}

#[test]
fn what_is_displayed_reads_back() {
    for x in samples() {
        assert!(same(read_double(&display_text(d(x))).unwrap(), x), "{x}");
    }
}

#[test]
fn reads_what_rust_reads() {
    for s in [
        "0", "1", "-1", "+1", "1.", ".5", "1e3", "1E3", "1e-3", "-0", "inf", "-Infinity", "NaN",
        "9007199254740993", "1.7976931348623159e308", "2.4703282292062328e-324",
        "2.4703282292062327e-324", "1e400", "1e-400", "0.000000000000000000000000000001", "123456789012345678901234567890",
        "0e999999999999999999999", "1e99999999999999999999",
    ] {
        let want: f64 = s.parse().unwrap();
        assert!(same(read_double(s).unwrap(), want), "{s}");
    }
    for s in ["", ".", "e5", "1e", "1e+", "--1", "1 ", " 1", "0x10", "1_000", "infin", "nanx", "1e5.5"] {
        assert!(s.parse::<f64>().is_err());
        assert!(read_double(s).is_none(), "{s:?}");
    }
}

#[test]
fn seconds_keep_nanoseconds() {
    for n in [0u128, 1, 999_999_999, 9_710_000, 10_000_000, 1_048_575_999_999_999] {
        let span = Duration { nanos: n };
        let std = std::time::Duration::new((n / 1_000_000_000) as u64, (n % 1_000_000_000) as u32);
        assert!(same(span.as_secs_f64(), std.as_secs_f64()));
        assert_eq!(Duration::try_from_secs_f64(span.as_secs_f64()), Some(span));
    }
}

#[test]
fn seconds_that_are_no_span() {
    for s in [-1.0, f64::NAN, f64::INFINITY, 18446744073709551616.0, -1e-300] {
        assert!(Duration::try_from_secs_f64(d(s)).is_none(), "{s}");
    }
    for s in [0.0, -0.0, 0.1, 1.5e-9, 2.5e-9, 18446744073709549568.0, 0.00971] {
        let std = std::time::Duration::try_from_secs_f64(s).unwrap();
        assert_eq!(Duration::try_from_secs_f64(d(s)).unwrap().nanos, std.as_nanos(), "{s}");
    }
}
