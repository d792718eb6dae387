use abs_screens::double::Double;

fn d(x: f64) -> Double {
    Double { bits: x.to_bits() }
}

fn f(x: Double) -> f64 {
    f64::from_bits(x.bits)
}

fn same(a: f64, b: f64) -> bool {
    if a.is_nan() {
        b.is_nan()
    } else {
        a.to_bits() == b.to_bits()
    }
}

fn notable() -> Vec<f64> {
    let mut v = vec![
        0.0, 0.05, 0.1, 0.15, 0.25, 0.3, 0.35, 0.45, 0.5, 0.55, 0.6, 0.7, 0.95, 1.0, 1.05, 1.25, 1.35, 1.5, 1.75, 2.0,
        2.5, 3.0, 3.5, 9.95, 9.96, 10.0, 59.0, 60.0, 61.0, 90.0, 1000.0, 1e6, 2.2e6, 3599.9, 3600.0, 3601.0, 5400.0,
        86400.0, 1e15, 4503599627370495.5, 4503599627370496.0, 9007199254740991.0, 9007199254740992.0,
        9007199254740993.0, 1e18, 9.2e18, 1.8446744073709552e19, 1.8446744073709550e19, 1e22, 1e100, 1e300, f64::MAX,
        f64::MIN_POSITIVE, 5e-324, 1e-310, 2.2250738585072011e-308, 1e-17, f64::EPSILON, f64::INFINITY, f64::NAN,
        0.49999999999999994, 1.0 + f64::EPSILON, 2.0 - f64::EPSILON, 1.0 - f64::EPSILON / 2.0,
    ];
    let n = v.len();
    for i in 0..n {
        v.push(-v[i]);
    }
    v
}

fn scattered(seed: u64, count: usize) -> Vec<f64> {
    let mut s = seed;
    let mut v = Vec::new();
    for i in 0..count {
        s = s.wrapping_mul(6364136223846793005).wrapping_add(1442695040888963407);
        let bits = s ^ (s >> 29);
        if i % 3 == 0 {
            v.push(f64::from_bits(bits));
        } else if i % 3 == 1 {
            v.push((bits % 10_000_000) as f64 / 97.0);
        } else {
            // The same exponents again and again, so that sums cancel.
            v.push(f64::from_bits((bits & 0x800f_ffff_ffff_ffff) | ((1018 + (bits >> 53) % 12) << 52)));
        }
    }
    v
}

fn all() -> Vec<f64> {
    let mut v = notable();
    v.extend(scattered(7, 150));
    v
}

#[test]
fn tenths_are_written_as_the_formatter_does() {
    for x in all() {
        assert_eq!(d(x).tenths_text(), format!("{x:.1}"));
    }
    assert_eq!(d(0.25).tenths_text(), "0.2");
    assert_eq!(d(0.75).tenths_text(), "0.8");
    assert_eq!(d(9.96).tenths_text(), "10.0");
}

#[test]
fn units_are_written_as_the_formatter_does() {
    for x in all() {
        assert_eq!(d(x).units_text(), format!("{x:.0}"));
    }
    assert_eq!(d(2.5).units_text(), "2");
    assert_eq!(d(3.5).units_text(), "4");
}

#[test]
fn quotients_are_those_of_the_machine() {
    for a in all() {
        for b in all() {
            assert!(same(f(d(a).over(d(b))), a / b), "{a} / {b}");
        }
    }
    assert_eq!(f(d(1.0).over(d(3.0))), 1.0 / 3.0);
}

#[test]
fn products_are_those_of_the_machine() {
    for a in all() {
        for b in all() {
            assert!(same(f(d(a).times(d(b))), a * b), "{a} * {b}");
        }
    }
    assert_eq!(f(d(0.1).times(d(3.0))), 0.1 * 3.0);
}

#[test]
fn sums_are_those_of_the_machine() {
    for a in all() {
        for b in all() {
            assert!(same(f(d(a).plus(d(b))), a + b), "{a} + {b}");
            assert!(same(f(d(a).minus(d(b))), a - b), "{a} - {b}");
        }
    }
    assert_eq!(f(d(0.1).plus(d(0.2))), 0.1 + 0.2);
}

#[test]
fn comparisons_are_those_of_the_machine() {
    for a in all() {
        for b in all() {
            assert_eq!(d(a).less(d(b)), a < b, "{a} < {b}");
            assert_eq!(d(a).at_most(d(b)), a <= b, "{a} <= {b}");
            assert_eq!(d(a).total_key() < d(b).total_key(), a.total_cmp(&b).is_lt(), "{a} before {b}");
        }
    }
}

#[test]
fn whole_numbers_are_rounded_to_the_nearest_double() {
    for n in [0, 1, 2, 3, 10, 3600, 9007199254740991, 9007199254740992, 9007199254740993, 9007199254740995, u64::MAX, u64::MAX - 1023, u64::MAX - 1024, 1 << 63] {
        assert_eq!(f(Double::from_u64(n)), n as f64);
    }
}

#[test]
fn casts_and_roundings_are_those_of_the_machine() {
    for x in all() {
        assert_eq!(d(x).whole_part(), x as u64, "{x}");
        assert_eq!(d(x).rounded_part(), x.round() as u64, "{x}");
        assert_eq!(d(x).is_nan(), x.is_nan());
        assert!(same(f(d(x).negated()), -x));
        assert!(same(f(d(x).absolute()), x.abs()));
        assert_eq!(d(x).nearly_whole(), x.fract().abs() < f64::EPSILON, "{x}");
        assert_eq!(f(d(x).at_least_zero()), x.max(0.0), "{x}");
        assert!(same(f(d(x).clamped(d(0.0), d(1.0))), x.clamp(0.0, 1.0)), "{x}");
    }
    assert_eq!(d(2.5).rounded_part(), 3);
    assert_eq!(d(-1.5).whole_part(), 0);
}

#[test]
fn constants_are_what_they_are_called() {
    assert_eq!(f(Double::half()), 0.5);
    assert_eq!(f(Double::epsilon()), f64::EPSILON);
}
