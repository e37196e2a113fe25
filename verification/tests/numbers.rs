use btc_kalshi::numeric::binary64::Binary64;
use btc_kalshi::numeric::decimal::parse_number;

fn num(x: f64) -> Binary64 {
    Binary64::from_bits(x.to_bits())
}

fn back(x: Binary64) -> f64 {
    f64::from_bits(x.to_bits())
}

fn agree(x: Binary64, y: f64) -> bool {
    back(x).to_bits() == y.to_bits() || (back(x).is_nan() && y.is_nan())
}

/// A row of bit patterns: a generator, with the exponents of every third pair brought together.
fn patterns(count: usize) -> Vec<(u64, u64)> {
    let mut state: u64 = 0x9E37_79B9_7F4A_7C15;
    let mut next = || {
        state ^= state << 13;
        state ^= state >> 7;
        state ^= state << 17;
        state
    };
    let mut out = Vec::new();
    for i in 0..count {
        let a = next();
        let b = next();
        let exponent = a & 0x7FF0_0000_0000_0000;
        match i % 3 {
            0 => out.push((a, b)),
            1 => out.push((a, (b & 0x800F_FFFF_FFFF_FFFF) | exponent)),
            _ => out.push((a & 0x801F_FFFF_FFFF_FFFF, b & 0xC01F_FFFF_FFFF_FFFF)),
        }
    }
    out
}

fn special() -> Vec<f64> {
    vec![
        0.0,
        -0.0,
        1.0,
        -1.0,
        0.1,
        0.5,
        1.5,
        2.5,
        -2.5,
        3.0,
        100.0,
        1e16,
        9_007_199_254_740_993.0,
        f64::MAX,
        f64::MIN,
        f64::MIN_POSITIVE,
        5e-324,
        -5e-324,
        f64::EPSILON,
        1.0 + f64::EPSILON,
        f64::INFINITY,
        f64::NEG_INFINITY,
        f64::NAN,
        69_800.12,
        0.001,
        18_446_744_073_709_551_615.0,
        9_223_372_036_854_775_807.0,
    ]
}

fn check_pair(a: f64, b: f64) {
    let (x, y) = (num(a), num(b));
    assert!(agree(x.add(y), a + b), "{a:e} + {b:e}");
    assert!(agree(x.sub(y), a - b), "{a:e} - {b:e}");
    assert!(agree(x.mul(y), a * b), "{a:e} * {b:e}");
    assert!(agree(x.div(y), a / b), "{a:e} / {b:e}");
    assert_eq!(x.lt(y), a < b, "{a:e} < {b:e}");
    assert_eq!(x.le(y), a <= b, "{a:e} <= {b:e}");
    assert_eq!(x.equals(y), a == b, "{a:e} == {b:e}");
}

fn check_one(a: f64) {
    let x = num(a);
    assert!(agree(x.neg(), -a));
    assert!(agree(x.abs(), a.abs()));
    assert!(agree(x.round(), a.round()), "{a:e}");
    assert_eq!(x.to_u64(), a as u64, "{a:e}");
    assert_eq!(x.round_to_i64(), a.round() as i64, "{a:e}");
    assert_eq!(x.is_nan(), a.is_nan());
}

#[test]
fn arithmetic_agrees_with_the_machine_on_many_patterns() {
    for (a, b) in patterns(30_000) {
        check_pair(f64::from_bits(a), f64::from_bits(b));
    }
}

#[test]
fn arithmetic_agrees_with_the_machine_on_special_values() {
    for a in special() {
        for b in special() {
            check_pair(a, b);
        }
    }
}

#[test]
fn conversions_agree_with_the_machine() {
    for a in special() {
        check_one(a);
    }
    for (a, b) in patterns(10_000) {
        check_one(f64::from_bits(a));
        check_one((b >> 40) as f64 / 64.0);
        check_one(-((b >> 44) as f64) / 2.0);
        assert!(agree(Binary64::from_u64(b), b as f64));
        assert!(agree(Binary64::from_u64(a >> 12), (a >> 12) as f64));
        let d = (b >> 12) | 1;
        assert!(agree(Binary64::from_ratio(a >> 12, d), (a >> 12) as f64 / d as f64));
    }
}

#[test]
fn literals_are_ratios() {
    assert!(agree(Binary64::from_ratio(4, 10), 0.4));
    assert!(agree(Binary64::from_ratio(145, 100), 1.45));
    assert!(agree(Binary64::from_ratio(1_261_386, 1_000_000), 1.261386));
    assert!(agree(Binary64::from_ratio(82_579, 1_000_000), 0.082579));
    assert!(agree(Binary64::from_ratio(1_716, 1_000_000).neg(), -0.001716));
    assert!(agree(Binary64::from_ratio(98_562, 1_000_000), 0.098562));
}

#[test]
fn limits_hold_numbers() {
    assert!(agree(num(3.0).clamp(num(1.0), num(2.0)), 2.0));
    assert!(agree(num(0.0).clamp(num(1.0), num(2.0)), 1.0));
    assert!(agree(num(1.5).clamp(num(1.0), num(2.0)), 1.5));
    assert!(agree(num(f64::NAN).clamp(num(1.0), num(2.0)), f64::NAN));
    assert!(agree(num(f64::NAN).max(num(1.0)), 1.0));
    assert!(agree(num(1.0).max(num(f64::NAN)), 1.0));
    assert!(agree(num(1.0).max(num(2.0)), 2.0));
    assert!(agree(num(1.0).min(num(2.0)), 1.0));
    assert!(agree(num(f64::NAN).min(num(1.0)), 1.0));
}

#[test]
fn decimal_texts_read_as_the_machine_reads_them() {
    let texts = [
        "69800.00",
        "0.001",
        "43210.50",
        "0.12345000",
        "1",
        "1.",
        ".5",
        "-0",
        "+7",
        "1e3",
        "1E-3",
        "1e+10",
        "123456789012345678901234567890",
        "0.1",
        "9007199254740993",
        "9007199254740992.9999999999999999999999999",
        "1.7976931348623157e308",
        "1.7976931348623159e308",
        "1e400",
        "1e99999999999999999999999999999999999999999",
        "1e-99999999999999999999999999999999999999999",
        "0e99999999999999999999999999999999999999999",
        "4.9406564584124654e-324",
        "2.4703282292062327e-324",
        "2.4703282292062328e-324",
        "2.2250738585072011e-308",
        "1e-400",
        "inf",
        "-Infinity",
        "nan",
        "NaN",
        "-nan",
        "",
        "+",
        ".",
        "e5",
        "1e",
        "1e+",
        "1x",
        " 1",
        "1 ",
        "1_000",
        "0x10",
        "--1",
        "infinit",
    ];
    for t in texts {
        match (parse_number(t), t.parse::<f64>()) {
            (Some(x), Ok(y)) => assert!(agree(x, y), "{t}"),
            (None, Err(_)) => {}
            (x, y) => panic!("{t}: {x:?} {y:?}"),
        }
    }
    for (a, _) in patterns(300) {
        let y = f64::from_bits(a);
        if y.is_finite() {
            let short = format!("{y:e}");
            let long = format!("{y:.40e}");
            assert!(agree(parse_number(&short).expect("a number"), y), "{short}");
            assert!(agree(parse_number(&long).expect("a number"), y), "{long}");
        }
    }
}
