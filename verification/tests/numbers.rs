use llama_monitor::bignat::BigNat;
use llama_monitor::binary::{Binary32, Binary64};
use llama_monitor::clock::seconds;
use llama_monitor::decimal::parse_float;

fn bin(x: f64) -> Binary64 {
    Binary64::from_bits(x.to_bits())
}

fn num(x: Binary64) -> f64 {
    f64::from_bits(x.to_bits())
}

fn agrees(mine: Binary64, real: f64) -> bool {
    if real.is_nan() {
        num(mine).is_nan()
    } else {
        mine.to_bits() == real.to_bits()
    }
}

fn values() -> Vec<f64> {
    vec![
        0.0,
        -0.0,
        1.0,
        -1.0,
        0.1,
        0.5,
        2.0,
        3.0,
        1e-300,
        -2.5e-310,
        5e-324,
        f64::MAX,
        -f64::MAX,
        f64::MIN_POSITIVE,
        123456789.123,
        -987654.321e-20,
        1.0 / 3.0,
        9007199254740993.0,
        3_600_000.0,
        f64::INFINITY,
        f64::NEG_INFINITY,
        f64::NAN,
    ]
}

#[test]
fn sums_round_as_the_machine_does() {
    for a in values() {
        for b in values() {
            assert!(agrees(bin(a).plus(bin(b)), a + b), "{a} + {b}");
        }
    }
}

#[test]
fn products_round_as_the_machine_does() {
    for a in values() {
        for b in values() {
            assert!(agrees(bin(a).times(bin(b)), a * b), "{a} * {b}");
        }
    }
}

#[test]
fn quotients_round_as_the_machine_does() {
    for a in values() {
        for b in values() {
            assert!(agrees(bin(a).over(bin(b)), a / b), "{a} / {b}");
        }
    }
}

#[test]
fn comparisons_order_as_the_machine_does() {
    for a in values() {
        for b in values() {
            assert_eq!(bin(a).less(bin(b)), a < b, "{a} < {b}");
            assert_eq!(bin(a).up_to(bin(b)), a <= b, "{a} <= {b}");
            assert_eq!(bin(a).equal(bin(b)), a == b, "{a} == {b}");
            let x = a as f32;
            let y = b as f32;
            assert_eq!(
                Binary32::from_bits(x.to_bits()).up_to(Binary32::from_bits(y.to_bits())),
                x <= y
            );
        }
    }
}

#[test]
fn narrowing_and_widening_round_as_the_machine_does() {
    let mut all = values();
    all.push(16777217.0);
    all.push(3.4028235677973366e38);
    all.push(1.401298464324817e-45);
    all.push(7e-46);
    all.push(102.0);
    for a in all {
        let mine = bin(a).narrow();
        let real = a as f32;
        if real.is_nan() {
            assert!(mine.is_nan());
            assert!(mine.widen().is_nan());
        } else {
            assert_eq!(mine.to_bits(), real.to_bits(), "{a}");
            assert_eq!(mine.widen().to_bits(), f64::from(real).to_bits(), "{a}");
        }
        assert_eq!(mine.is_finite(), real.is_finite());
    }
}

#[test]
fn integers_convert_as_the_machine_does() {
    let all: Vec<u64> = vec![
        0,
        1,
        2,
        10,
        1_000_000,
        (1 << 53) - 1,
        1 << 53,
        (1 << 53) + 1,
        (1 << 53) + 3,
        u64::MAX,
        u64::MAX - 1024,
        u64::MAX - 1025,
    ];
    for n in all {
        assert_eq!(Binary64::from_u64(n).to_bits(), (n as f64).to_bits(), "{n}");
    }
    for n in [0u32, 1, 42, 16777217, u32::MAX] {
        assert_eq!(Binary32::from_u32(n).to_bits(), (n as f32).to_bits(), "{n}");
    }
    assert_eq!(Binary64::ratio(20, 100), bin(0.20));
    assert_eq!(Binary64::ratio(2, 100), bin(0.02));
    assert_eq!(Binary64::ratio(120, 100), bin(1.20));
}

#[test]
fn rounding_to_integers_takes_halves_away_from_zero() {
    let cases = [
        0.0,
        0.49999999999999994,
        0.5,
        1.4,
        1.5,
        2.5,
        4503599627370495.5,
        9007199254740993.0,
        1e18,
        18446744073709549568.0,
        5e-324,
    ];
    for x in cases {
        assert_eq!(bin(x).round_u64(), Some(x.round() as u64), "{x}");
        assert_eq!(bin(x).whole_u64(), Some(x as u64), "{x}");
    }
    assert_eq!(bin(18446744073709551616.0).round_u64(), None);
    assert_eq!(bin(1e300).whole_u64(), None);
    assert_eq!(bin(-2.5).round_u64(), Some(3));
}

#[test]
fn decimal_texts_parse_as_the_machine_does() {
    let cases = [
        "0",
        "-0",
        "+1",
        "1.",
        ".5",
        ".",
        "",
        "-",
        "1e",
        "1e+",
        "1e5",
        "1E-5",
        "1.5e300",
        "1e309",
        "1e-400",
        "123456789012345678901234567890",
        "0.1",
        "28.66",
        "30.85",
        "4.65725e+06",
        "2.2250738585072011e-308",
        "4.9406564584124654e-324",
        "2.4703282292062327e-324",
        "2.4703282292062328e-324",
        "9007199254740993",
        "9007199254740992.9999999999999999999999999",
        "179769313486231580793728971405301e276",
        "inf",
        "-Infinity",
        "+INF",
        "nan",
        "NaN",
        "infinit",
        "1e99999999999999999999",
        "1e-99999999999999999999",
        "0e99999999999999999999",
        "1_000",
        "1 ",
        "0x10",
        "1.2.3",
        "1e1.5",
        "--1",
        "٣",
    ];
    for text in cases {
        let chars: Vec<char> = text.chars().collect();
        match (parse_float(&chars), text.parse::<f64>()) {
            (Some(mine), Ok(real)) => assert!(agrees(mine, real), "{text}: {}", num(mine)),
            (None, Err(_)) => {}
            (mine, real) => panic!("{text}: {mine:?} beside {real:?}"),
        }
    }
}

#[test]
fn nanoseconds_convert_as_durations_do() {
    for nanos in [0u64, 1, 500_000_000, 999_999_999, 1_000_000_000, 2_500_000_001, 5_000_000_000] {
        let real = std::time::Duration::from_nanos(nanos).as_secs_f64();
        assert_eq!(num(seconds(nanos)), real, "{nanos}");
    }
}

#[test]
fn signs_and_ranges() {
    assert_eq!(bin(50.0).negate(), bin(-50.0));
    assert!(bin(-50.0).is_within(bin(-50.0), bin(200.0)));
    assert!(bin(200.0).is_within(bin(-50.0), bin(200.0)));
    assert!(!bin(200.1).is_within(bin(-50.0), bin(200.0)));
    assert!(!bin(f64::NAN).is_within(bin(-50.0), bin(200.0)));
    assert!(bin(-0.0).is_nonnegative());
    assert!(!bin(-5e-324).is_nonnegative());
    assert!(!bin(f64::INFINITY).is_nonnegative());
    assert!(bin(-0.0).is_zero());
    assert!(bin(f64::NAN).is_nan());
    assert!(Binary32::from_bits((-0.0f32).to_bits()).is_nonnegative());
    assert_eq!(Binary64::zero().to_bits(), 0);
}

#[test]
fn large_naturals() {
    let a = BigNat::from_u64(u64::MAX);
    let b = BigNat::from_u64(u64::MAX - 1);
    assert!(b.less(&a));
    assert!(!a.less(&b));
    assert!(!a.minus(&b).is_zero());
    assert!(a.minus(&a).is_zero());
    let square = a.times(&a);
    let same = a.shifted(64).minus(&a);
    assert!(!square.less(&same) && !same.less(&square));
    let sum = a.plus(&a);
    let twice = a.times_u32(2);
    assert!(!sum.less(&twice) && !twice.less(&sum));
}
