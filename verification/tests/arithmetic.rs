//! The arithmetic on bit patterns against the machine's own.

use kubeloupe::big;
use kubeloupe::bytes;
use kubeloupe::decimal;
use kubeloupe::double;
use kubeloupe::promql::eval;
use kubeloupe::promql::BinOp;
use kubeloupe::store::Sample;
use kubeloupe::text::Order;

/// Bit patterns of every kind, the awkward ones first.
fn patterns() -> Vec<u64> {
    let mut out: Vec<u64> = vec![
        0.0f64.to_bits(),
        (-0.0f64).to_bits(),
        1.0f64.to_bits(),
        (-1.0f64).to_bits(),
        0.1f64.to_bits(),
        1e-3f64.to_bits(),
        1e9f64.to_bits(),
        9e18f64.to_bits(),
        (-9e18f64).to_bits(),
        9007199254740992.0f64.to_bits(),
        9007199254740993.0f64.to_bits(),
        f64::MAX.to_bits(),
        f64::MIN.to_bits(),
        f64::MIN_POSITIVE.to_bits(),
        1,
        2,
        0x000f_ffff_ffff_ffff,
        f64::INFINITY.to_bits(),
        f64::NEG_INFINITY.to_bits(),
        f64::NAN.to_bits(),
    ];
    let mut seed: u64 = 0x9e37_79b9_7f4a_7c15;
    for i in 0..180u64 {
        seed ^= seed << 13;
        seed ^= seed >> 7;
        seed ^= seed << 17;
        // Half of them near one another, where rounding is delicate.
        if i % 2 == 0 {
            out.push(seed);
        } else {
            out.push((seed & 0x800f_ffff_ffff_ffff) | ((1000 + i % 60) << 52));
        }
    }
    out
}

fn same(got: u64, want: f64, what: &str) {
    if want.is_nan() {
        assert!(f64::from_bits(got).is_nan(), "{what}: {got:x} is a number");
    } else {
        assert_eq!(got, want.to_bits(), "{what}: {} != {want}", f64::from_bits(got));
    }
}

#[test]
fn operations_agree_with_the_machine() {
    for &a in &patterns() {
        let x = f64::from_bits(a);
        for &b in &patterns() {
            let y = f64::from_bits(b);
            same(double::plus(a, b), x + y, "plus");
            same(double::minus(a, b), x - y, "minus");
            same(double::times(a, b), x * y, "times");
            same(double::over(a, b), x / y, "over");
            assert_eq!(double::is_less(a, b), x < y, "{x} < {y}");
        }
    }
}

#[test]
fn conversions_agree_with_the_machine() {
    for &a in &patterns() {
        let x = f64::from_bits(a);
        assert_eq!(double::is_finite(a), x.is_finite());
        assert_eq!(double::to_int(a), x as i64, "{x}");
        assert_eq!(
            double::is_countable(a),
            x.is_finite() && x.abs() < 9e18,
            "{x}"
        );
        if double::is_countable(a) {
            assert_eq!(double::round_to_int(a), x.round() as i64, "{x}");
        }
        let plain = if x == x.trunc() && x.abs() < 1e15 {
            Some(x as i64)
        } else {
            None
        };
        assert_eq!(double::as_plain(a), plain, "{x}");
        same(double::from_int(a as i64), a as i64 as f64, "from_int");
        same(double::from_count(a), a as f64, "from_count");
    }
}

#[test]
fn small_powers_of_ten_are_what_they_say() {
    let ten = 10.0f64.to_bits();
    for n in 0..=22 {
        same(double::to_power(ten, n), 10.0f64.powi(n), "10^n");
    }
    same(double::to_power(ten, -3), 1e-3, "10^-3");
    same(double::to_power(ten, 400), f64::INFINITY, "10^400");
}

#[test]
fn small_integers_add_without_rounding() {
    let most: i64 = 1 << 53;
    for (a, b) in [(0, 0), (1, 0), (500, 1500), (most - 1, 1), (most / 2, most / 2)] {
        let sum = double::plus(double::from_int(a), double::from_int(b));
        assert_eq!(sum, double::from_int(a + b));
        assert_eq!(double::minus(sum, double::from_int(a)), double::from_int(b));
        assert_eq!(double::to_int(sum), a + b);
    }
    // One past the last that is exact.
    assert_eq!(double::from_int(most + 1), double::from_int(most));
}

#[test]
fn nothing_negative_comes_of_what_is_not() {
    for &a in &patterns() {
        for &b in &patterns() {
            let (x, y) = (f64::from_bits(a), f64::from_bits(b));
            if a >> 63 == 0 && !x.is_nan() && y >= 0.0 {
                assert_eq!(double::plus(a, b) >> 63, 0);
                assert!(!f64::from_bits(double::plus(a, b)).is_nan());
            }
            if x.is_finite() && y.is_finite() && y <= x {
                assert!(f64::from_bits(double::minus(a, b)) >= 0.0);
            }
        }
        if a >> 63 == 0 && !f64::from_bits(a).is_nan() {
            for n in [1i64, 30, 86_400, i64::MAX] {
                let r = double::over(a, double::from_int(n));
                assert_eq!(r >> 63, 0);
                assert!(!f64::from_bits(r).is_nan());
            }
        }
    }
}

fn parsed(text: &str) -> Option<u64> {
    let chars: Vec<char> = text.chars().collect();
    decimal::parse_double(&chars)
}

#[test]
fn spelled_doubles_read_as_the_machine_reads_them() {
    for text in [
        "0", "-0", "+1", "1.", ".5", "1.5", "1e3", "1E-3", "1e+3", "123456789012345678901234567890",
        "0.1", "2.2250738585072011e-308", "4.9e-324", "2.4703282292062327e-324",
        "2.4703282292062328e-324", "1.7976931348623157e308", "1.7976931348623159e308", "1e400",
        "1e-400", "9007199254740993", "9007199254740992.99999999999999999999", "inf", "-inf",
        "Infinity", "nan", "NaN", "+iNfInItY", "", "-", ".", "e5", "1e", "1e+", "1_000", " 1", "0x10",
        "1700000000.123", "00012.500", "1e99999999999999999999", "1e-99999999999999999999",
        "0e99999999999999999999",
    ] {
        match text.parse::<f64>() {
            Ok(want) => same(parsed(text).expect(text), want, text),
            Err(_) => assert_eq!(parsed(text), None, "{text}"),
        }
    }
    for &a in &patterns() {
        let x = f64::from_bits(a);
        if x.is_finite() {
            let text = format!("{x:e}");
            same(parsed(&text).expect(&text), x, &text);
        }
    }
}

#[test]
fn whole_numbers_are_read_within_their_bounds() {
    let read = |text: &str| {
        let chars: Vec<char> = text.chars().collect();
        decimal::parse_within(&chars, i64::MIN, i64::MAX)
    };
    for text in [
        "0", "-0", "+7", "-7", "9223372036854775807", "9223372036854775808",
        "-9223372036854775808", "-9223372036854775809", "", "+", "-", "1.0", " 1", "1 ",
        "000000000000000000000000000000000000000042", "99999999999999999999999999999999999999999999",
    ] {
        assert_eq!(read(text), text.parse::<i64>().ok(), "{text:?}");
    }
    let count = |text: &str| {
        let chars: Vec<char> = text.chars().collect();
        decimal::parse_count(&chars)
    };
    for text in ["0", "+7", "18446744073709551615", "18446744073709551616", "", "x"] {
        assert_eq!(count(text), text.parse::<u64>().ok(), "{text:?}");
    }
    let small: Vec<char> = "11".chars().collect();
    assert_eq!(decimal::parse_within(&small, 0, 10), None);
    assert_eq!(decimal::parse_within(&small, 0, 11), Some(11));
}

#[test]
fn a_shown_number_reads_back() {
    for n in [0, 9, 10, 42, 1_000, u64::MAX] {
        let mut text = String::new();
        decimal::show(n, &mut text);
        assert_eq!(text, n.to_string());
        let chars: Vec<char> = text.chars().collect();
        assert_eq!(decimal::parse_count(&chars), Some(n));
    }
    assert_eq!(decimal::counted("n = ", 12), "n = 12");
    assert_eq!(decimal::numbered("[", 3, "]"), "[3]");
}

#[test]
fn big_numbers_multiply_and_compare() {
    let mut v: Vec<u32> = Vec::new();
    for _ in 0..5 {
        big::mul_add(&mut v, u64::MAX, 1);
    }
    let mut w = big::scaled(&v, 10, 64);
    assert_eq!(big::order(&v, &w), Order::Before);
    big::mul_add(&mut w, 1, 1);
    assert_eq!(big::order(&w, &big::scaled(&v, 10, 64)), Order::After);
    assert_eq!(big::order(&v, &big::scaled(&v, 1, 0)), Order::Same);
}

#[test]
fn little_endian_bytes_read_back() {
    for n in [i64::MIN, -1, 0, 1, 1_700_000_000, i64::MAX] {
        assert_eq!(bytes::to_bits(n), n as u64);
        assert_eq!(bytes::from_bits(n as u64), n);
        let mut out = vec![7u8];
        bytes::put_little(&mut out, n as u64, 8);
        assert_eq!(out[1..], n.to_le_bytes());
        assert_eq!(bytes::get_little(&out[1..]), n as u64);
    }
    let all = [1u8, 2, 3];
    let mut left: &[u8] = &all;
    assert_eq!(bytes::take_bytes(&mut left, 2), Some(&all[..2]));
    assert_eq!(left, [3u8]);
    assert_eq!(bytes::take_bytes(&mut left, 2), None);
    let mut out = vec![0u8];
    bytes::put_bytes(&mut out, &all);
    assert_eq!(out, [0u8, 1, 2, 3]);
}

#[test]
fn a_rate_spreads_growth_over_time_and_counts_resets() {
    let at = |t: i64, v: f64| Sample { t, v: v.to_bits() };
    assert_eq!(eval::rate(&[]), None);
    assert_eq!(eval::rate(&[at(0, 1.0)]), None);
    // 30 up, then a reset to 5, then 30 up: 65 in 90 seconds.
    let r = eval::rate(&[at(0, 100.0), at(30, 130.0), at(60, 5.0), at(90, 35.0)]);
    assert_eq!(r, Some((65.0f64 / 90.0).to_bits()));
    let falling: Vec<Sample> = (0..10).map(|i| at(i * 30, (10 - i) as f64)).collect();
    assert!(f64::from_bits(eval::rate(&falling).expect("a rate")) > 0.0);
}

#[test]
fn operators_do_what_they_are_called() {
    let (a, b) = (7.0f64.to_bits(), 2.0f64.to_bits());
    assert_eq!(eval::apply(BinOp::Add, a, b), 9.0f64.to_bits());
    assert_eq!(eval::apply(BinOp::Sub, a, b), 5.0f64.to_bits());
    assert_eq!(eval::apply(BinOp::Mul, a, b), 14.0f64.to_bits());
    assert_eq!(eval::apply(BinOp::Div, a, b), 3.5f64.to_bits());
    assert_eq!(
        eval::apply(BinOp::Div, a, 0.0f64.to_bits()),
        f64::INFINITY.to_bits()
    );
}
