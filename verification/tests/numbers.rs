//! Rounded arithmetic and decimal text against the machine's floating point.
use netperf::binary64::Binary64;
use netperf::decimal::{append_dec, append_fixed_point, append_low_digits, append_right_aligned};

fn next(state: &mut u64) -> u64 {
    *state ^= *state << 13;
    *state ^= *state >> 7;
    *state ^= *state << 17;
    *state
}

fn value(x: Binary64) -> f64 {
    x.mantissa as f64 * 2f64.powi(x.exponent)
}

fn of(f: f64) -> Binary64 {
    let bits = f.to_bits();
    Binary64 {
        mantissa: (bits & ((1 << 52) - 1)) | (1 << 52),
        exponent: (bits >> 52) as i32 - 1075,
    }
}

fn shortest(x: Binary64) -> String {
    let mut out = String::new();
    x.append_shortest(&mut out);
    out
}

fn fixed(x: Binary64, places: u32) -> String {
    let mut out = String::new();
    x.append_fixed(&mut out, places);
    out
}

#[test]
fn decimal_digits() {
    let mut out = String::from("=");
    append_dec(&mut out, 0);
    append_dec(&mut out, 120);
    append_dec(&mut out, u128::MAX);
    assert_eq!(out, "=0120340282366920938463463374607431768211455");
    let mut out = String::new();
    append_low_digits(&mut out, 1234, 3);
    append_low_digits(&mut out, 7, 4);
    append_low_digits(&mut out, 7, 0);
    assert_eq!(out, "2340007");
    let mut out = String::new();
    append_fixed_point(&mut out, 1234, 2);
    out.push(' ');
    append_fixed_point(&mut out, 5, 3);
    out.push(' ');
    append_fixed_point(&mut out, 5, 0);
    assert_eq!(out, "12.34 0.005 5");
    let mut out = String::new();
    append_right_aligned(&mut out, "7", 3);
    append_right_aligned(&mut out, "SUM", 3);
    append_right_aligned(&mut out, "1234", 3);
    assert_eq!(out, "  7SUM1234");
}

#[test]
fn whole_numbers_are_rounded_to_even() {
    assert_eq!(value(Binary64::from_u64(0)), 0.0);
    assert_eq!(Binary64::from_u64(1), of(1.0));
    let p = 1u64 << 53;
    for n in [p - 1, p, p + 1, p + 2, p + 3, u64::MAX, u64::MAX - 1024, u64::MAX - 1023] {
        assert_eq!(value(Binary64::from_u64(n)), n as f64, "{}", n);
    }
}

#[test]
fn operations_agree_with_floats() {
    let mut state = 0x0123_4567_89ab_cdefu64;
    for _ in 0..50_000 {
        let a = (next(&mut state) >> (next(&mut state) % 64)).max(1);
        let b = (next(&mut state) >> (next(&mut state) % 64)).max(1);
        let k = next(&mut state) % 1024 + 1;
        let x = Binary64::from_u64(a);
        let y = Binary64::from_u64(b);
        assert_eq!(value(x.over(y)), a as f64 / b as f64);
        assert_eq!(value(x.times(k)), a as f64 * k as f64);
        assert_eq!(value(x.plus(y)), a as f64 + b as f64);
        assert_eq!(x.is_below(b), ((a as f64) as u128) < b as u128);
        assert_eq!(x.over(y).to_u64(), (a as f64 / b as f64) as u64);
        assert_eq!(
            value(Binary64::from_nanos(a)),
            std::time::Duration::from_nanos(a).as_secs_f64()
        );
    }
    assert_eq!(Binary64::from_u64(u64::MAX).times(1024).to_u64(), u64::MAX);
    assert_eq!(Binary64::from_u64(0).plus(Binary64::from_u64(3)).to_u64(), 3);
}

#[test]
fn fixed_places_agree_with_floats() {
    let mut state = 0x7777_1234_5678_9abcu64;
    for _ in 0..50_000 {
        let a = (next(&mut state) >> (next(&mut state) % 64)).max(1);
        let b = (next(&mut state) >> (next(&mut state) % 64)).max(1);
        let f = a as f64 / b as f64;
        let x = Binary64::from_u64(a).over(Binary64::from_u64(b));
        assert_eq!(fixed(x, 0), format!("{:.0}", f));
        assert_eq!(fixed(x, 1), format!("{:.1}", f));
        assert_eq!(fixed(x, 2), format!("{:.2}", f));
        assert_eq!(fixed(x, 3), format!("{:.3}", f));
    }
    assert_eq!(fixed(of(0.125), 2), "0.12");
    assert_eq!(fixed(of(0.375), 2), "0.38");
    assert_eq!(of(0.125).decimal(2), 12);
}

#[test]
fn the_shortest_text_agrees_with_floats() {
    let mut state = 0x5555_1234_8765_9abcu64;
    for _ in 0..50_000 {
        let exponent = -1 - (next(&mut state) % 100) as i32;
        let mantissa = (next(&mut state) >> 12) | (1 << 52);
        let x = Binary64 { mantissa, exponent };
        assert_eq!(shortest(x), format!("{}", value(x)), "{:?}", x);
    }
    for exponent in -120..0i32 {
        for mantissa in [1u64 << 52, (1 << 52) + 1, (1 << 53) - 1, 3 << 51] {
            let x = Binary64 { mantissa, exponent };
            assert_eq!(shortest(x), format!("{}", value(x)), "{:?}", x);
        }
    }
    for odd in (1..20_001u64).step_by(2) {
        for scale in [10i32, 17, 20] {
            let f = 1.0 + odd as f64 * 2f64.powi(-scale);
            if f < 1e15 {
                assert_eq!(shortest(of(f)), format!("{}", f));
            }
        }
    }
    assert_eq!(shortest(of(0.1)), "0.1");
    assert_eq!(shortest(of(1.0)), "1");
    assert_eq!(of(0.1).shortest(), (1, 1));
    assert_eq!(shortest(Binary64::from_u64(0)), "0");
}

#[test]
fn the_shortest_text_reads_back() {
    let mut state = 0x0f0f_1234_8765_9abcu64;
    for _ in 0..20_000 {
        let exponent = -1 - (next(&mut state) % 100) as i32;
        let mantissa = (next(&mut state) >> 12) | (1 << 52);
        let x = Binary64 { mantissa, exponent };
        let text = shortest(x);
        assert_eq!(text.parse::<f64>().unwrap(), value(x));
        // One place fewer does not tell the number apart.
        let (digits, places) = x.shortest();
        if places > 0 {
            let lower = digits / 10;
            for n in [lower, lower + 1] {
                let mut fewer = String::new();
                append_fixed_point(&mut fewer, n, places - 1);
                assert_ne!(fewer.parse::<f64>().unwrap(), value(x));
            }
        }
    }
}
