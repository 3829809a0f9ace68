//! The integer arithmetic of the reports against the machine's floating point.
use netperf::ui::{humanize_bitrate, humanize_bps, humanize_bytes, humanize_ns};

fn next(state: &mut u64) -> u64 {
    *state ^= *state << 13;
    *state ^= *state >> 7;
    *state ^= *state << 17;
    *state
}

/// Numbers of every size, and the neighbours of powers.
fn numbers() -> Vec<u64> {
    let mut state = 0x9e37_79b9_7f4a_7c15u64;
    let mut out = vec![0, 1, 2, 3, u64::MAX, u64::MAX - 1];
    for bit in 0..64u32 {
        let p = 1u64 << bit;
        for d in 0..4u64 {
            out.push(p.wrapping_add(d));
            out.push(p.wrapping_sub(d));
        }
        for _ in 0..40 {
            out.push(next(&mut state) >> bit);
        }
    }
    let mut ten = 1u64;
    for _ in 0..19 {
        for d in 0..6u64 {
            out.push(ten + d);
            out.push(ten.wrapping_sub(d));
            out.push(ten.wrapping_mul(5).wrapping_add(d));
            out.push((ten / 1000).wrapping_mul(1005 + 10 * d));
        }
        ten *= 10;
    }
    out
}

fn float_bytes(bytes: u64) -> String {
    let f = bytes as f64;
    if bytes < 1 << 10 {
        format!("{} B", bytes)
    } else if bytes < 1 << 20 {
        format!("{:.2} KiB", f / 1024f64)
    } else if bytes < 1 << 30 {
        format!("{:.2} MiB", f / (1u64 << 20) as f64)
    } else if bytes < 1 << 40 {
        format!("{:.2} GiB", f / (1u64 << 30) as f64)
    } else {
        format!("{:.2} TiB", f / (1u64 << 40) as f64)
    }
}

fn float_rate(bytes: u64, millis: u64) -> String {
    let rate = ((bytes * 8) as f64 / millis as f64) * 1000f64;
    if rate < 1e3 {
        format!("{} Bits/sec", rate)
    } else if bytes < 1_000_000 {
        format!("{:.2} Kbits/sec", rate / 1e3)
    } else if bytes < 1_000_000_000 {
        format!("{:.2} Mbits/sec", rate / 1e6)
    } else if bytes < 1_000_000_000_000 {
        format!("{:.2} Gbits/sec", rate / 1e9)
    } else {
        format!("{:.2} Tbits/sec", rate / 1e12)
    }
}

#[test]
fn bytes_agree_with_floats() {
    for n in numbers() {
        assert_eq!(humanize_bytes(n), float_bytes(n), "{}", n);
    }
}

#[test]
fn nanoseconds_agree_with_floats() {
    for n in numbers() {
        let f = n as f64;
        let expected = if n < 1_000 {
            format!("{} ns", n)
        } else if n < 1_000_000 {
            format!("{:.2} µs", f / 1_000.0)
        } else if n < 1_000_000_000 {
            format!("{:.2} ms", f / 1_000_000.0)
        } else {
            format!("{:.2} s", f / 1_000_000_000.0)
        };
        assert_eq!(humanize_ns(n), expected, "{}", n);
    }
}

#[test]
fn every_microsecond_count_agrees_with_floats() {
    for n in 1_000u64..200_000 {
        assert_eq!(humanize_ns(n), format!("{:.2} µs", n as f64 / 1_000.0));
    }
}

#[test]
fn bits_per_second_agree_with_floats() {
    for n in numbers() {
        let b = n as f64;
        let expected = if b < 1e3 {
            format!("{:.0} bits/sec", b)
        } else if b < 1e6 {
            format!("{:.2} Kbits/sec", b / 1e3)
        } else if b < 1e9 {
            format!("{:.2} Mbits/sec", b / 1e6)
        } else {
            format!("{:.2} Gbits/sec", b / 1e9)
        };
        assert_eq!(humanize_bps(n), expected, "{}", n);
    }
}

#[test]
fn rates_agree_with_floats() {
    let all = numbers();
    let mut state = 88172645463325252u64;
    for &bytes in &all {
        let bytes = bytes >> 3;
        for _ in 0..40 {
            let millis = all[(next(&mut state) % all.len() as u64) as usize];
            assert_eq!(
                humanize_bitrate(bytes, millis),
                float_rate(bytes, millis),
                "{} {}",
                bytes,
                millis
            );
        }
        assert_eq!(humanize_bitrate(bytes, 0), float_rate(bytes, 0));
    }
}

#[test]
fn slow_rates_agree_with_floats() {
    for bytes in 0..130u64 {
        for millis in 1000..2500u64 {
            assert_eq!(
                humanize_bitrate(bytes, millis),
                float_rate(bytes, millis),
                "{} {}",
                bytes,
                millis
            );
        }
    }
    let mut state = 0x1234_5678_9abc_def1u64;
    for _ in 0..40_000 {
        let millis = (next(&mut state) >> 1) | 1;
        let bytes = next(&mut state) % 1000;
        assert_eq!(
            humanize_bitrate(bytes, millis),
            float_rate(bytes, millis),
            "{} {}",
            bytes,
            millis
        );
    }
}

#[test]
fn powers_of_two_in_the_duration_agree_with_floats() {
    for bit in 0..64u32 {
        for bytes in 0..300u64 {
            let millis = 1u64 << bit;
            assert_eq!(
                humanize_bitrate(bytes, millis),
                float_rate(bytes, millis),
                "{} {}",
                bytes,
                millis
            );
        }
    }
}
