//! The stand-alone bench: its control message, its counts and its reports.
use netperf::echo::{
    client_line, decode_params, direction_code, encode_params, listening_line, negotiate,
    negotiated_line, on_control, on_read, report_rx, report_tx, roles, transfers, Negotiated,
    NextBlock, SendCount, Transfers, DIR_BIDIR, DIR_FORWARD, DIR_REVERSE, PARAMS_LEN,
};
use netperf::stats::Dist;

#[test]
fn bytes_of_a_control_message() {
    assert_eq!(
        encode_params(2, 5, 65536),
        vec![2, 5, 0, 0, 0, 0, 0, 0, 0, 0, 0, 1, 0, 0, 0, 0, 0]
    );
    let mut expected = vec![1u8];
    expected.extend_from_slice(&0x0102_0304_0506_0708u64.to_le_bytes());
    expected.extend_from_slice(&u64::MAX.to_le_bytes());
    assert_eq!(encode_params(1, 0x0102_0304_0506_0708, u64::MAX), expected);
    assert_eq!(expected.len(), PARAMS_LEN);
}

#[test]
fn a_control_message_survives_the_wire() {
    for &(dir, secs, block) in &[
        (DIR_FORWARD, 0u64, 0usize),
        (DIR_REVERSE, 10, 2097152),
        (DIR_BIDIR, u64::MAX, usize::MAX),
        (200, 1 << 40, 255),
    ] {
        let mut message = encode_params(dir, secs, block as u64);
        assert_eq!(decode_params(&message), Some((dir, secs, block)));
        message.extend_from_slice(&[9, 9, 9]);
        assert_eq!(decode_params(&message), Some((dir, secs, block)));
    }
}

#[test]
fn the_bytes_of_a_message_come_back() {
    let message: Vec<u8> = (200..217).collect();
    let (dir, secs, block) = decode_params(&message).unwrap();
    assert_eq!(encode_params(dir, secs, block as u64), message);
}

#[test]
fn a_short_message_says_nothing() {
    let message = encode_params(0, 5, 6);
    assert_eq!(decode_params(&message[..16]), None);
    assert_eq!(decode_params(&[]), None);
    assert_eq!(negotiate(&message[..16]), None);
}

#[test]
fn both_ends_agree_on_the_roles() {
    assert_eq!(roles(DIR_FORWARD, true), (false, true));
    assert_eq!(roles(DIR_FORWARD, false), (true, false));
    assert_eq!(roles(DIR_REVERSE, true), (true, false));
    assert_eq!(roles(DIR_REVERSE, false), (false, true));
    assert_eq!(roles(DIR_BIDIR, true), (true, true));
    assert_eq!(roles(DIR_BIDIR, false), (true, true));
    assert_eq!(roles(77, true), (false, true));
    for dir in 0..=255u8 {
        let (server_tx, server_rx) = roles(dir, true);
        let (client_tx, client_rx) = roles(dir, false);
        assert_eq!(server_tx, client_rx);
        assert_eq!(client_tx, server_rx);
        assert!(server_tx || client_tx);
    }
}

#[test]
fn the_direction_that_is_asked_for() {
    assert_eq!(direction_code(false, false), DIR_FORWARD);
    assert_eq!(direction_code(false, true), DIR_REVERSE);
    assert_eq!(direction_code(true, false), DIR_BIDIR);
    assert_eq!(direction_code(true, true), DIR_BIDIR);
}

#[test]
fn what_the_server_learns() {
    assert_eq!(
        negotiate(&encode_params(DIR_REVERSE, 7, 4096)),
        Some(Negotiated { dir: 1, secs: 7, block: 4096, sending: true, receiving: false })
    );
    assert_eq!(
        negotiate(&encode_params(DIR_BIDIR, 7, 4096)),
        Some(Negotiated { dir: 2, secs: 7, block: 4096, sending: true, receiving: true })
    );
}

#[test]
fn a_message_in_pieces() {
    let mut acc = vec![];
    assert!(on_control(&mut acc, Some(&[1, 2]), 5));
    assert!(on_control(&mut acc, Some(&[]), 5));
    assert!(on_control(&mut acc, Some(&[3, 4]), 5));
    assert!(!on_control(&mut acc, Some(&[5, 6]), 5));
    assert_eq!(acc, vec![1, 2, 3, 4, 5, 6]);
    assert!(!on_control(&mut acc, None, 50));
    assert_eq!(acc.len(), 6);
}

#[test]
fn only_two_transfers_at_once_yield() {
    assert_eq!(transfers(true, true), Transfers { send: true, receive: true, fair: true });
    assert_eq!(transfers(true, false), Transfers { send: true, receive: false, fair: false });
    assert_eq!(transfers(false, true), Transfers { send: false, receive: true, fair: false });
    assert_eq!(transfers(false, false), Transfers { send: false, receive: false, fair: false });
}

#[test]
fn time_to_send() {
    let count = SendCount::new(100, 2);
    assert!(count.has_time(0));
    assert!(count.has_time(1_999_999_999));
    assert!(!count.has_time(2_000_000_000));
    assert!(SendCount::new(1, u64::MAX).has_time(u64::MAX));
    assert!(!SendCount::new(1, 0).has_time(0));
}

#[test]
fn counting_writes() {
    let mut count = SendCount::new(100, 2);
    assert_eq!(count.pending, 100);
    assert_eq!(count.on_write(5, 0), NextBlock::Fresh);
    assert_eq!((count.total, count.pending), (100, 100));
    assert_eq!(count.on_write(6, 30), NextBlock::Leftover);
    assert_eq!((count.total, count.pending), (170, 30));
    assert!(count.can_count(30));
    assert!(!count.can_count(31));
    assert_eq!(count.on_write(7, 10), NextBlock::Leftover);
    assert_eq!((count.total, count.pending), (190, 10));
    assert_eq!(count.on_write(8, 0), NextBlock::Fresh);
    assert_eq!((count.total, count.pending), (200, 100));
    assert_eq!(count.on_write(9, 100), NextBlock::Stop);
    assert_eq!(count.total, 200);
    assert_eq!(count.samples, vec![5, 6, 7, 8, 9]);
    count.total = u64::MAX - 1;
    assert!(count.can_count(99));
    assert!(!count.can_count(98));
    let mut nothing = SendCount::new(0, 1);
    assert_eq!(nothing.on_write(1, 0), NextBlock::Stop);
    assert_eq!(nothing.total, 0);
}

#[test]
fn a_stream_that_takes_no_more_stops_the_sending() {
    let mut count = SendCount::new(4, 1);
    assert_eq!(count.on_write(1, 1), NextBlock::Leftover);
    assert_eq!(count.total, 3);
    assert_eq!(count.on_write(1, 1), NextBlock::Stop);
    assert_eq!(count.total, 3);
}

#[test]
fn the_total_is_what_the_stream_took() {
    let mut count = SendCount::new(10, 1);
    let mut taken = 0u64;
    let mut blocks = 0u64;
    for take in [10usize, 3, 2, 5, 7, 1, 1, 1, 10, 4] {
        let leftover = count.pending - take;
        assert!(count.can_count(leftover));
        let next = count.on_write(0, leftover);
        taken += take as u64;
        if next == NextBlock::Fresh {
            blocks += 1;
        }
        assert_eq!(count.total, taken);
        assert_eq!(count.total, 10 * blocks + if count.pending == 10 { 0 } else { 10 - count.pending as u64 });
    }
    assert_eq!(count.total, 44);
    assert_eq!(blocks, 4);
    assert_eq!(count.samples.len(), 10);
}

#[test]
fn counting_reads() {
    assert_eq!(on_read(5, Some(6)), (11, true));
    assert_eq!(on_read(5, Some(0)), (5, true));
    assert_eq!(on_read(5, None), (5, false));
}

#[test]
fn reports() {
    let mut samples = vec![30, 10, 20];
    let (rate, stalls) = report_tx("client", 1_250_000_000, &mut samples, 1_000_000_000);
    assert_eq!(samples, vec![10, 20, 30]);
    assert_eq!(rate, "[client TX] 1250000000 bytes in 1.000s -> 10.00 Gbits/sec");
    assert_eq!(
        stalls,
        "[client TX] write-stall ns: n=3 min=10 p50=20 p90=30 p99=30 p100=30 mean=20"
    );
    let mut samples = vec![30, 10, 20];
    let (rate, stalls) = report_tx("client", 1_000_000_000, &mut samples, 2_000_000_000);
    assert_eq!(samples, vec![10, 20, 30]);
    assert_eq!(rate, "[client TX] 1000000000 bytes in 2.000s -> 4.00 Gbits/sec");
    assert_eq!(
        stalls,
        "[client TX] write-stall ns: n=3 min=10 p50=20 p90=30 p99=30 p100=30 mean=20"
    );
    let mut samples = vec![];
    let (rate, stalls) = report_tx("server", 0, &mut samples, 0);
    assert_eq!(samples, Vec::<u64>::new());
    assert_eq!(rate, "[server TX] 0 bytes in 0.000s -> NaN Gbits/sec");
    assert_eq!(
        stalls,
        "[server TX] write-stall ns: n=0 min=0 p50=0 p90=0 p99=0 p100=0 mean=0"
    );
    assert_eq!(report_rx("server", 3, 0), "[server RX] 3 bytes in 0.000s -> inf Gbits/sec");
    assert_eq!(
        report_rx("server", 5_000_000_000, 5_012_345_678),
        "[server RX] 5000000000 bytes in 5.012s -> 7.98 Gbits/sec"
    );
}

#[test]
fn reports_agree_with_floats() {
    let mut state = 0x1d87_2b41_0f00_d5a7u64;
    let mut next = move || {
        state ^= state << 13;
        state ^= state >> 7;
        state ^= state << 17;
        state
    };
    for _ in 0..30_000 {
        let total = next() >> (next() % 64);
        let ns = next() >> (next() % 64);
        let el = std::time::Duration::from_nanos(ns).as_secs_f64();
        let expected = format!(
            "[x RX] {} bytes in {:.3}s -> {:.2} Gbits/sec",
            total,
            el,
            total as f64 * 8.0 / el / 1e9
        );
        assert_eq!(report_rx("x", total, ns), expected, "{} {}", total, ns);
    }
}

#[test]
fn lines_about_a_connection() {
    assert_eq!(listening_line(7600), "[p3perf] server listening on :7600");
    let n = negotiate(&encode_params(DIR_FORWARD, 5, 65536)).unwrap();
    assert_eq!(
        negotiated_line(&n),
        "[p3perf] negotiated: dir=0 secs=5 block=65536 (tx=false rx=true)"
    );
    assert_eq!(
        client_line("127.0.0.1", 7600, DIR_BIDIR),
        "[p3perf] client 127.0.0.1:7600 dir=2 (tx=true rx=true)"
    );
    assert_eq!(
        client_line("10.0.0.1", 1, DIR_REVERSE),
        "[p3perf] client 10.0.0.1:1 dir=1 (tx=false rx=true)"
    );
}

#[test]
fn a_report_leaves_the_samples_sorted() {
    let mut samples: Vec<u64> = (0..500u64).map(|i| (i * 7919) % 499 + i % 3).collect();
    let mut expected = samples.clone();
    expected.sort();
    let d = Dist::from_samples(samples.clone());
    let (_, stalls) = report_tx("x", 1, &mut samples, 1);
    assert_eq!(samples, expected);
    assert_eq!(
        stalls,
        format!(
            "[x TX] write-stall ns: n={} min={} p50={} p90={} p99={} p100={} mean={}",
            d.count, d.min, d.p50, d.p90, d.p99, d.p100, d.mean
        )
    );
}
