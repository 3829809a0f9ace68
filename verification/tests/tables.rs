//! The lines of the reports.
use netperf::latency::{goodput_line, ids_of_both, interval_line, latency_lines};
use netperf::stats::{Direction, Dist, LatencyStats, StreamStats, TestResults};
use netperf::summary::{
    stream_ids, summary, summary_in_order, summary_lines_as, Summary,
};
use netperf::ui::{
    header_line, humanize_bitrate, humanize_bps, humanize_bytes, humanize_ns, server_banner_as,
    stats_line_as, summary_header_as, StatsRow,
};

fn row(id: Option<usize>, offset: u64, duration: u64, bytes: u64, sender: bool) -> StatsRow {
    StatsRow {
        id,
        offset_millis: offset,
        duration_millis: duration,
        bytes_transferred: bytes,
        sender,
    }
}

fn stream(sender: bool, duration: u64, bytes: u64) -> StreamStats {
    StreamStats {
        sender,
        duration_millis: duration,
        bytes_transferred: bytes,
        syscalls: 1,
        latency: None,
    }
}

fn results(streams: Vec<(usize, StreamStats)>) -> TestResults {
    let mut r = TestResults::default();
    for (id, s) in streams {
        r.streams.insert(id, s);
    }
    r
}

fn dist(count: u64, base: u64) -> Dist {
    Dist {
        count,
        min: base,
        p50: 2 * base,
        p90: 3 * base,
        p99: 4 * base,
        p100: 5 * base,
        mean: 6 * base,
    }
}

fn measured(sender: bool, base: u64, windows: u64) -> StreamStats {
    StreamStats {
        latency: Some(LatencyStats {
            interval_ns: dist(11, base),
            throughput_bps: dist(windows, 250_000),
            clock_baseline_ns: 41,
            warmup_discarded: 9,
        }),
        ..stream(sender, 1000, 1)
    }
}

#[test]
fn sizes_and_rates_in_words() {
    assert_eq!(humanize_bytes(0), "0 B");
    assert_eq!(humanize_bytes(1023), "1023 B");
    assert_eq!(humanize_bytes(1024), "1.00 KiB");
    assert_eq!(humanize_bytes(1536), "1.50 KiB");
    assert_eq!(humanize_bytes(1048575), "1024.00 KiB");
    assert_eq!(humanize_bytes(1048576), "1.00 MiB");
    assert_eq!(humanize_bytes(1 << 30), "1.00 GiB");
    assert_eq!(humanize_bytes(1 << 40), "1.00 TiB");
    assert_eq!(humanize_bitrate(125, 1000), "1.00 Kbits/sec");
    assert_eq!(humanize_bitrate(1, 1000), "8 Bits/sec");
    assert_eq!(humanize_bitrate(1, 3000), "2.6666666666666665 Bits/sec");
    assert_eq!(humanize_bitrate(0, 1000), "0 Bits/sec");
    assert_eq!(humanize_bitrate(0, 0), "NaN Kbits/sec");
    assert_eq!(humanize_bitrate(5, 0), "inf Kbits/sec");
    assert_eq!(humanize_bitrate(999_999, 1000), "7999.99 Kbits/sec");
    assert_eq!(humanize_bitrate(1_000_000, 1000), "8.00 Mbits/sec");
    assert_eq!(humanize_bitrate(1_000_000_000, 1000), "8.00 Gbits/sec");
    assert_eq!(humanize_bitrate(1_000_000_000_000, 1000), "8.00 Tbits/sec");
    assert_eq!(humanize_ns(999), "999 ns");
    assert_eq!(humanize_ns(1_000), "1.00 µs");
    assert_eq!(humanize_ns(1_500_000), "1.50 ms");
    assert_eq!(humanize_ns(2_345_000_000), "2.35 s");
    assert_eq!(humanize_bps(999), "999 bits/sec");
    assert_eq!(humanize_bps(1_000), "1.00 Kbits/sec");
    assert_eq!(humanize_bps(1_000_000), "1.00 Mbits/sec");
    assert_eq!(humanize_bps(12_345_678_901), "12.35 Gbits/sec");
}

#[test]
fn a_line_of_a_stream() {
    assert_eq!(
        stats_line_as(&row(Some(3), 1000, 1000, 125_000_000, true), "sender"),
        "[  3]   1.00..2.00 sec  119.21 MiB   1000.00 Mbits/sec        sender"
    );
    assert_eq!(
        stats_line_as(&row(Some(1234), 0, 1001, 0, false), "receiver"),
        "[1234]   0.00..1.00 sec  0 B   0 Bits/sec        receiver"
    );
    assert_eq!(
        stats_line_as(&row(None, 0, 10_000, 1 << 40, true), "x"),
        "[SUM]   0.00..10.00 sec  1.00 TiB   0.88 Tbits/sec        x"
    );
}

#[test]
fn a_line_must_fit() {
    assert!(row(None, 0, u64::MAX, u64::MAX / 8, true).check_fits());
    assert!(!row(None, 1, u64::MAX, 0, true).check_fits());
    assert!(!row(None, 0, 0, u64::MAX / 8 + 1, true).check_fits());
}

#[test]
fn headings() {
    assert_eq!(header_line(), "[ ID]   Interval          Transfer      Bitrate");
    assert_eq!(
        summary_header_as("ID", "Interval", "Transfer", "Bitrate"),
        "ID   Interval          Transfer      Bitrate"
    );
    assert_eq!(
        server_banner_as("Listening on port", 7559),
        vec![
            "--------------------------------------",
            "Listening on port 7559",
            "--------------------------------------",
        ]
    );
}

#[test]
fn the_summary_of_one_stream_has_no_sums() {
    let local = results(vec![(1, stream(true, 2000, 3000))]);
    let remote = results(vec![(1, stream(false, 2100, 2900))]);
    let s = summary(&local, &remote, &Direction::ClientToServer).unwrap();
    assert_eq!(
        s,
        Summary {
            rows: vec![
                row(Some(1), 0, 2000, 3000, true),
                row(Some(1), 0, 2100, 2900, false),
            ],
            sums: None,
        }
    );
    assert!(s.check_fits());
    assert_eq!(
        summary_lines_as(&s, "H", "S", "R"),
        vec![
            "- - - - - - - - - - - - - - - - - - - - - - - - - - - - -",
            "H",
            "[  1]   0.00..2.00 sec  2.93 KiB   12.00 Kbits/sec        S",
            "[  1]   0.00..2.10 sec  2.83 KiB   11.05 Kbits/sec        R",
        ]
    );
}

#[test]
fn the_summary_of_two_streams_sums_up_each_side() {
    let local = results(vec![(1, stream(true, 2000, 3000)), (2, stream(true, 2500, 1000))]);
    let remote = results(vec![(2, stream(false, 2100, 990)), (7, stream(false, 9000, 9))]);
    let s = summary_in_order(&vec![2, 1], &local, &remote, &Direction::ServerToClient).unwrap();
    assert_eq!(
        s,
        Summary {
            rows: vec![
                row(Some(2), 0, 2500, 1000, true),
                row(Some(2), 0, 2100, 990, false),
                row(Some(1), 0, 2000, 3000, true),
            ],
            sums: Some((row(None, 0, 2500, 4000, true), row(None, 0, 2100, 990, false))),
        }
    );
    assert_eq!(
        summary_lines_as(&s, "H", "S", "R"),
        vec![
            "- - - - - - - - - - - - - - - - - - - - - - - - - - - - -",
            "H",
            "[  2]   0.00..2.50 sec  1000 B   3.20 Kbits/sec        S",
            "[  2]   0.00..2.10 sec  990 B   3.77 Kbits/sec        R",
            "[  1]   0.00..2.00 sec  2.93 KiB   12.00 Kbits/sec        S",
            "",
            "[SUM]   0.00..2.50 sec  3.91 KiB   12.80 Kbits/sec        S",
            "[SUM]   0.00..2.10 sec  990 B   3.77 Kbits/sec        R",
        ]
    );
}

#[test]
fn both_ways_leaves_the_other_side_out() {
    let local = results(vec![(1, stream(true, 5, 30)), (2, stream(false, 6, 10))]);
    let remote = results(vec![(1, stream(false, 7, 29)), (2, stream(true, 8, 11))]);
    let s = summary(&local, &remote, &Direction::Bidirectional).unwrap();
    assert_eq!(s.rows.len(), 2);
    assert!(s.rows.contains(&row(Some(1), 0, 5, 30, true)));
    assert!(s.rows.contains(&row(Some(2), 0, 6, 10, false)));
    assert_eq!(s.sums, Some((row(None, 0, 5, 30, true), row(None, 0, 6, 10, false))));
}

#[test]
fn the_sums_do_not_depend_on_the_order() {
    let mut local = TestResults::default();
    let mut remote = TestResults::default();
    for id in 0..20usize {
        local.streams.insert(id, stream(id % 3 == 0, 100 + id as u64, 7 * id as u64));
        remote.streams.insert(id, stream(id % 3 != 0, 90 + id as u64, 5 * id as u64));
    }
    let mut ids = stream_ids(&local);
    let walked = summary(&local, &remote, &Direction::ClientToServer).unwrap();
    ids.sort();
    assert_eq!(ids, (0..20).collect::<Vec<usize>>());
    let up = summary_in_order(&ids, &local, &remote, &Direction::ClientToServer).unwrap();
    ids.reverse();
    let down = summary_in_order(&ids, &local, &remote, &Direction::ClientToServer).unwrap();
    assert_eq!(up.sums, down.sums);
    assert_eq!(up.sums, walked.sums);
    assert_eq!(up.rows.len(), 40);
    assert_eq!(up.rows[0], row(Some(0), 0, 100, 0, true));
    assert_eq!(down.rows[0], row(Some(19), 0, 119, 133, false));
}

#[test]
fn sums_that_do_not_fit_give_no_summary() {
    let big = u64::MAX / 2 + 1;
    let local = results(vec![(1, stream(true, 1, big)), (2, stream(true, 1, big))]);
    let none = TestResults::default();
    assert_eq!(summary(&local, &none, &Direction::ClientToServer), None);
    let halves = results(vec![(1, stream(true, 1, big)), (2, stream(false, 1, big))]);
    let s = summary(&halves, &none, &Direction::ClientToServer).unwrap();
    assert!(!s.check_fits());
    let sum_only = results(vec![
        (1, stream(true, 1, u64::MAX / 8)),
        (2, stream(true, 1, u64::MAX / 8)),
    ]);
    assert!(!summary(&sum_only, &none, &Direction::ClientToServer).unwrap().check_fits());
}

#[test]
fn no_streams_give_an_empty_summary() {
    let none = TestResults::default();
    let s = summary(&none, &none, &Direction::ClientToServer).unwrap();
    assert_eq!(s, Summary { rows: vec![], sums: None });
    assert_eq!(summary_lines_as(&s, "H", "S", "R").len(), 2);
}

#[test]
fn lines_of_percentiles() {
    let d = Dist { count: 5, min: 1, p50: 1500, p90: 2_500_000, p99: 3, p100: 4, mean: 5_000_000_000 };
    assert_eq!(
        interval_line(12, true, &d),
        "[ 12] write-stall  (sender)    min 1 ns  p50 1.50 µs  p90 2.50 ms  p99 3 ns  p100 4 ns  mean 5.00 s"
    );
    assert_eq!(
        interval_line(1, false, &d),
        "[  1] arrival-gap  (receiver)  min 1 ns  p50 1.50 µs  p90 2.50 ms  p99 3 ns  p100 4 ns  mean 5.00 s"
    );
    let lat = LatencyStats {
        interval_ns: d,
        throughput_bps: dist(4, 500),
        clock_baseline_ns: 41,
        warmup_discarded: 77,
    };
    assert_eq!(
        goodput_line(&lat),
        "      goodput/10ms          min 500 bits/sec  p50 1.00 Kbits/sec  p99 2.00 Kbits/sec  max 2.50 Kbits/sec   [n=5, clock~41 ns, warmup-drop=77]"
    );
}

#[test]
fn the_latency_table_is_empty_without_figures() {
    let r = results(vec![(1, stream(true, 1, 1))]);
    assert_eq!(latency_lines(&r, &TestResults::default()), Vec::<String>::new());
}

#[test]
fn the_latency_table_goes_by_stream_and_side() {
    let local = results(vec![
        (30, measured(true, 10, 2)),
        (2, stream(true, 1, 1)),
        (100, measured(true, 20, 0)),
    ]);
    let remote = results(vec![(30, measured(false, 30, 0)), (4, measured(false, 40, 1))]);
    assert_eq!(ids_of_both(&local, &remote), vec![2, 4, 30, 100]);
    let goodput = "      goodput/10ms          min 250.00 Kbits/sec  p50 500.00 Kbits/sec  p99 1.00 Mbits/sec  max 1.25 Mbits/sec   [n=11, clock~41 ns, warmup-drop=9]";
    assert_eq!(
        latency_lines(&local, &remote),
        vec![
            "- - - - - - - - - latency under load - - - - - - - - -",
            "[  4] arrival-gap  (receiver)  min 40 ns  p50 80 ns  p90 120 ns  p99 160 ns  p100 200 ns  mean 240 ns",
            goodput,
            "[ 30] write-stall  (sender)    min 10 ns  p50 20 ns  p90 30 ns  p99 40 ns  p100 50 ns  mean 60 ns",
            goodput,
            "[ 30] arrival-gap  (receiver)  min 30 ns  p50 60 ns  p90 90 ns  p99 120 ns  p100 150 ns  mean 180 ns",
            "[100] write-stall  (sender)    min 20 ns  p50 40 ns  p90 60 ns  p99 80 ns  p100 100 ns  mean 120 ns",
        ]
    );
}
