//! The words that a terminal shows in colour.
use netperf::stats::{Direction, StreamStats, TestResults};
use netperf::summary::{summary, summary_lines};
use netperf::ui::{role_label, server_banner, stats_line, summary_header, StatsRow};

fn one_row(sender: bool) -> StatsRow {
    StatsRow {
        id: Some(1),
        offset_millis: 0,
        duration_millis: 1000,
        bytes_transferred: 125,
        sender,
    }
}

fn one_stream() -> TestResults {
    let mut r = TestResults::default();
    r.streams.insert(
        1,
        StreamStats {
            sender: true,
            duration_millis: 1000,
            bytes_transferred: 125,
            syscalls: 1,
            latency: None,
        },
    );
    r
}

#[test]
fn words_with_and_without_colour() {
    colored::control::set_override(true);
    assert_eq!(role_label(true), "\x1B[33msender\x1B[0m");
    assert_eq!(role_label(false), "\x1B[35mreceiver\x1B[0m");
    assert_eq!(
        stats_line(&one_row(false)),
        "[  1]   0.00..1.00 sec  125 B   1.00 Kbits/sec        \x1B[35mreceiver\x1B[0m"
    );
    assert_eq!(server_banner(80)[1], "\x1B[36mListening on port\x1B[0m 80");
    assert_eq!(
        summary_header(),
        "\x1B[1mID\x1B[0m   \x1B[1mInterval\x1B[0m          \x1B[1mTransfer\x1B[0m      \x1B[1mBitrate\x1B[0m"
    );
    let s = summary(&one_stream(), &TestResults::default(), &Direction::ClientToServer).unwrap();
    assert_eq!(
        summary_lines(&s)[2],
        "[  1]   0.00..1.00 sec  125 B   1.00 Kbits/sec        \x1B[33msender\x1B[0m"
    );

    colored::control::set_override(false);
    assert_eq!(role_label(true), "sender");
    assert_eq!(role_label(false), "receiver");
    assert_eq!(
        stats_line(&one_row(true)),
        "[  1]   0.00..1.00 sec  125 B   1.00 Kbits/sec        sender"
    );
    assert_eq!(server_banner(80)[1], "Listening on port 80");
    assert_eq!(summary_header(), "ID   Interval          Transfer      Bitrate");
}
