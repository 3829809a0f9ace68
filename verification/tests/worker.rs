//! A stream from its parameters to its result.
use netperf::data::{ClientOpts, Role, TestParameters, CLIENT_VERSION};
use netperf::stats::{Direction, Dist};
use netperf::stream_worker::{
    calibrate_clock, filled_block, on_drain, source, Load, LoadAction, LoadEvent, Source,
    StreamWorker, WorkerError, WorkerMessage, TICK_NS,
};
use netperf::ui::StatsRow;

fn opts() -> ClientOpts {
    ClientOpts {
        time: 10,
        parallel: 4,
        length: None,
        reverse: false,
        bidir: false,
        socket_buffers: None,
        latency: false,
    }
}

fn worker(is_sending: bool, time: u64, latency: bool) -> StreamWorker {
    let asked = ClientOpts { time, latency, ..opts() };
    StreamWorker::new(5, TestParameters::from_opts(&asked, 1024), is_sending)
}

const MS: u64 = 1_000_000;

#[test]
fn parameters_of_a_test() {
    assert_eq!(
        TestParameters::from_opts(&opts(), 2048),
        TestParameters {
            direction: Direction::ClientToServer,
            omit_seconds: 0,
            time_seconds: 10,
            parallel: 4,
            block_size: 2048,
            client_version: CLIENT_VERSION.to_string(),
            socket_buffers: None,
            measure_latency: false,
        }
    );
    let all = ClientOpts {
        time: 3,
        parallel: 1,
        length: Some(100),
        reverse: true,
        bidir: true,
        socket_buffers: Some(9),
        latency: true,
    };
    assert_eq!(
        TestParameters::from_opts(&all, 2048),
        TestParameters {
            direction: Direction::Bidirectional,
            omit_seconds: 0,
            time_seconds: 3,
            parallel: 1,
            block_size: 100,
            client_version: CLIENT_VERSION.to_string(),
            socket_buffers: Some(9),
            measure_latency: true,
        }
    );
    let reverse = ClientOpts { bidir: false, ..all };
    assert_eq!(TestParameters::from_opts(&reverse, 1).direction, Direction::ServerToClient);
    assert_ne!(Role::Server, Role::Client);
}

#[test]
fn the_block_is_random_only_on_the_sending_side() {
    let received = worker(false, 1, false).block().unwrap();
    assert_eq!(received, vec![0u8; 1024]);
    let a = worker(true, 1, false).block().unwrap();
    let b = worker(true, 1, false).block().unwrap();
    assert_eq!(a.len(), 1024);
    assert_ne!(a, received);
    assert_ne!(a, b);
}

#[test]
fn an_empty_block_is_always_filled() {
    let mut w = worker(true, 1, false);
    w.params.block_size = 0;
    assert_eq!(w.block(), Ok(vec![]));
}

#[test]
fn a_block_that_cannot_be_filled() {
    assert_eq!(filled_block(vec![1, 2], None), Ok(vec![1, 2]));
    let e = filled_block(vec![1, 2], Some("no entropy".to_string())).unwrap_err();
    assert_eq!(e, WorkerError::Random("no entropy".to_string()));
    assert_eq!(e.message(), "failed to generate random data: no entropy");
}

#[test]
fn socket_buffers_are_warned_of() {
    let mut w = worker(true, 1, false);
    assert_eq!(w.configure_stream_socket(), None);
    w.params.socket_buffers = Some(4096);
    assert_eq!(
        w.configure_stream_socket(),
        Some("--socket-buffers is not supported on wasm32-wasip2; ignoring.".to_string())
    );
}

#[test]
fn only_the_start_signal_starts_the_load() {
    let w = worker(true, 1, false);
    assert_eq!(w.on_signal(Some(WorkerMessage::StartLoad)), Ok(()));
    assert_eq!(w.on_signal(Some(WorkerMessage::Terminate)), Err(WorkerError::Channel));
    let e = w.on_signal(None).unwrap_err();
    assert_eq!(e, WorkerError::Channel);
    assert_eq!(
        e.message(),
        "Internal communication channel for stream was terminated unexpectedly!"
    );
}

#[test]
fn what_stops_a_stream() {
    let mut load = worker(true, 1, false).start(0);
    assert_eq!(load.step(LoadEvent::Io(10, 0)), LoadAction::Continue);
    assert_eq!(
        load.step(LoadEvent::Message(Some(WorkerMessage::StartLoad))),
        LoadAction::WarnRunning
    );
    assert_eq!(load.step(LoadEvent::Message(Some(WorkerMessage::Terminate))), LoadAction::Stop);
    assert_eq!(load.step(LoadEvent::Message(None)), LoadAction::Stop);
    assert_eq!(load.step(LoadEvent::Deadline), LoadAction::Stop);
    assert_eq!(load.step(LoadEvent::Io(0, 0)), LoadAction::StopClosed);
    let stats = load.finish(1_234_567_890);
    assert!(stats.sender);
    assert_eq!(stats.duration_millis, 1234);
    assert_eq!(stats.bytes_transferred, 10);
    assert_eq!(stats.syscalls, 1);
    assert_eq!(stats.latency, None);
}

#[test]
fn intervals_adjoin_and_hold_every_byte() {
    let mut load = worker(false, 10, false).start(0);
    load.step(LoadEvent::Io(100, 0));
    load.step(LoadEvent::Io(50, 0));
    let first = StatsRow {
        id: Some(5),
        offset_millis: 0,
        duration_millis: 1000,
        bytes_transferred: 150,
        sender: false,
    };
    assert_eq!(load.step(LoadEvent::Tick(1000 * MS + 1)), LoadAction::Report(first));
    load.step(LoadEvent::Io(7, 0));
    let second = StatsRow {
        offset_millis: 1000,
        duration_millis: 1500,
        bytes_transferred: 7,
        ..first
    };
    assert_eq!(load.step(LoadEvent::Tick(2500 * MS + 2)), LoadAction::Report(second));
    let third = StatsRow {
        offset_millis: 2500,
        duration_millis: 0,
        bytes_transferred: 0,
        ..first
    };
    assert_eq!(load.step(LoadEvent::Tick(2500 * MS + 2)), LoadAction::Report(third));
    let stats = load.finish(3000 * MS);
    assert_eq!(stats.bytes_transferred, 157);
    assert_eq!(stats.syscalls, 3);
    assert!(!stats.sender);
}

#[test]
fn room_for_bytes() {
    let mut load = worker(true, 1, false).start(0);
    assert!(load.has_room(u64::MAX));
    load.step(LoadEvent::Io(u64::MAX - 2, 0));
    assert!(load.has_room(2));
    assert!(!load.has_room(3));
}

#[test]
fn the_clock_is_wanted_only_where_latency_is_measured() {
    let plain = worker(true, 1, false).start(0);
    assert!(!plain.wants_clock(1));
    let measured = worker(true, 1, true).start(0);
    assert!(measured.wants_clock(1));
    assert!(!measured.wants_clock(0));
}

#[test]
fn a_time_that_is_not_wanted_changes_nothing() {
    let run = |t: u64| {
        let mut load = worker(true, 9, false).start(3);
        load.step(LoadEvent::Io(64, t));
        load.step(LoadEvent::Io(64, 2 * t));
        load.finish(77 * MS)
    };
    assert_eq!(run(0), run(5_000_000_000));
}

fn stalls(load: Load) -> (Dist, Dist, u64) {
    let lat = load.finish(0).latency.unwrap();
    (lat.interval_ns, lat.throughput_bps, lat.warmup_discarded)
}

#[test]
fn samples_leave_out_the_cost_of_the_clock() {
    let mut load = worker(true, 2, true).start(40);
    for now in [100u64, 130, 330, 1000] {
        assert_eq!(load.step(LoadEvent::Io(8, now)), LoadAction::Continue);
    }
    // The gaps are 100, 30, 200 and 670.
    let (interval, goodput, dropped) = stalls(load);
    assert_eq!(
        interval,
        Dist { count: 4, min: 0, p50: 60, p90: 630, p99: 630, p100: 630, mean: 212 }
    );
    assert_eq!(goodput, Dist::default());
    assert_eq!(dropped, 0);
}

#[test]
fn the_warm_up_is_dropped() {
    let mut load = worker(false, 3, true).start(0);
    load.step(LoadEvent::Io(8, 500 * MS));
    load.step(LoadEvent::Io(8, 1000 * MS - 1));
    load.step(LoadEvent::Io(8, 1000 * MS));
    load.step(LoadEvent::Io(8, 1000 * MS + 20));
    let stats = load.clone().finish(1);
    assert_eq!(stats.syscalls, 4);
    let (interval, _, dropped) = stalls(load);
    assert_eq!(dropped, 2);
    assert_eq!(interval.count + dropped, stats.syscalls);
    assert_eq!(interval, Dist { count: 2, min: 1, p50: 1, p90: 20, p99: 20, p100: 20, mean: 10 });
}

#[test]
fn a_short_test_has_no_warm_up() {
    let mut load = worker(false, 2, true).start(0);
    load.step(LoadEvent::Io(8, 5));
    assert_eq!(stalls(load).2, 0);
}

#[test]
fn goodput_of_a_window() {
    let mut load = worker(true, 1, true).start(0);
    load.step(LoadEvent::Io(1000, 4 * MS));
    load.step(LoadEvent::Io(250, 10 * MS - 1));
    load.step(LoadEvent::Io(0, 10 * MS - 1));
    // 1350 bytes in 12 ms.
    load.step(LoadEvent::Io(100, 12 * MS));
    // 600 bytes in 10 ms.
    load.step(LoadEvent::Io(600, 22 * MS));
    // The open window is left out.
    load.step(LoadEvent::Io(600, 23 * MS));
    assert_eq!(
        stalls(load).1,
        Dist {
            count: 2,
            min: 480_000,
            p50: 480_000,
            p90: 900_000,
            p99: 900_000,
            p100: 900_000,
            mean: 690_000
        }
    );
}

#[test]
fn goodput_agrees_with_floats() {
    let mut state = 0x2545_f491_4f6c_dd1du64;
    let mut next = move || {
        state ^= state << 13;
        state ^= state >> 7;
        state ^= state << 17;
        state
    };
    for _ in 0..20_000 {
        let bytes = (next() >> (next() % 64)).max(1);
        let ns = (next() >> (next() % 40)).max(10 * MS);
        let mut load = worker(true, 1, true).start(0);
        load.step(LoadEvent::Io(bytes, ns));
        let expected = (bytes as f64 * 8.0 / std::time::Duration::from_nanos(ns).as_secs_f64()) as u64;
        assert_eq!(stalls(load).1.p100, expected, "{} {}", bytes, ns);
    }
}

#[test]
fn the_median_step_of_the_clock() {
    assert_eq!(calibrate_clock(&vec![0, 10]), 10);
    assert_eq!(calibrate_clock(&vec![0, 10, 40]), 30);
    assert_eq!(calibrate_clock(&vec![0, 50, 60, 80]), 20);
    assert_eq!(calibrate_clock(&vec![5, 1]), 0);
    let readings: Vec<u64> = (0..257u64).map(|i| i * i).collect();
    // The steps are the odd numbers from 1 to 511.
    assert_eq!(calibrate_clock(&readings), 257);
}

#[test]
fn the_clock_is_calibrated_only_where_latency_is_measured() {
    let plain = worker(true, 1, false);
    assert_eq!(plain.clock_readings(), 0);
    assert_eq!(plain.clock_baseline(&vec![]), 0);
    assert_eq!(plain.clock_baseline(&vec![0, 10]), 0);
    let measured = worker(true, 1, true);
    assert_eq!(measured.clock_readings(), 257);
    assert_eq!(measured.clock_baseline(&vec![0, 10, 40]), 30);
}

#[test]
fn the_receiving_side_drains_until_the_connection_closes() {
    assert!(worker(false, 1, false).drains());
    assert!(!worker(true, 1, false).drains());
    assert!(on_drain(1));
    assert!(on_drain(usize::MAX));
    assert!(!on_drain(0));
}

#[test]
fn the_load_lasts_as_long_as_was_asked_for() {
    assert_eq!(worker(true, 10, false).load_ns(), 10_000_000_000);
    assert_eq!(worker(true, 0, false).load_ns(), 0);
    assert_eq!(worker(true, u64::MAX, true).load_ns(), 18_446_744_073_709_551_615_000_000_000);
    assert_eq!(TICK_NS, 1_000_000_000);
}

#[test]
fn what_ends_the_load_is_looked_at_before_a_transfer() {
    let order: Vec<Source> = (0..).map_while(source).collect();
    assert_eq!(order, vec![Source::Deadline, Source::Messages, Source::Ticks, Source::Io]);
    assert_eq!(source(4), None);
    assert_eq!(source(usize::MAX), None);
}

#[test]
fn a_further_start_signal_changes_nothing() {
    let run = |again: bool| {
        let mut load = worker(true, 1, true).start(0);
        load.step(LoadEvent::Io(8, 10));
        if again {
            load.step(LoadEvent::Message(Some(WorkerMessage::StartLoad)));
        }
        load.step(LoadEvent::Io(8, 30));
        load.finish(40)
    };
    assert_eq!(run(false), run(true));
}
