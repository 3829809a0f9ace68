//! One data stream of a test: what it does on each event while it is under load, and the
//! figures it reports.
//!
//! The clock and the socket stay outside. Times are nanoseconds since the load started.
use crate::binary64::{
    of_nat, product, quotient, saturated, seconds_of, whole_part, Binary64,
};
use crate::data::TestParameters;
use crate::stats::{
    ascending, dist_of, law_ascending_is_sorted, law_ascending_is_unique, law_rank_counts,
    sort_samples, Dist,    LatencyStats, StreamStats,
};
use crate::ui::StatsRow;
use vstd::prelude::*;
use vstd::string::StringExecFns;

verus! {

#[derive(Debug, Clone, Copy, Eq, PartialEq, Structural)]
pub enum WorkerMessage {
    StartLoad,
    Terminate,
}

/// Why a stream could not be run.
#[derive(Debug, Clone, Eq, PartialEq)]
pub enum WorkerError {
    /// The block to send could not be filled; what the system says of it.
    Random(String),
    /// The channel to the controller brought something else than the start signal.
    Channel,
}

/// What an error says.
pub open spec fn error_text(e: WorkerError) -> Seq<char> {
    match e {
        WorkerError::Random(detail) => "failed to generate random data: "@ + detail@,
        WorkerError::Channel => {
            "Internal communication channel for stream was terminated unexpectedly!"@
        },
    }
}

impl WorkerError {
    /// What the error says.
    pub fn message(&self) -> (text: String)
        ensures
            text@ == error_text(*self),
    {
        let mut out = String::new();
        match self {
            WorkerError::Random(detail) => {
                out.append("failed to generate random data: ");
                out.append(detail.as_str());
            },
            WorkerError::Channel => {
                out.append(
                    "Internal communication channel for stream was terminated unexpectedly!",
                );
            },
        }
        assert(out@ =~= error_text(*self));
        out
    }
}

/// The error of the crate `getrandom`, carried through unread.
#[verifier::external_type_specification]
#[verifier::external_body]
pub struct ExRandomError(getrandom::Error);

/// Calls `getrandom::fill`, which overwrites the block with random bytes. Its length stays
/// as it is, and an empty block is always filled. What the bytes are, and whether the call
/// succeeds on another block, is up to the system.
#[verifier::external_body]
fn fill_random(block: &mut Vec<u8>) -> (res: Result<(), getrandom::Error>)
    ensures
        final(block)@.len() == old(block)@.len(),
        old(block)@.len() == 0 ==> res is Ok,
{
    getrandom::fill(block)
}

/// Calls `Display::fmt` of `getrandom::Error`: what the system says of the failure.
#[verifier::external_body]
fn random_error_text(e: &getrandom::Error) -> (text: String)
{
    format!("{}", e)
}

/// A stream of a test, before it is under load.
#[derive(Debug, Clone, Eq, PartialEq)]
pub struct StreamWorker {
    pub id: usize,
    pub params: TestParameters,
    pub is_sending: bool,
}

/// What comes of an attempt to fill a block: the block, or the failure.
pub fn filled_block(block: Vec<u8>, failure: Option<String>) -> (res: Result<Vec<u8>, WorkerError>)
    ensures
        res == match failure {
            None => Ok::<Vec<u8>, WorkerError>(block),
            Some(detail) => Err(WorkerError::Random(detail)),
        },
{
    match failure {
        None => Ok(block),
        Some(detail) => Err(WorkerError::Random(detail)),
    }
}

impl StreamWorker {
    pub fn new(id: usize, params: TestParameters, is_sending: bool) -> (worker: Self)
        ensures
            worker.id == id,
            worker.params == params,
            worker.is_sending == is_sending,
    {
        StreamWorker { id, params, is_sending }
    }

    /// The block that is sent over and over, or that is read into: random bytes on the
    /// sending side, zeros on the receiving side.
    pub fn block(&self) -> (res: Result<Vec<u8>, WorkerError>)
        requires
            self.params.block_size <= isize::MAX,
        ensures
            res matches Ok(block) ==> block@.len() == self.params.block_size,
            !self.is_sending ==> res is Ok,
            !self.is_sending ==> res->Ok_0@ == Seq::new(
                self.params.block_size as nat,
                |i: int| 0u8,
            ),
            self.params.block_size == 0 ==> res is Ok,
            res matches Err(e) ==> e is Random,
    {
        let mut block: Vec<u8> = vec![0u8; self.params.block_size];
        assert(block@ =~= Seq::new(self.params.block_size as nat, |i: int| 0u8));
        if !self.is_sending {
            return Ok(block);
        }
        match fill_random(&mut block) {
            Ok(()) => filled_block(block, None),
            Err(e) => filled_block(block, Some(random_error_text(&e))),
        }
    }

    /// What to warn of when the socket is set up. Buffer sizes cannot be set.
    pub fn configure_stream_socket(&self) -> (warning: Option<String>)
        ensures
            warning is Some <==> self.params.socket_buffers is Some,
            warning is Some <==> warns_of_buffers(*self),
            warning matches Some(text) ==> text@
                == "--socket-buffers is not supported on wasm32-wasip2; ignoring."@,
    {
        match self.params.socket_buffers {
            Some(_) => Some(
                "--socket-buffers is not supported on wasm32-wasip2; ignoring.".to_owned(),
            ),
            None => None,
        }
    }

    /// How long the load lasts, in nanoseconds.
    pub fn load_ns(&self) -> (ns: u128)
        ensures
            ns == self.params.time_seconds * 1_000_000_000,
            ns == load_time(self.params.time_seconds as nat),
    {
        self.params.time_seconds as u128 * 1_000_000_000
    }

    /// How often the clock is read, back to back, to learn what a reading costs: not at all
    /// where latency is not measured.
    pub fn clock_readings(&self) -> (n: usize)
        ensures
            n == if self.params.measure_latency {
                257usize
            } else {
                0
            },
            n == readings_wanted(*self),
    {
        if self.params.measure_latency {
            257
        } else {
            0
        }
    }

    /// What a reading of the clock costs, from the readings; nothing where latency is not
    /// measured.
    pub fn clock_baseline(&self, readings: &Vec<u64>) -> (baseline_ns: u64)
        requires
            self.params.measure_latency ==> readings@.len() >= 2,
        ensures
            baseline_ns == if self.params.measure_latency {
                median_step(readings@)
            } else {
                0
            },
            baseline_ns == baseline_of(*self, readings@),
    {
        if self.params.measure_latency {
            calibrate_clock(readings)
        } else {
            0
        }
    }

    /// Whether what still arrives after the load is read and thrown away. The receiving side
    /// does that, so that a sender that is still sending does not fail.
    pub fn drains(&self) -> (b: bool)
        ensures
            b == !self.is_sending,
            b == end_drains(*self),
    {
        !self.is_sending
    }

    /// Whether the first word of the controller lets the load begin. A closed channel
    /// brings none.
    pub fn on_signal(&self, signal: Option<WorkerMessage>) -> (res: Result<(), WorkerError>)
        ensures
            res is Ok <==> signal == Some(WorkerMessage::StartLoad),
            res is Ok <==> starts(*self, signal),
            res matches Err(e) ==> e == WorkerError::Channel,
    {
        match signal {
            Some(WorkerMessage::StartLoad) => Ok(()),
            _ => Err(WorkerError::Channel),
        }
    }
}

/// Whether to read on while draining, after a read of so many bytes. An empty read means
/// that the connection is closed.
pub fn on_drain(read: usize) -> (more: bool)
    ensures
        more == (read > 0),
{
    read > 0
}

/// How long a window is over which goodput is taken, in nanoseconds.
pub const WINDOW_NS: u64 = 10_000_000;

/// How long it is from one interval report to the next, in nanoseconds.
pub const TICK_NS: u64 = 1_000_000_000;

/// How long a load lasts, in nanoseconds.
pub open spec fn load_time(time_seconds: nat) -> nat {
    time_seconds * 1_000_000_000
}

/// How often the clock is read before the load.
pub open spec fn readings_wanted(worker: StreamWorker) -> nat {
    if worker.params.measure_latency {
        257
    } else {
        0
    }
}

/// What a reading of the clock costs, as a stream takes it.
pub open spec fn baseline_of(worker: StreamWorker, readings: Seq<u64>) -> u64 {
    if worker.params.measure_latency {
        median_step(readings)
    } else {
        0
    }
}

/// A size of the socket buffers was asked for.
pub open spec fn warns_of_buffers(worker: StreamWorker) -> bool {
    worker.params.socket_buffers is Some
}

/// The first word of the controller lets the load begin.
pub open spec fn starts(worker: StreamWorker, signal: Option<WorkerMessage>) -> bool {
    signal == Some(WorkerMessage::StartLoad)
}

/// The stream reads on after the load.
pub open spec fn end_drains(worker: StreamWorker) -> bool {
    !worker.is_sending
}

/// The time of a transfer of `bytes` is looked at.
pub open spec fn clock_wanted(s: LoadView, bytes: u64) -> bool {
    s.measure && bytes > 0
}

/// A transfer of `bytes` can still be counted.
pub open spec fn room_for(s: LoadView, bytes: u64) -> bool {
    s.bytes_transferred + bytes <= u64::MAX
}

/// Where the events of a load come from.
#[derive(Debug, Clone, Copy, Eq, PartialEq, Structural)]
pub enum Source {
    Deadline,
    Messages,
    Ticks,
    Io,
}

/// The source that comes `rank` places behind the first one that is looked at. What ends
/// the load comes before the reports, and a transfer is begun only when nothing else is
/// due.
pub open spec fn ranked(rank: int) -> Option<Source> {
    if rank == 0 {
        Some(Source::Deadline)
    } else if rank == 1 {
        Some(Source::Messages)
    } else if rank == 2 {
        Some(Source::Ticks)
    } else if rank == 3 {
        Some(Source::Io)
    } else {
        None
    }
}

/// The source that comes `rank` places behind the first one that is looked at.
pub fn source(rank: usize) -> (s: Option<Source>)
    ensures
        s == ranked(rank as int),
{
    match rank {
        0 => Some(Source::Deadline),
        1 => Some(Source::Messages),
        2 => Some(Source::Ticks),
        3 => Some(Source::Io),
        _ => None,
    }
}

/// The source that an event comes from.
pub open spec fn source_of(event: LoadEvent) -> Source {
    match event {
        LoadEvent::Deadline => Source::Deadline,
        LoadEvent::Message(_) => Source::Messages,
        LoadEvent::Tick(_) => Source::Ticks,
        LoadEvent::Io(_, _) => Source::Io,
    }
}

/// How long the warm-up of a test is, in nanoseconds: one second, none in a short test.
pub open spec fn warmup_of(time_seconds: u64) -> nat {
    if time_seconds > 2 {
        1_000_000_000
    } else {
        0
    }
}

/// The state of a stream under load.
#[verifier::ext_equal]
pub struct LoadView {
    pub id: usize,
    pub is_sending: bool,
    pub measure: bool,
    pub warmup_ns: nat,
    pub clock_baseline_ns: nat,
    pub bytes_transferred: nat,
    pub syscalls: nat,
    /// When interval figures were last reported, and what has come since.
    pub last_tick: nat,
    pub interval_bytes: nat,
    pub interval_syscalls: nat,
    /// Stalls or gaps, in the order they were measured.
    pub samples: Seq<u64>,
    /// Goodput of each closed window, in bits per second.
    pub goodput: Seq<u64>,
    pub warmup_discarded: nat,
    /// When the last transfer completed.
    pub previous: nat,
    /// When the open window began, and what has come since.
    pub window_start: nat,
    pub window_bytes: nat,
}

/// What can happen to a stream under load.
#[derive(Debug, Clone, Copy, Eq, PartialEq, Structural)]
pub enum LoadEvent {
    /// The time of the test is up: [`StreamWorker::load_ns`] nanoseconds have passed.
    Deadline,
    /// The controller said something, or closed the channel.
    Message(Option<WorkerMessage>),
    /// Another [`TICK_NS`] nanoseconds have passed. The time of the tick.
    Tick(u64),
    /// Bytes were written or read; none means that the connection is closed. The time is
    /// looked at only where [`Load::wants_clock`] says so.
    Io(u64, u64),
}

/// What to do on an event.
#[derive(Debug, Clone, Copy, Eq, PartialEq, Structural)]
pub enum LoadAction {
    /// Go on.
    Continue,
    /// Warn that the load is already running, and go on.
    WarnRunning,
    /// Report the figures of an interval, and go on.
    Report(StatsRow),
    /// Stop.
    Stop,
    /// Warn that the connection is closed, and stop.
    StopClosed,
}

/// `a - b`, or zero where `b` is greater.
pub open spec fn minus(a: nat, b: nat) -> nat {
    if a >= b {
        (a - b) as nat
    } else {
        0
    }
}

/// Goodput in bits per second of `bytes` over `ns` nanoseconds.
pub open spec fn window_bps(bytes: nat, ns: nat) -> u64 {
    saturated(whole_part(quotient(product(of_nat(bytes), 8), seconds_of(ns))))
}

/// A stream when its load starts.
pub open spec fn load_start(worker: StreamWorker, clock_baseline_ns: u64) -> LoadView {
    LoadView {
        id: worker.id,
        is_sending: worker.is_sending,
        measure: worker.params.measure_latency,
        warmup_ns: warmup_of(worker.params.time_seconds),
        clock_baseline_ns: clock_baseline_ns as nat,
        bytes_transferred: 0,
        syscalls: 0,
        last_tick: 0,
        interval_bytes: 0,
        interval_syscalls: 0,
        samples: Seq::empty(),
        goodput: Seq::empty(),
        warmup_discarded: 0,
        previous: 0,
        window_start: 0,
        window_bytes: 0,
    }
}

/// Counts a transfer towards the totals and the interval. An empty one is no call.
pub open spec fn counted(s: LoadView, bytes: nat) -> LoadView {
    let calls: nat = if bytes > 0 {
        1
    } else {
        0
    };
    LoadView {
        bytes_transferred: s.bytes_transferred + bytes,
        interval_bytes: s.interval_bytes + bytes,
        syscalls: s.syscalls + calls,
        interval_syscalls: s.interval_syscalls + calls,
        ..s
    }
}

/// Counts a transfer towards the window, and closes the window where it is long enough.
pub open spec fn windowed(s: LoadView, bytes: nat, now: nat) -> LoadView {
    let elapsed = minus(now, s.window_start);
    if elapsed >= WINDOW_NS {
        LoadView {
            goodput: s.goodput.push(window_bps(s.window_bytes + bytes, elapsed)),
            window_start: now,
            window_bytes: 0,
            ..s
        }
    } else {
        LoadView { window_bytes: s.window_bytes + bytes, ..s }
    }
}

/// Takes the time since the last transfer as a sample, less the cost of reading the clock.
/// During the warm-up the sample is dropped.
pub open spec fn sampled(s: LoadView, now: nat) -> LoadView {
    if now >= s.warmup_ns {
        LoadView {
            samples: s.samples.push(minus(minus(now, s.previous), s.clock_baseline_ns) as u64),
            previous: now,
            ..s
        }
    } else {
        LoadView { warmup_discarded: s.warmup_discarded + 1, previous: now, ..s }
    }
}

/// The state after a transfer.
pub open spec fn after_io(s: LoadView, bytes: nat, now: nat) -> LoadView {
    let c = counted(s, bytes);
    if bytes > 0 && s.measure {
        sampled(windowed(c, bytes, now), now)
    } else {
        c
    }
}

/// The figures of the interval that ends at `tick`.
pub open spec fn tick_row(s: LoadView, tick: nat) -> StatsRow {
    StatsRow {
        id: Some(s.id),
        offset_millis: (s.last_tick / 1_000_000) as u64,
        duration_millis: (minus(tick, s.last_tick) / 1_000_000) as u64,
        bytes_transferred: s.interval_bytes as u64,
        sender: s.is_sending,
    }
}

/// The state after the figures of an interval are reported.
pub open spec fn after_tick(s: LoadView, tick: nat) -> LoadView {
    LoadView { interval_bytes: 0, interval_syscalls: 0, last_tick: tick, ..s }
}

/// The state after an event. Time running out and messages change no figure.
pub open spec fn after(s: LoadView, event: LoadEvent) -> LoadView {
    match event {
        LoadEvent::Deadline => s,
        LoadEvent::Message(_) => s,
        LoadEvent::Tick(tick) => after_tick(s, tick as nat),
        LoadEvent::Io(bytes, now) => after_io(s, bytes as nat, now as nat),
    }
}

/// What to do on an event. A closed channel stops the stream as a request to stop does.
pub open spec fn action_on(s: LoadView, event: LoadEvent) -> LoadAction {
    match event {
        LoadEvent::Deadline => LoadAction::Stop,
        LoadEvent::Message(Some(WorkerMessage::StartLoad)) => LoadAction::WarnRunning,
        LoadEvent::Message(Some(WorkerMessage::Terminate)) => LoadAction::Stop,
        LoadEvent::Message(None) => LoadAction::Stop,
        LoadEvent::Tick(tick) => LoadAction::Report(tick_row(s, tick as nat)),
        LoadEvent::Io(bytes, _) => if bytes > 0 {
            LoadAction::Continue
        } else {
            LoadAction::StopClosed
        },
    }
}

/// What holds of a stream under load at any time: parts are no greater than the whole,
/// and every call is either a sample or was dropped in the warm-up, where it is measured
/// at all.
pub open spec fn consistent(s: LoadView) -> bool {
    &&& s.interval_bytes <= s.bytes_transferred
    &&& s.interval_syscalls <= s.syscalls
    &&& s.syscalls <= s.bytes_transferred
    &&& s.window_bytes <= s.bytes_transferred
    &&& s.measure ==> s.samples.len() + s.warmup_discarded == s.syscalls
    &&& !s.measure ==> {
        &&& s.samples.len() == 0
        &&& s.goodput.len() == 0
        &&& s.warmup_discarded == 0
    }
}

/// The result of a stream that has been under load for `now` nanoseconds.
pub open spec fn stats_of(s: LoadView, now: nat) -> StreamStats {
    StreamStats {
        sender: s.is_sending,
        duration_millis: (now / 1_000_000) as u64,
        bytes_transferred: s.bytes_transferred as u64,
        syscalls: s.syscalls as u64,
        latency: if s.measure {
            Some(
                LatencyStats {
                    interval_ns: dist_of(s.samples),
                    throughput_bps: dist_of(s.goodput),
                    clock_baseline_ns: s.clock_baseline_ns as u64,
                    warmup_discarded: s.warmup_discarded as u64,
                },
            )
        } else {
            None
        },
    }
}

/// A stream under load.
#[derive(Debug, Clone)]
pub struct Load {
    id: usize,
    is_sending: bool,
    measure: bool,
    warmup_ns: u64,
    clock_baseline_ns: u64,
    bytes_transferred: u64,
    syscalls: u64,
    last_tick: u64,
    interval_bytes: u64,
    interval_syscalls: u64,
    samples: Vec<u64>,
    goodput: Vec<u64>,
    warmup_discarded: u64,
    previous: u64,
    window_start: u64,
    window_bytes: u64,
}

impl View for Load {
    type V = LoadView;

    closed spec fn view(&self) -> LoadView {
        LoadView {
            id: self.id,
            is_sending: self.is_sending,
            measure: self.measure,
            warmup_ns: self.warmup_ns as nat,
            clock_baseline_ns: self.clock_baseline_ns as nat,
            bytes_transferred: self.bytes_transferred as nat,
            syscalls: self.syscalls as nat,
            last_tick: self.last_tick as nat,
            interval_bytes: self.interval_bytes as nat,
            interval_syscalls: self.interval_syscalls as nat,
            samples: self.samples@,
            goodput: self.goodput@,
            warmup_discarded: self.warmup_discarded as nat,
            previous: self.previous as nat,
            window_start: self.window_start as nat,
            window_bytes: self.window_bytes as nat,
        }
    }
}

fn exact_window_bps(bytes: u64, ns: u64) -> (bps: u64)
    requires
        ns > 0,
    ensures
        bps == window_bps(bytes as nat, ns as nat),
{
    Binary64::from_u64(bytes).times(8).over(Binary64::from_nanos(ns)).to_u64()
}

impl StreamWorker {
    /// The stream as its load starts, with the cost of reading the clock.
    pub fn start(&self, clock_baseline_ns: u64) -> (load: Load)
        ensures
            load@ == load_start(*self, clock_baseline_ns),
            consistent(load@),
    {
        let load = Load {
            id: self.id,
            is_sending: self.is_sending,
            measure: self.params.measure_latency,
            warmup_ns: if self.params.time_seconds > 2 {
                1_000_000_000
            } else {
                0
            },
            clock_baseline_ns,
            bytes_transferred: 0,
            syscalls: 0,
            last_tick: 0,
            interval_bytes: 0,
            interval_syscalls: 0,
            samples: Vec::new(),
            goodput: Vec::new(),
            warmup_discarded: 0,
            previous: 0,
            window_start: 0,
            window_bytes: 0,
        };
        assert(load@ =~= load_start(*self, clock_baseline_ns));
        load
    }
}

impl Load {
    /// Whether the time of a transfer of `bytes` is looked at.
    pub fn wants_clock(&self, bytes: u64) -> (b: bool)
        ensures
            b == (self@.measure && bytes > 0),
            b == clock_wanted(self@, bytes),
    {
        self.measure && bytes > 0
    }

    /// Whether a transfer of `bytes` can still be counted.
    pub fn has_room(&self, bytes: u64) -> (b: bool)
        ensures
            b == (self@.bytes_transferred + bytes <= u64::MAX),
            b == room_for(self@, bytes),
    {
        bytes <= u64::MAX - self.bytes_transferred
    }

    fn on_io(&mut self, bytes: u64, now: u64)
        requires
            consistent(old(self)@),
            old(self)@.bytes_transferred + bytes <= u64::MAX,
        ensures
            final(self)@ == after_io(old(self)@, bytes as nat, now as nat),
    {
        let ghost s = self@;
        self.interval_bytes = self.interval_bytes + bytes;
        self.bytes_transferred = self.bytes_transferred + bytes;
        if bytes > 0 {
            self.syscalls = self.syscalls + 1;
            self.interval_syscalls = self.interval_syscalls + 1;
        }
        assert(self@ =~= counted(s, bytes as nat));
        if bytes > 0 && self.measure {
            self.window_bytes = self.window_bytes + bytes;
            let elapsed: u64 = now.saturating_sub(self.window_start);
            if elapsed >= WINDOW_NS {
                self.goodput.push(exact_window_bps(self.window_bytes, elapsed));
                self.window_start = now;
                self.window_bytes = 0;
            }
            let ghost w = windowed(counted(s, bytes as nat), bytes as nat, now as nat);
            assert(self@ =~= w);
            if now >= self.warmup_ns {
                let gap: u64 = now.saturating_sub(self.previous);
                self.samples.push(gap.saturating_sub(self.clock_baseline_ns));
            } else {
                self.warmup_discarded = self.warmup_discarded + 1;
            }
            self.previous = now;
            assert(self@ =~= sampled(w, now as nat));
        }
    }

    fn on_tick(&mut self, tick: u64) -> (row: StatsRow)
        ensures
            row == tick_row(old(self)@, tick as nat),
            final(self)@ == after_tick(old(self)@, tick as nat),
    {
        let ghost s = self@;
        let row = StatsRow {
            id: Some(self.id),
            offset_millis: self.last_tick / 1_000_000,
            duration_millis: tick.saturating_sub(self.last_tick) / 1_000_000,
            bytes_transferred: self.interval_bytes,
            sender: self.is_sending,
        };
        self.interval_bytes = 0;
        self.interval_syscalls = 0;
        self.last_tick = tick;
        assert(self@ =~= after_tick(s, tick as nat));
        row
    }

    /// Takes in an event and says what to do.
    pub fn step(&mut self, event: LoadEvent) -> (action: LoadAction)
        requires
            consistent(old(self)@),
            event matches LoadEvent::Io(bytes, _) ==> old(self)@.bytes_transferred + bytes
                <= u64::MAX,
        ensures
            final(self)@ == after(old(self)@, event),
            action == action_on(old(self)@, event),
            consistent(final(self)@),
    {
        proof {
            lemma_step_is_consistent(self@, event);
        }
        match event {
            LoadEvent::Deadline => LoadAction::Stop,
            LoadEvent::Message(Some(WorkerMessage::StartLoad)) => LoadAction::WarnRunning,
            LoadEvent::Message(Some(WorkerMessage::Terminate)) => LoadAction::Stop,
            LoadEvent::Message(None) => LoadAction::Stop,
            LoadEvent::Tick(tick) => LoadAction::Report(self.on_tick(tick)),
            LoadEvent::Io(bytes, now) => {
                self.on_io(bytes, now);
                if bytes > 0 {
                    LoadAction::Continue
                } else {
                    LoadAction::StopClosed
                }
            },
        }
    }

    /// The result of the stream, which has been under load for `now` nanoseconds.
    pub fn finish(self, now: u64) -> (stats: StreamStats)
        ensures
            stats == stats_of(self@, now as nat),
    {
        let latency: Option<LatencyStats> = if self.measure {
            Some(
                LatencyStats {
                    interval_ns: Dist::from_samples(self.samples),
                    throughput_bps: Dist::from_samples(self.goodput),
                    clock_baseline_ns: self.clock_baseline_ns,
                    warmup_discarded: self.warmup_discarded,
                },
            )
        } else {
            None
        };
        StreamStats {
            sender: self.is_sending,
            duration_millis: now / 1_000_000,
            bytes_transferred: self.bytes_transferred,
            syscalls: self.syscalls,
            latency,
        }
    }
}

proof fn lemma_step_is_consistent(s: LoadView, event: LoadEvent)
    requires
        consistent(s),
    ensures
        consistent(after(s, event)),
{
}

/// The event ends the load.
pub open spec fn ends_load(s: LoadView, event: LoadEvent) -> bool {
    action_on(s, event) == LoadAction::Stop || action_on(s, event) == LoadAction::StopClosed
}

/// The load ends when its time is up, on a request to stop, when the channel closes, and
/// when the connection closes, and on nothing else. A further start signal changes nothing.
pub proof fn law_what_ends_a_load(s: LoadView, event: LoadEvent)
    ensures
        ends_load(s, event) <==> match event {
            LoadEvent::Deadline => true,
            LoadEvent::Message(message) => message != Some(WorkerMessage::StartLoad),
            LoadEvent::Tick(_) => false,
            LoadEvent::Io(bytes, _) => bytes == 0,
        },
        event == LoadEvent::Message(Some(WorkerMessage::StartLoad)) ==> after(s, event) == s,
{
}

/// What is due that ends the load is taken before a transfer: wherever a transfer is looked
/// for, the sources of everything else that ends a load were looked at before.
pub proof fn law_ends_come_before_transfers(s: LoadView, event: LoadEvent, rank: int)
    requires
        ends_load(s, event),
        !(event is Io),
        ranked(rank) == Some(Source::Io),
    ensures
        exists|earlier: int|
            0 <= earlier < rank && #[trigger] ranked(earlier) == Some(source_of(event)),
{
    law_what_ends_a_load(s, event);
    assert(ranked(0) == Some(Source::Deadline));
    assert(ranked(1) == Some(Source::Messages));
}

/// The state after a series of events.
pub open spec fn after_all(s: LoadView, events: Seq<LoadEvent>) -> LoadView
    decreases events.len(),
{
    if events.len() == 0 {
        s
    } else {
        after(after_all(s, events.drop_last()), events.last())
    }
}

/// The bytes of all transfers of a series of events.
pub open spec fn bytes_in(events: Seq<LoadEvent>) -> nat
    decreases events.len(),
{
    if events.len() == 0 {
        0
    } else {
        bytes_in(events.drop_last()) + match events.last() {
            LoadEvent::Io(bytes, _) => bytes as nat,
            _ => 0,
        }
    }
}

/// The number of transfers of a series of events that moved anything.
pub open spec fn calls_in(events: Seq<LoadEvent>) -> nat
    decreases events.len(),
{
    if events.len() == 0 {
        0
    } else {
        calls_in(events.drop_last()) + match events.last() {
            LoadEvent::Io(bytes, _) => if bytes > 0 {
                1nat
            } else {
                0
            },
            _ => 0,
        }
    }
}

/// The bytes of all interval reports of a series of events.
pub open spec fn bytes_reported(s: LoadView, events: Seq<LoadEvent>) -> nat
    decreases events.len(),
{
    if events.len() == 0 {
        0
    } else {
        bytes_reported(s, events.drop_last()) + match events.last() {
            LoadEvent::Tick(_) => after_all(s, events.drop_last()).interval_bytes,
            _ => 0,
        }
    }
}

/// Whatever happens to a stream, it has counted every byte and every call once; the bytes
/// of the interval reports and of the open interval are all its bytes; and where latency
/// is measured every call is a sample or was dropped in the warm-up.
pub proof fn law_every_transfer_counts(
    worker: StreamWorker,
    clock_baseline_ns: u64,
    events: Seq<LoadEvent>,
)
    ensures
        ({
            let start = load_start(worker, clock_baseline_ns);
            let s = after_all(start, events);
            &&& consistent(s)
            &&& s.bytes_transferred == bytes_in(events)
            &&& s.syscalls == calls_in(events)
            &&& bytes_reported(start, events) + s.interval_bytes == s.bytes_transferred
            &&& s.measure ==> s.samples.len() + s.warmup_discarded == calls_in(events)
        }),
    decreases events.len(),
{
    let start = load_start(worker, clock_baseline_ns);
    if events.len() > 0 {
        law_every_transfer_counts(worker, clock_baseline_ns, events.drop_last());
        lemma_step_is_consistent(after_all(start, events.drop_last()), events.last());
    }
}

/// The result of a stream that was not measured holds no latency figures, and of one that
/// was it holds as many samples as there were calls after the warm-up.
pub proof fn law_latency_only_where_measured(
    worker: StreamWorker,
    clock_baseline_ns: u64,
    events: Seq<LoadEvent>,
    now: nat,
)
    requires
        bytes_in(events) <= u64::MAX,
    ensures
        ({
            let s = after_all(load_start(worker, clock_baseline_ns), events);
            let stats = stats_of(s, now);
            &&& stats.latency is Some <==> worker.params.measure_latency
            &&& stats.latency matches Some(lat) ==> lat.interval_ns.count + lat.warmup_discarded
                == stats.syscalls
            &&& stats.bytes_transferred == bytes_in(events)
            &&& stats.syscalls == calls_in(events)
        }),
{
    let start = load_start(worker, clock_baseline_ns);
    law_every_transfer_counts(worker, clock_baseline_ns, events);
    lemma_settings_stay(start, events);
}

proof fn lemma_settings_stay(s: LoadView, events: Seq<LoadEvent>)
    ensures
        ({
            let t = after_all(s, events);
            &&& t.id == s.id
            &&& t.is_sending == s.is_sending
            &&& t.measure == s.measure
            &&& t.warmup_ns == s.warmup_ns
            &&& t.clock_baseline_ns == s.clock_baseline_ns
        }),
    decreases events.len(),
{
    if events.len() > 0 {
        lemma_settings_stay(s, events.drop_last());
    }
}

/// Each interval report starts where the one before it ended, whatever happened between
/// the two ticks.
pub proof fn law_intervals_adjoin(s: LoadView, first: u64, between: Seq<LoadEvent>, second: u64)
    requires
        forall|i: int| 0 <= i < between.len() ==> !(#[trigger] between[i] is Tick),
        first <= second,
    ensures
        ({
            let row = tick_row(after_all(after_tick(s, first as nat), between), second as nat);
            &&& row.offset_millis == first / 1_000_000
            &&& row.duration_millis == (second - first) / 1_000_000
        }),
{
    lemma_tick_stays(after_tick(s, first as nat), between);
}

proof fn lemma_tick_stays(s: LoadView, events: Seq<LoadEvent>)
    requires
        forall|i: int| 0 <= i < events.len() ==> !(#[trigger] events[i] is Tick),
    ensures
        after_all(s, events).last_tick == s.last_tick,
    decreases events.len(),
{
    if events.len() > 0 {
        assert(!(events[events.len() - 1] is Tick));
        assert forall|i: int| 0 <= i < events.drop_last().len() implies !(
        #[trigger] events.drop_last()[i] is Tick) by {
            assert(!(events[i] is Tick));
        }
        lemma_tick_stays(s, events.drop_last());
    }
}

/// Where the clock is not wanted, the time that is handed in changes nothing.
pub proof fn law_clock_counts_only_where_wanted(s: LoadView, bytes: u64, a: u64, b: u64)
    requires
        !(s.measure && bytes > 0),
    ensures
        after(s, LoadEvent::Io(bytes, a)) == after(s, LoadEvent::Io(bytes, b)),
        action_on(s, LoadEvent::Io(bytes, a)) == action_on(s, LoadEvent::Io(bytes, b)),
{
}

/// The times between readings of the clock that follow each other.
pub open spec fn clock_steps(readings: Seq<u64>) -> Seq<u64> {
    Seq::new(
        (readings.len() - 1) as nat,
        |i: int| minus(readings[i + 1] as nat, readings[i] as nat) as u64,
    )
}

/// The median of the times between readings that follow each other; of an even number of
/// them the upper one.
pub open spec fn median_step(readings: Seq<u64>) -> u64 {
    ascending(clock_steps(readings))[(readings.len() - 1) / 2]
}

/// Median cost of a back-to-back monotonic clock read, in nanoseconds, from the readings.
/// Subtracted from each stall/gap sample so the measurement reflects the wait, not the
/// clock-read overhead.
pub fn calibrate_clock(readings: &Vec<u64>) -> (baseline_ns: u64)
    requires
        readings@.len() >= 2,
    ensures
        baseline_ns == median_step(readings@),
{
    let mut steps: Vec<u64> = Vec::new();
    let mut i: usize = 1;
    while i < readings.len()
        invariant
            1 <= i <= readings.len(),
            steps@ =~= clock_steps(readings@).take(i - 1),
        decreases readings.len() - i,
    {
        steps.push(readings[i].saturating_sub(readings[i - 1]));
        i = i + 1;
    }
    assert(clock_steps(readings@).take(i - 1) =~= clock_steps(readings@));
    let ghost unsorted = steps@;
    sort_samples(&mut steps);
    proof {
        law_ascending_is_unique(unsorted, steps@);
        law_ascending_is_sorted(unsorted);
    }
    steps[steps.len() / 2]
}

/// A load starts with nothing counted and nothing measured, with the settings of its
/// stream. The warm-up is a second in a test of three seconds or more, and else there is
/// none.
pub proof fn law_load_starts_empty(worker: StreamWorker, clock_baseline_ns: u64)
    ensures
        ({
            let s = load_start(worker, clock_baseline_ns);
            &&& s.id == worker.id
            &&& s.is_sending == worker.is_sending
            &&& s.measure == worker.params.measure_latency
            &&& s.clock_baseline_ns == clock_baseline_ns
            &&& worker.params.time_seconds >= 3 ==> s.warmup_ns == 1_000_000_000
            &&& worker.params.time_seconds < 3 ==> s.warmup_ns == 0
            &&& s.bytes_transferred == 0 && s.syscalls == 0
            &&& s.interval_bytes == 0 && s.interval_syscalls == 0
            &&& s.samples.len() == 0 && s.goodput.len() == 0 && s.warmup_discarded == 0
            &&& s.last_tick == 0 && s.previous == 0
            &&& s.window_start == 0 && s.window_bytes == 0
        }),
{
}

/// Wherever latency is measured, on either side, a transfer that completes ten milliseconds
/// or more after the open window began closes it: it adds one figure, of all bytes since the
/// window began over the time since then, and an empty window opens. One that completes
/// earlier adds its bytes to the window and no figure.
pub proof fn law_transfer_closes_a_long_window(s: LoadView, bytes: u64, now: u64)
    requires
        s.measure,
        bytes > 0,
    ensures
        ({
            let t = after(s, LoadEvent::Io(bytes, now));
            &&& now - s.window_start >= 10_000_000 ==> {
                &&& t.goodput == s.goodput.push(
                    window_bps((s.window_bytes + bytes) as nat, (now - s.window_start) as nat),
                )
                &&& t.window_start == now
                &&& t.window_bytes == 0
            }
            &&& now - s.window_start < 10_000_000 ==> {
                &&& t.goodput == s.goodput
                &&& t.window_start == s.window_start
                &&& t.window_bytes == s.window_bytes + bytes
            }
        }),
{
}

/// Wherever latency is measured, on either side, a transfer after the warm-up adds one
/// sample, the time since the transfer before it less the cost of reading the clock; one
/// during the warm-up is dropped.
pub proof fn law_transfer_is_a_sample_after_the_warm_up(s: LoadView, bytes: u64, now: u64)
    requires
        s.measure,
        bytes > 0,
    ensures
        ({
            let t = after(s, LoadEvent::Io(bytes, now));
            let gap = now - s.previous - s.clock_baseline_ns;
            &&& t.previous == now
            &&& now < s.warmup_ns ==> t.samples == s.samples && t.warmup_discarded
                == s.warmup_discarded + 1
            &&& now >= s.warmup_ns ==> {
                &&& t.samples.len() == s.samples.len() + 1
                &&& t.samples.drop_last() == s.samples
                &&& t.samples.last() == if gap > 0 {
                    gap
                } else {
                    0
                }
                &&& t.warmup_discarded == s.warmup_discarded
            }
        }),
{
    let t = after(s, LoadEvent::Io(bytes, now));
    if now >= s.warmup_ns {
        assert(t.samples.drop_last() =~= s.samples);
    }
}

/// A transfer counts its bytes and one call, in the whole and in the interval, on either
/// side; an empty one counts nothing. Nothing that a transfer does touches the settings or
/// the time of the last report.
pub proof fn law_transfer_is_counted(s: LoadView, bytes: u64, now: u64)
    ensures
        ({
            let t = after(s, LoadEvent::Io(bytes, now));
            &&& t.bytes_transferred - s.bytes_transferred == bytes
            &&& t.interval_bytes - s.interval_bytes == bytes
            &&& t.syscalls - s.syscalls == if bytes == 0 {
                0int
            } else {
                1int
            }
            &&& t.interval_syscalls - s.interval_syscalls == t.syscalls - s.syscalls
            &&& t.last_tick == s.last_tick
            &&& same_settings(s, t)
            &&& !s.measure || bytes == 0 ==> same_measures(s, t)
        }),
{
}

/// The settings of two states are the same.
pub open spec fn same_settings(s: LoadView, t: LoadView) -> bool {
    &&& t.id == s.id
    &&& t.is_sending == s.is_sending
    &&& t.measure == s.measure
    &&& t.warmup_ns == s.warmup_ns
    &&& t.clock_baseline_ns == s.clock_baseline_ns
}

/// What two states have measured is the same.
pub open spec fn same_measures(s: LoadView, t: LoadView) -> bool {
    &&& t.samples == s.samples
    &&& t.goodput == s.goodput
    &&& t.warmup_discarded == s.warmup_discarded
    &&& t.previous == s.previous
    &&& t.window_start == s.window_start
    &&& t.window_bytes == s.window_bytes
}

/// A tick opens a new interval and changes nothing that was counted or measured. The end of
/// the time and messages change nothing at all.
pub proof fn law_only_transfers_change_the_figures(s: LoadView, event: LoadEvent)
    requires
        !(event is Io),
    ensures
        ({
            let t = after(s, event);
            &&& t.bytes_transferred == s.bytes_transferred
            &&& t.syscalls == s.syscalls
            &&& same_settings(s, t)
            &&& same_measures(s, t)
            &&& event matches LoadEvent::Tick(tick) ==> {
                &&& t.interval_bytes == 0
                &&& t.interval_syscalls == 0
                &&& t.last_tick == tick
            }
            &&& !(event is Tick) ==> t == s
        }),
{
}

/// What each event asks for: only a tick brings a report, only an empty transfer stops the
/// load with a warning, and only a further start signal is warned of.
pub proof fn law_what_each_event_asks_for(s: LoadView, event: LoadEvent)
    ensures
        action_on(s, event) is Report <==> event is Tick,
        action_on(s, event) is WarnRunning <==> event == LoadEvent::Message(
            Some(WorkerMessage::StartLoad),
        ),
        action_on(s, event) is StopClosed <==> (event matches LoadEvent::Io(bytes, _) && bytes == 0),
        action_on(s, event) is Continue <==> (event matches LoadEvent::Io(bytes, _) && bytes > 0),
        action_on(s, event) is Stop <==> event == LoadEvent::Deadline || event
            == LoadEvent::Message(Some(WorkerMessage::Terminate)) || event
            == LoadEvent::Message(None),
{
}

/// The bytes that were moved since the last tick of a series of events.
pub open spec fn bytes_since_tick(events: Seq<LoadEvent>) -> nat
    decreases events.len(),
{
    if events.len() == 0 {
        0
    } else {
        match events.last() {
            LoadEvent::Tick(_) => 0,
            LoadEvent::Io(bytes, _) => bytes_since_tick(events.drop_last()) + bytes as nat,
            _ => bytes_since_tick(events.drop_last()),
        }
    }
}

/// The time of the last tick of a series of events, zero where there is none.
pub open spec fn tick_before(events: Seq<LoadEvent>) -> nat
    decreases events.len(),
{
    if events.len() == 0 {
        0
    } else {
        match events.last() {
            LoadEvent::Tick(tick) => tick as nat,
            _ => tick_before(events.drop_last()),
        }
    }
}

/// The bytes of the lines that are reported over a series of events.
pub open spec fn bytes_of_rows(s: LoadView, events: Seq<LoadEvent>) -> nat
    decreases events.len(),
{
    if events.len() == 0 {
        0
    } else {
        bytes_of_rows(s, events.drop_last()) + match action_on(
            after_all(s, events.drop_last()),
            events.last(),
        ) {
            LoadAction::Report(row) => row.bytes_transferred as nat,
            _ => 0,
        }
    }
}

proof fn lemma_since_tick(worker: StreamWorker, clock_baseline_ns: u64, events: Seq<LoadEvent>)
    ensures
        ({
            let s = after_all(load_start(worker, clock_baseline_ns), events);
            &&& s.interval_bytes == bytes_since_tick(events)
            &&& s.last_tick == tick_before(events)
            &&& bytes_since_tick(events) <= bytes_in(events)
        }),
    decreases events.len(),
{
    if events.len() > 0 {
        lemma_since_tick(worker, clock_baseline_ns, events.drop_last());
    }
}

/// The line that a tick reports, on either side: it is of the stream, reaches from the tick
/// before it, or from the start, to this one, and holds the bytes that were moved in between.
pub proof fn law_a_report_is_of_its_interval(
    worker: StreamWorker,
    clock_baseline_ns: u64,
    events: Seq<LoadEvent>,
    tick: u64,
)
    requires
        bytes_in(events) <= u64::MAX,
        tick_before(events) <= tick,
    ensures
        action_on(
            after_all(load_start(worker, clock_baseline_ns), events),
            LoadEvent::Tick(tick),
        ) matches LoadAction::Report(row) && {
            &&& row.id == Some(worker.id)
            &&& row.sender == worker.is_sending
            &&& row.bytes_transferred == bytes_since_tick(events)
            &&& row.offset_millis == tick_before(events) / 1_000_000
            &&& row.duration_millis == (tick - tick_before(events)) / 1_000_000
        },
{
    let start = load_start(worker, clock_baseline_ns);
    lemma_since_tick(worker, clock_baseline_ns, events);
    lemma_settings_stay(start, events);
}

/// The lines that are reported hold every byte once: theirs, and those that were moved since
/// the last tick, are all bytes of the transfers.
pub proof fn law_reports_hold_every_byte(
    worker: StreamWorker,
    clock_baseline_ns: u64,
    events: Seq<LoadEvent>,
)
    requires
        bytes_in(events) <= u64::MAX,
    ensures
        bytes_of_rows(load_start(worker, clock_baseline_ns), events) + bytes_since_tick(events)
            == bytes_in(events),
    decreases events.len(),
{
    if events.len() > 0 {
        law_reports_hold_every_byte(worker, clock_baseline_ns, events.drop_last());
        lemma_since_tick(worker, clock_baseline_ns, events.drop_last());
    }
}

/// The times of the transfers that moved anything.
pub open spec fn transfer_times(events: Seq<LoadEvent>) -> Seq<nat>
    decreases events.len(),
{
    if events.len() == 0 {
        Seq::empty()
    } else {
        match events.last() {
            LoadEvent::Io(bytes, now) => if bytes > 0 {
                transfer_times(events.drop_last()).push(now as nat)
            } else {
                transfer_times(events.drop_last())
            },
            _ => transfer_times(events.drop_last()),
        }
    }
}

/// No time is before the one in front of it.
pub open spec fn in_order(times: Seq<nat>) -> bool {
    forall|i: int, j: int| 0 <= i < j < times.len() ==> times[i] <= times[j]
}

/// The last of the times, zero where there is none.
pub open spec fn latest(times: Seq<nat>) -> nat {
    if times.len() == 0 {
        0
    } else {
        times.last()
    }
}

proof fn lemma_earlier_in_order(times: Seq<nat>, next: nat)
    requires
        in_order(times.push(next)),
    ensures
        in_order(times),
        forall|i: int| 0 <= i < times.len() ==> times[i] <= next,
{
    let all = times.push(next);
    assert forall|i: int, j: int| 0 <= i < j < times.len() implies times[i] <= times[j] by {
        assert(all[i] <= all[j]);
    }
    assert forall|i: int| 0 <= i < times.len() implies times[i] <= next by {
        assert(all[i] <= all[times.len() as int]);
    }
}

/// The samples of a measured load, on either side, whose transfers complete in order: the
/// first transfers, those within the warm-up, are dropped; each one after them gives the
/// time since the transfer before it, or since the start, less the cost of reading the
/// clock.
pub proof fn law_samples_are_the_gaps(
    worker: StreamWorker,
    clock_baseline_ns: u64,
    events: Seq<LoadEvent>,
)
    requires
        worker.params.measure_latency,
        in_order(transfer_times(events)),
    ensures
        ({
            let s = after_all(load_start(worker, clock_baseline_ns), events);
            let times = transfer_times(events);
            let dropped = s.warmup_discarded;
            let warmup: nat = if worker.params.time_seconds > 2 {
                1_000_000_000
            } else {
                0
            };
            &&& s.samples.len() + dropped == times.len()
            &&& forall|i: int| 0 <= i < dropped ==> #[trigger] times[i] < warmup
            &&& forall|i: int| dropped <= i < times.len() ==> #[trigger] times[i] >= warmup
            &&& forall|k: int|
                0 <= k < s.samples.len() ==> #[trigger] s.samples[k] == minus(
                    minus(times[dropped + k], latest(times.take(dropped + k))),
                    clock_baseline_ns as nat,
                )
            &&& s.previous == latest(times)
        }),
    decreases events.len(),
{
    let start = load_start(worker, clock_baseline_ns);
    lemma_settings_stay(start, events);
    if events.len() > 0 {
        let rest = events.drop_last();
        let before = transfer_times(rest);
        let times = transfer_times(events);
        let event = events.last();
        if event is Io && event->Io_0 > 0 {
            let now = event->Io_1 as nat;
            assert(times == before.push(now));
            lemma_earlier_in_order(before, now);
            law_samples_are_the_gaps(worker, clock_baseline_ns, rest);
            lemma_settings_stay(start, rest);
            let a = after_all(start, rest);
            let s = after_all(start, events);
            assert(s == after(a, event));
            assert(before.take(before.len() as int) =~= before);
            assert(times.take(before.len() as int) =~= before);
            if now < start.warmup_ns && a.samples.len() > 0 {
                assert(before[a.warmup_discarded as int] <= now);
            }
            assert forall|k: int| 0 <= k < s.samples.len() implies #[trigger] s.samples[k] == minus(
                minus(
                    times[s.warmup_discarded + k],
                    latest(times.take(s.warmup_discarded + k)),
                ),
                clock_baseline_ns as nat,
            ) by {
                if k < a.samples.len() {
                    assert(s.samples[k] == a.samples[k]);
                    assert(times[a.warmup_discarded + k] == before[a.warmup_discarded + k]);
                    assert(times.take(a.warmup_discarded + k) =~= before.take(
                        a.warmup_discarded + k,
                    ));
                }
            }
        } else {
            law_samples_are_the_gaps(worker, clock_baseline_ns, rest);
        }
    }
}

/// A window of a load: what was moved in it, and how long it was.
pub struct Window {
    pub bytes: nat,
    pub ns: nat,
}

/// The windows that were closed over a series of events. One is closed wherever a goodput
/// figure is added.
pub open spec fn closed_windows(s: LoadView, events: Seq<LoadEvent>) -> Seq<Window>
    decreases events.len(),
{
    if events.len() == 0 {
        Seq::empty()
    } else {
        let before = after_all(s, events.drop_last());
        let rest = closed_windows(s, events.drop_last());
        match events.last() {
            LoadEvent::Io(bytes, now) => if after_all(s, events).goodput.len()
                > before.goodput.len() {
                rest.push(
                    Window {
                        bytes: before.window_bytes + bytes as nat,
                        ns: minus(now as nat, before.window_start),
                    },
                )
            } else {
                rest
            },
            _ => rest,
        }
    }
}

/// The bytes of all windows.
pub open spec fn bytes_of_windows(windows: Seq<Window>) -> nat {
    windows.fold_left(0nat, |sum: nat, w: Window| sum + w.bytes)
}

/// The time of all windows.
pub open spec fn time_of_windows(windows: Seq<Window>) -> nat {
    windows.fold_left(0nat, |sum: nat, w: Window| sum + w.ns)
}

/// The windows of a measured load, on either side, whose transfers complete in order: each
/// closed one is ten milliseconds or longer and has its goodput figure; they follow each
/// other without a gap from the start to where the open window begins; and the bytes of the
/// closed ones and of the open one are all bytes of the transfers. The open window has not
/// seen a transfer ten milliseconds after it began.
pub proof fn law_windows_hold_every_byte(
    worker: StreamWorker,
    clock_baseline_ns: u64,
    events: Seq<LoadEvent>,
)
    requires
        worker.params.measure_latency,
        in_order(transfer_times(events)),
    ensures
        ({
            let start = load_start(worker, clock_baseline_ns);
            let s = after_all(start, events);
            let closed = closed_windows(start, events);
            &&& s.goodput.len() == closed.len()
            &&& forall|i: int|
                0 <= i < closed.len() ==> {
                    &&& #[trigger] closed[i].ns >= 10_000_000
                    &&& s.goodput[i] == window_bps(closed[i].bytes, closed[i].ns)
                }
            &&& bytes_of_windows(closed) + s.window_bytes == bytes_in(events)
            &&& time_of_windows(closed) == s.window_start
            &&& s.window_start <= latest(transfer_times(events)) < s.window_start + 10_000_000
        }),
    decreases events.len(),
{
    let start = load_start(worker, clock_baseline_ns);
    lemma_settings_stay(start, events);
    if events.len() > 0 {
        let rest = events.drop_last();
        let before = transfer_times(rest);
        let event = events.last();
        let a = after_all(start, rest);
        let s = after_all(start, events);
        let old_closed = closed_windows(start, rest);
        let closed = closed_windows(start, events);
        lemma_settings_stay(start, rest);
        if event is Io && event->Io_0 > 0 {
            let now = event->Io_1 as nat;
            assert(transfer_times(events) == before.push(now));
            lemma_earlier_in_order(before, now);
            law_windows_hold_every_byte(worker, clock_baseline_ns, rest);
            if closed.len() > old_closed.len() {
                assert(closed.drop_last() =~= old_closed);
                assert forall|i: int| 0 <= i < closed.len() implies {
                    &&& #[trigger] closed[i].ns >= 10_000_000
                    &&& s.goodput[i] == window_bps(closed[i].bytes, closed[i].ns)
                } by {
                    if i < old_closed.len() {
                        assert(closed[i] == old_closed[i]);
                    }
                }
            }
        } else {
            law_windows_hold_every_byte(worker, clock_baseline_ns, rest);
        }
    }
}

/// The result of a load: whose it is, how long it took in whole milliseconds, and where
/// latency is measured the percentiles of its samples and of its windows, with the cost of
/// reading the clock and the number of transfers that were dropped.
pub proof fn law_result_is_of_the_load(
    worker: StreamWorker,
    clock_baseline_ns: u64,
    events: Seq<LoadEvent>,
    now: u64,
)
    requires
        bytes_in(events) <= u64::MAX,
    ensures
        ({
            let s = after_all(load_start(worker, clock_baseline_ns), events);
            let stats = stats_of(s, now as nat);
            &&& stats.sender == worker.is_sending
            &&& stats.duration_millis * 1_000_000 <= now
            &&& now < (stats.duration_millis + 1) * 1_000_000
            &&& stats.bytes_transferred == bytes_in(events)
            &&& stats.syscalls == calls_in(events)
            &&& stats.latency is Some <==> worker.params.measure_latency
            &&& stats.latency matches Some(lat) ==> {
                &&& lat.interval_ns == dist_of(s.samples)
                &&& lat.throughput_bps == dist_of(s.goodput)
                &&& lat.clock_baseline_ns == clock_baseline_ns
                &&& lat.warmup_discarded == s.warmup_discarded
            }
        }),
{
    let start = load_start(worker, clock_baseline_ns);
    law_latency_only_where_measured(worker, clock_baseline_ns, events, now as nat);
    law_every_transfer_counts(worker, clock_baseline_ns, events);
    lemma_settings_stay(start, events);
}

/// The clock is wanted exactly where the time makes a difference.
pub proof fn law_clock_is_wanted_where_it_counts(s: LoadView, bytes: u64)
    ensures
        clock_wanted(s, bytes) <==> exists|a: u64, b: u64| #[trigger]
            after(s, LoadEvent::Io(bytes, a)) != #[trigger] after(s, LoadEvent::Io(bytes, b)),
{
    if clock_wanted(s, bytes) {
        assert(after(s, LoadEvent::Io(bytes, 0)).previous == 0);
        assert(after(s, LoadEvent::Io(bytes, 1)).previous == 1);
    }
}

/// There is room for a transfer exactly where the total after it is a number of 64 bits.
pub proof fn law_room_is_for_the_total(s: LoadView, bytes: u64, now: u64)
    ensures
        room_for(s, bytes) <==> after(s, LoadEvent::Io(bytes, now)).bytes_transferred <= u64::MAX,
{
}

/// Every second that is asked for adds a second to the load, and the warm-up leaves the
/// greater part of it.
pub proof fn law_load_lasts_as_asked(time_seconds: u64)
    ensures
        load_time(0) == 0,
        load_time((time_seconds + 1) as nat) == load_time(time_seconds as nat) + 1_000_000_000,
        time_seconds > 0 ==> 2 * warmup_of(time_seconds) < load_time(time_seconds as nat),
{
}

/// Both ends of a stream calibrate the clock alike, from 256 steps where latency is measured
/// and not at all elsewhere; exactly one of them drains.
pub proof fn law_ends_of_a_stream(a: StreamWorker, b: StreamWorker, readings: Seq<u64>)
    requires
        a.params == b.params,
        a.is_sending != b.is_sending,
    ensures
        readings_wanted(a) == readings_wanted(b),
        readings_wanted(a) == if a.params.measure_latency {
            256 + 1nat
        } else {
            0nat
        },
        baseline_of(a, readings) == baseline_of(b, readings),
        !a.params.measure_latency ==> baseline_of(a, readings) == 0,
        end_drains(a) != end_drains(b),
        end_drains(a) ==> b.is_sending,
{
}

/// The cost of reading the clock is the median of the steps between readings that follow
/// each other: more than half of the steps are no greater, and no more than half are
/// smaller.
pub proof fn law_baseline_is_the_median(worker: StreamWorker, readings: Seq<u64>)
    requires
        worker.params.measure_latency,
        readings.len() >= 2,
        forall|i: int, j: int| 0 <= i < j < readings.len() ==> readings[i] <= readings[j],
    ensures
        ({
            let steps = Seq::new(
                (readings.len() - 1) as nat,
                |i: int| (readings[i + 1] - readings[i]) as u64,
            );
            let m = baseline_of(worker, readings);
            &&& steps.contains(m)
            &&& 2 * steps.filter(|x: u64| x <= m).len() > steps.len()
            &&& 2 * steps.filter(|x: u64| x < m).len() <= steps.len()
        }),
{
    let steps = Seq::new(
        (readings.len() - 1) as nat,
        |i: int| (readings[i + 1] - readings[i]) as u64,
    );
    assert(steps =~= clock_steps(readings)) by {
        assert forall|i: int| 0 <= i < steps.len() implies steps[i] == clock_steps(readings)[i] by {
            assert(readings[i] <= readings[i + 1]);
        }
    }
    law_rank_counts(steps, (steps.len() / 2) as int);
}

/// A load begins on the start signal alone, not on another word and not when the channel
/// closes; any size of the socket buffers that is asked for is warned of.
pub proof fn law_before_the_load(worker: StreamWorker, signal: Option<WorkerMessage>, size: usize)
    ensures
        starts(worker, signal) <==> signal is Some && signal != Some(WorkerMessage::Terminate),
        worker.params.socket_buffers == Some(size) ==> warns_of_buffers(worker),
        worker.params.socket_buffers is None ==> !warns_of_buffers(worker),
{
    match signal {
        Some(WorkerMessage::StartLoad) => {},
        Some(WorkerMessage::Terminate) => {},
        None => {},
    }
}

/// Every source of events has its place, and only one.
pub proof fn law_every_source_is_looked_at(event: LoadEvent)
    ensures
        exists|rank: int| 0 <= rank < 4 && #[trigger] ranked(rank) == Some(source_of(event)),
        forall|a: int, b: int|
            #[trigger] ranked(a) is Some && #[trigger] ranked(b) == ranked(a) ==> a == b,
        forall|rank: int| #[trigger] ranked(rank) is Some <==> 0 <= rank < 4,
{
    assert(ranked(0) == Some(Source::Deadline));
    assert(ranked(1) == Some(Source::Messages));
    assert(ranked(2) == Some(Source::Ticks));
    assert(ranked(3) == Some(Source::Io));
}

} // verus!
