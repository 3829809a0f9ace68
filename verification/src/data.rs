//! The parameters of a test, as the client asks for them.
use crate::stats::Direction;
use vstd::prelude::*;

verus! {

/// The version that a client reports.
pub const CLIENT_VERSION: &'static str = "0.1.0";

#[derive(Debug, Eq, PartialEq, Structural)]
pub enum Role {
    Server,
    Client,
}

/// What was asked for on the client's command line.
#[derive(Debug, Clone, Eq, PartialEq)]
pub struct ClientOpts {
    /// Seconds to transmit for.
    pub time: u64,
    /// The number of data streams.
    pub parallel: u16,
    /// Block size in bytes.
    pub length: Option<usize>,
    /// The server sends, the client receives.
    pub reverse: bool,
    /// Both ends send and receive.
    pub bidir: bool,
    pub socket_buffers: Option<usize>,
    /// Collect latency-under-load correlates.
    pub latency: bool,
}

#[derive(Debug, Clone, Eq, PartialEq)]
pub struct TestParameters {
    pub direction: Direction,
    /// omit the first n seconds.
    pub omit_seconds: u32,
    pub time_seconds: u64,
    // The number of data streams
    pub parallel: u16,
    pub block_size: usize,
    pub client_version: String,
    pub socket_buffers: Option<usize>,
    /// Collect latency-under-load correlates (write-stall / arrival-gap / goodput windows).
    pub measure_latency: bool,
}

/// Which way traffic goes. Both ways wins over reverse.
pub open spec fn direction_of(bidir: bool, reverse: bool) -> Direction {
    if bidir {
        Direction::Bidirectional
    } else if reverse {
        Direction::ServerToClient
    } else {
        Direction::ClientToServer
    }
}

/// The parameters of a test.
#[verifier::ext_equal]
pub struct ParametersView {
    pub direction: Direction,
    pub omit_seconds: nat,
    pub time_seconds: nat,
    pub parallel: nat,
    pub block_size: nat,
    pub client_version: Seq<char>,
    pub socket_buffers: Option<usize>,
    pub measure_latency: bool,
}

impl View for TestParameters {
    type V = ParametersView;

    open spec fn view(&self) -> ParametersView {
        ParametersView {
            direction: self.direction,
            omit_seconds: self.omit_seconds as nat,
            time_seconds: self.time_seconds as nat,
            parallel: self.parallel as nat,
            block_size: self.block_size as nat,
            client_version: self.client_version@,
            socket_buffers: self.socket_buffers,
            measure_latency: self.measure_latency,
        }
    }
}

/// The parameters that a client asks for.
pub open spec fn asked_for(opts: ClientOpts, default_block_size: usize) -> ParametersView {
    ParametersView {
        direction: direction_of(opts.bidir, opts.reverse),
        omit_seconds: 0,
        time_seconds: opts.time as nat,
        parallel: opts.parallel as nat,
        block_size: match opts.length {
            Some(length) => length as nat,
            None => default_block_size as nat,
        },
        client_version: CLIENT_VERSION@,
        socket_buffers: opts.socket_buffers,
        measure_latency: opts.latency,
    }
}

impl TestParameters {
    pub fn from_opts(opts: &ClientOpts, default_block_size: usize) -> (params: Self)
        ensures
            params.direction == direction_of(opts.bidir, opts.reverse),
            params.direction == Direction::Bidirectional <==> opts.bidir,
            params.direction == Direction::ServerToClient <==> opts.reverse && !opts.bidir,
            params.direction == Direction::ClientToServer <==> !opts.reverse && !opts.bidir,
            params.omit_seconds == 0,
            params.time_seconds == opts.time,
            params.parallel == opts.parallel,
            params.block_size == match opts.length {
                Some(length) => length,
                None => default_block_size,
            },
            params.client_version@ == CLIENT_VERSION@,
            params.socket_buffers == opts.socket_buffers,
            params.measure_latency == opts.latency,
            params@ == asked_for(*opts, default_block_size),
    {
        let direction = if opts.bidir {
            Direction::Bidirectional
        } else if opts.reverse {
            Direction::ServerToClient
        } else {
            Direction::ClientToServer
        };
        TestParameters {
            direction,
            omit_seconds: 0,
            time_seconds: opts.time,
            parallel: opts.parallel,
            block_size: opts.length.unwrap_or(default_block_size),
            client_version: CLIENT_VERSION.to_owned(),
            socket_buffers: opts.socket_buffers,
            measure_latency: opts.latency,
        }
    }
}

/// Traffic goes both ways exactly where that was asked for, whatever else was; where it was
/// not, the server sends exactly where reverse was asked for.
pub proof fn law_traffic_goes_as_asked(opts: ClientOpts)
    ensures
        ({
            let direction = direction_of(opts.bidir, opts.reverse);
            &&& direction == Direction::Bidirectional <==> opts.bidir
            &&& !opts.bidir ==> (direction == Direction::ServerToClient <==> opts.reverse)
            &&& !opts.bidir ==> (direction == Direction::ClientToServer <==> !opts.reverse)
        }),
{
}

/// Each wish of the client is met whatever the others are: the time, the streams, the
/// buffers and the measuring as asked for, nothing left out at the start, and blocks of the
/// length that was asked for, or else of the default.
pub proof fn law_every_wish_is_met(opts: ClientOpts, default_block_size: usize)
    ensures
        ({
            let p = asked_for(opts, default_block_size);
            &&& p.direction == Direction::Bidirectional <==> opts.bidir
            &&& p.direction == Direction::ServerToClient <==> opts.reverse && !opts.bidir
            &&& p.omit_seconds == 0
            &&& p.time_seconds == opts.time
            &&& p.parallel == opts.parallel
            &&& opts.length is Some ==> Some(p.block_size as usize) == opts.length
            &&& opts.length is None ==> p.block_size == default_block_size
            &&& p.client_version == CLIENT_VERSION@
            &&& p.socket_buffers == opts.socket_buffers
            &&& p.measure_latency <==> opts.latency
        }),
{
}

} // verus!
