# netperf

A TCP throughput and latency measurement tool. Its protocol, statistics and reporting
logic is a Verus library: its functions state what they return, and Verus proves it. A few
small functions are believed instead, each marked `external_body` with a comment that says
what is claimed: the calls into `getrandom` and `colored`, and the sort of the standard
library.

## Layout

- `src/` is the library.
  - `stats` holds the result types and the exact nearest-rank percentiles of samples.
  - `ui`, `summary` and `latency` hold the lines of the reports.
  - `data` holds the parameters of a test.
  - `stream_worker` holds one data stream as a state machine: events in, actions out.
  - `echo` holds the control message, the book-keeping and the reports of the stand-alone
    bench.
  - `binary64` and `decimal` hold the arithmetic behind the reports: numbers of 53
    significant bits, rounded half to even, and their decimal text.
- `tests/` runs the library on given values, and its arithmetic against floating point.
- `app/` is the program around the library: sockets, timers, the command line, printing.

## The program

`netperf bench -s` listens; `netperf bench -c <HOST>` connects and negotiates the test:
`-p <PORT>`, `-t <SECS>` duration, `-l <BYTES>` block size, `-R` reverse, `--bidir` both
ways. Only the client is configured.

`netperf loopback` puts streams between two ends on this machine under load: `-t`, `-l`,
`-P <N>` parallel streams, `-R`, `--bidir`, `-L` latency under load. It prints a line for
each stream every second, and the summary and latency tables at the end. The two ends
exchange the parameters and the results over a control connection, as JSON.

`netperf host <COMPONENT> [ARGS]...` runs a WebAssembly component with WASI sockets.
