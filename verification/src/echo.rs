//! The stand-alone bench: a control message by which the client tells the server what to
//! do, the book-keeping of a transfer, and its report.
use crate::binary64::{fixed_text, of_nat, product, quotient, seconds_of, Binary64};
use crate::decimal::{append_dec, dec};
use crate::stats::{
    ascending, dist_of, dist_of_sorted, law_ascending_is_unique, law_dist_ignores_order, percentile,
    percentile_of, sort_samples, Dist,
};
use crate::data::direction_of;
use crate::stats::Direction;
use crate::stream_worker::load_time;
use crate::ui::{lemma_peel, lemma_shows, shows};
use vstd::arithmetic::power::pow;
use vstd::prelude::*;
use vstd::string::StringExecFns;

verus! {

// Direction codes carried in the negotiated parameters.
/// client -> server
pub const DIR_FORWARD: u8 = 0;

/// server -> client
pub const DIR_REVERSE: u8 = 1;

pub const DIR_BIDIR: u8 = 2;

/// dir(1) + secs(8) + block(8)
pub const PARAMS_LEN: usize = 17;

/// The number that bytes stand for, the least significant one first.
pub open spec fn le_value(bytes: Seq<u8>) -> nat
    decreases bytes.len(),
{
    if bytes.len() == 0 {
        0
    } else {
        bytes[0] as nat + 256 * le_value(bytes.drop_first())
    }
}

/// The lowest `n` bytes of `x`, the least significant one first.
pub open spec fn le_bytes(x: nat, n: nat) -> Seq<u8>
    decreases n,
{
    if n == 0 {
        Seq::empty()
    } else {
        seq![(x % 256) as u8] + le_bytes(x / 256, (n - 1) as nat)
    }
}

/// The control message: the direction, the seconds and the block size.
pub open spec fn params_message(dir: u8, secs: u64, block: u64) -> Seq<u8> {
    seq![dir] + le_bytes(secs as nat, 8) + le_bytes(block as nat, 8)
}

proof fn lemma_le_len(x: nat, n: nat)
    ensures
        le_bytes(x, n).len() == n,
    decreases n,
{
    if n > 0 {
        lemma_le_len(x / 256, (n - 1) as nat);
    }
}

/// 256 to the power `n`.
pub open spec fn pow256(n: nat) -> nat
    decreases n,
{
    if n == 0 {
        1
    } else {
        256 * pow256((n - 1) as nat)
    }
}

proof fn lemma_le_round_trip(x: nat, n: nat)
    requires
        x < pow256(n),
    ensures
        le_value(le_bytes(x, n)) == x,
    decreases n,
{
    if n > 0 {
        let rest = le_bytes(x / 256, (n - 1) as nat);
        lemma_le_round_trip(x / 256, (n - 1) as nat);
        assert(le_bytes(x, n).drop_first() =~= rest);
    }
}

proof fn lemma_le_back(bytes: Seq<u8>)
    ensures
        le_bytes(le_value(bytes), bytes.len()) == bytes,
        le_value(bytes) < pow256(bytes.len()),
    decreases bytes.len(),
{
    if bytes.len() > 0 {
        let rest = bytes.drop_first();
        lemma_le_back(rest);
        let v = le_value(bytes);
        assert(v % 256 == bytes[0] && v / 256 == le_value(rest));
        assert(le_bytes(v, bytes.len()) =~= seq![bytes[0]] + rest);
        assert(seq![bytes[0]] + rest =~= bytes);
    } else {
        assert(le_bytes(le_value(bytes), bytes.len()) =~= bytes);
    }
}

proof fn lemma_pow256_8()
    ensures
        pow256(8) == 0x1_0000_0000_0000_0000,
{
    reveal_with_fuel(pow256, 9);
}

fn append_le(out: &mut Vec<u8>, x: u64, n: usize)
    ensures
        final(out)@ == old(out)@ + le_bytes(x as nat, n as nat),
    decreases n,
{
    let ghost before = out@;
    if n > 0 {
        out.push((x % 256) as u8);
        append_le(out, x / 256, n - 1);
    }
    assert(out@ =~= before + le_bytes(x as nat, n as nat));
}

fn read_le(bytes: &[u8], from: usize, to: usize) -> (x: u64)
    requires
        from <= to <= bytes@.len(),
        to - from <= 8,
    ensures
        x as nat == le_value(bytes@.subrange(from as int, to as int)),
    decreases to - from,
{
    let ghost s = bytes@.subrange(from as int, to as int);
    if from == to {
        0
    } else {
        proof {
            lemma_le_back(s);
            lemma_pow256_8();
            lemma_pow256_at_most(s.len());
            assert(s.drop_first() =~= bytes@.subrange(from + 1, to as int));
        }
        bytes[from] as u64 + 256 * read_le(bytes, from + 1, to)
    }
}

proof fn lemma_pow256_at_most(n: nat)
    requires
        n <= 8,
    ensures
        pow256(n) <= pow256(8),
    decreases 8 - n,
{
    if n < 8 {
        lemma_pow256_at_most(n + 1);
    }
}

pub fn encode_params(dir: u8, secs: u64, block: u64) -> (message: Vec<u8>)
    ensures
        message@ == params_message(dir, secs, block),
        message@.len() == PARAMS_LEN,
{
    let mut v: Vec<u8> = Vec::new();
    v.push(dir);
    append_le(&mut v, secs, 8);
    append_le(&mut v, block, 8);
    proof {
        lemma_le_len(secs as nat, 8);
        lemma_le_len(block as nat, 8);
    }
    assert(v@ =~= params_message(dir, secs, block));
    v
}

/// What a control message says; nothing where it is too short. Bytes behind it are not
/// looked at.
pub open spec fn decoded(b: Seq<u8>) -> Option<(u8, u64, usize)> {
    if b.len() < PARAMS_LEN {
        None
    } else {
        Some(
            (
                b[0],
                le_value(b.subrange(1, 9)) as u64,
                (le_value(b.subrange(9, 17)) as u64) as usize,
            ),
        )
    }
}

pub fn decode_params(b: &[u8]) -> (params: Option<(u8, u64, usize)>)
    ensures
        params == decoded(b@),
{
    if b.len() < PARAMS_LEN {
        return None;
    }
    let secs: u64 = read_le(b, 1, 9);
    let block: u64 = read_le(b, 9, 17);
    Some((b[0], secs, block as usize))
}

/// Who sends and who receives, by direction and side: (sending, receiving).
pub open spec fn roles_of(dir: u8, server: bool) -> (bool, bool) {
    if dir == DIR_BIDIR {
        (true, true)
    } else if dir == DIR_REVERSE {
        (server, !server)
    } else {
        (!server, server)
    }
}

/// Map (direction, am-I-server) -> (sending, receiving).
pub fn roles(dir: u8, server: bool) -> (res: (bool, bool))
    ensures
        res == roles_of(dir, server),
{
    match dir {
        DIR_BIDIR => (true, true),
        DIR_REVERSE => (server, !server),  // server sends
        _ => (!server, server),  // forward: client sends
    }
}

/// The direction that the client asks for. Both ways wins over reverse.
pub open spec fn code_of(bidir: bool, reverse: bool) -> u8 {
    if bidir {
        DIR_BIDIR
    } else if reverse {
        DIR_REVERSE
    } else {
        DIR_FORWARD
    }
}

/// The direction that the client asks for. Both ways wins over reverse.
pub fn direction_code(bidir: bool, reverse: bool) -> (dir: u8)
    ensures
        dir == code_of(bidir, reverse),
        dir == if bidir {
            DIR_BIDIR
        } else if reverse {
            DIR_REVERSE
        } else {
            DIR_FORWARD
        },
{
    if bidir {
        DIR_BIDIR
    } else if reverse {
        DIR_REVERSE
    } else {
        DIR_FORWARD
    }
}

/// A percentile of samples in ascending order; zero where there are none.
pub fn pct(sorted: &[u64], p: u64) -> (v: u64)
    ensures
        v == if sorted@.len() == 0 {
            0
        } else {
            percentile(sorted@, p as nat)
        },
{
    if sorted.len() == 0 {
        return 0;
    }
    percentile_of(sorted, p)
}

/// What the server reads is what the client wrote, whatever stands behind the message.
pub proof fn law_params_survive_the_wire(dir: u8, secs: u64, block: u64, behind: Seq<u8>)
    requires
        block <= usize::MAX,
    ensures
        decoded(params_message(dir, secs, block) + behind) == Some((dir, secs, block as usize)),
{
    lemma_le_len(secs as nat, 8);
    lemma_le_len(block as nat, 8);
    lemma_pow256_8();
    lemma_le_round_trip(secs as nat, 8);
    lemma_le_round_trip(block as nat, 8);
    let b = params_message(dir, secs, block) + behind;
    assert(b.subrange(1, 9) =~= le_bytes(secs as nat, 8));
    assert(b.subrange(9, 17) =~= le_bytes(block as nat, 8));
}

/// A message of the right length is the one message that says what it says, where its
/// block size fits in a `usize`.
pub proof fn law_messages_are_unique(b: Seq<u8>)
    requires
        b.len() == PARAMS_LEN,
        le_value(b.subrange(9, 17)) <= usize::MAX,
    ensures
        decoded(b) matches Some(p) && params_message(p.0, p.1, p.2 as u64) == b,
{
    lemma_le_back(b.subrange(1, 9));
    lemma_le_back(b.subrange(9, 17));
    lemma_pow256_8();
    let p = decoded(b)->0;
    assert(params_message(p.0, p.1, p.2 as u64) =~= b);
}

/// One end sends exactly what the other end expects to receive, and somebody sends.
pub proof fn law_roles_match(dir: u8)
    ensures
        roles_of(dir, true).0 == roles_of(dir, false).1,
        roles_of(dir, true).1 == roles_of(dir, false).0,
        roles_of(dir, true).0 || roles_of(dir, false).0,
{
}

/// What the server is to do, as the client's control message has it.
#[derive(Debug, Clone, Copy, Eq, PartialEq, Structural)]
pub struct Negotiated {
    pub dir: u8,
    pub secs: u64,
    pub block: usize,
    pub sending: bool,
    pub receiving: bool,
}

/// What the server is to do, from the control message; nothing where that is too short.
pub open spec fn negotiated(message: Seq<u8>) -> Option<Negotiated> {
    match decoded(message) {
        Some((dir, secs, block)) => Some(
            Negotiated {
                dir,
                secs,
                block,
                sending: roles_of(dir, true).0,
                receiving: roles_of(dir, true).1,
            },
        ),
        None => None,
    }
}

/// What the server is to do, from the control message; nothing where that is too short.
pub fn negotiate(message: &[u8]) -> (res: Option<Negotiated>)
    ensures
        res == match decoded(message@) {
            Some((dir, secs, block)) => Some(
                Negotiated {
                    dir,
                    secs,
                    block,
                    sending: roles_of(dir, true).0,
                    receiving: roles_of(dir, true).1,
                },
            ),
            None => None,
        },
        res == negotiated(message@),
        res is Some <==> message@.len() >= 17,
{
    match decode_params(message) {
        Some((dir, secs, block)) => {
            let (sending, receiving) = roles(dir, true);
            Some(Negotiated { dir, secs, block, sending, receiving })
        },
        None => None,
    }
}

/// What was read of a control message after a piece of it, or after the end of the stream.
pub open spec fn after_piece(acc: Seq<u8>, piece: Option<Seq<u8>>) -> Seq<u8> {
    match piece {
        Some(bytes) => acc + bytes,
        None => acc,
    }
}

/// After a piece, or the end of the stream, there is more of a control message to read.
pub open spec fn wants_more(acc: Seq<u8>, piece: Option<Seq<u8>>, n: nat) -> bool {
    piece is Some && after_piece(acc, piece).len() < n
}

/// The bytes of a piece.
pub open spec fn bytes_of(piece: Option<&[u8]>) -> Option<Seq<u8>> {
    match piece {
        Some(bytes) => Some(bytes@),
        None => None,
    }
}

/// Takes in a piece of a control message of at least `n` bytes, or the end of the stream,
/// and says whether to read on.
pub fn on_control(acc: &mut Vec<u8>, piece: Option<&[u8]>, n: usize) -> (more: bool)
    ensures
        final(acc)@ == match piece {
            Some(bytes) => old(acc)@ + bytes@,
            None => old(acc)@,
        },
        more == (piece is Some && final(acc)@.len() < n),
        final(acc)@ == after_piece(old(acc)@, bytes_of(piece)),
        more == wants_more(old(acc)@, bytes_of(piece), n as nat),
{
    match piece {
        Some(bytes) => {
            let ghost before = acc@;
            acc.extend_from_slice(bytes);
            assert(acc@ =~= before + bytes@);
            acc.len() < n
        },
        None => false,
    }
}

/// Which transfers to run on a data connection. Two at once yield to each other after
/// every block.
#[derive(Debug, Clone, Copy, Eq, PartialEq, Structural)]
pub struct Transfers {
    pub send: bool,
    pub receive: bool,
    pub fair: bool,
}

/// The transfers of a negotiated role.
pub open spec fn transfers_of(sending: bool, receiving: bool) -> Transfers {
    Transfers { send: sending, receive: receiving, fair: sending && receiving }
}

/// The transfers of a negotiated role.
pub fn transfers(sending: bool, receiving: bool) -> (t: Transfers)
    ensures
        t == transfers_of(sending, receiving),
        t == (Transfers { send: sending, receive: receiving, fair: sending && receiving }),
{
    Transfers { send: sending, receive: receiving, fair: sending && receiving }
}

/// What to write next.
#[derive(Debug, Clone, Copy, Eq, PartialEq, Structural)]
pub enum NextBlock {
    /// A whole new block.
    Fresh,
    /// What was left over of the last one.
    Leftover,
    /// Nothing: the peer takes no more.
    Stop,
}

/// The state of the sending side.
#[verifier::ext_equal]
pub struct SendView {
    pub block: nat,
    pub secs: nat,
    /// How much the next write offers.
    pub pending: nat,
    pub total: nat,
    /// How long each write took, in nanoseconds.
    pub samples: Seq<u64>,
}

/// There is still time to send.
pub open spec fn time_is_left(s: SendView, elapsed_ns: u64) -> bool {
    elapsed_ns < s.secs * 1_000_000_000
}

/// The sending side before the first write, which offers a whole block.
pub open spec fn send_start(block: nat, secs: nat) -> SendView {
    SendView { block, secs, pending: block, total: 0, samples: Seq::empty() }
}

/// The state after a write that took `stall_ns` and left `leftover` of what it offered.
pub open spec fn after_write(s: SendView, stall_ns: u64, leftover: nat) -> SendView {
    SendView {
        total: (s.total + (s.pending - leftover)) as nat,
        pending: if leftover == 0 {
            s.block
        } else {
            leftover
        },
        samples: s.samples.push(stall_ns),
        ..s
    }
}

/// A write that left `leftover` can be counted.
pub open spec fn countable(s: SendView, leftover: nat) -> bool {
    leftover <= s.pending && s.total + (s.pending - leftover) <= u64::MAX
}

/// What to write after a write that left `leftover` of what it offered.
pub open spec fn next_block(s: SendView, leftover: nat) -> NextBlock {
    if leftover == s.pending {
        NextBlock::Stop
    } else if leftover == 0 {
        NextBlock::Fresh
    } else {
        NextBlock::Leftover
    }
}

/// The book-keeping of the sending side.
#[derive(Debug, Clone)]
pub struct SendCount {
    pub block: usize,
    pub secs: u64,
    /// How much the next write offers: a whole block, or what was left over of it.
    pub pending: usize,
    /// How much the stream has taken.
    pub total: u64,
    /// How long each write took, in nanoseconds.
    pub samples: Vec<u64>,
}

impl View for SendCount {
    type V = SendView;

    open spec fn view(&self) -> SendView {
        SendView {
            block: self.block as nat,
            secs: self.secs as nat,
            pending: self.pending as nat,
            total: self.total as nat,
            samples: self.samples@,
        }
    }
}

impl SendCount {
    pub fn new(block: usize, secs: u64) -> (count: SendCount)
        ensures
            count@ == send_start(block as nat, secs as nat),
            count.pending == block,
    {
        let count = SendCount { block, secs, pending: block, total: 0, samples: Vec::new() };
        assert(count@ =~= send_start(block as nat, secs as nat));
        count
    }

    /// Whether there is still time to send, `elapsed_ns` nanoseconds after the start.
    pub fn has_time(&self, elapsed_ns: u64) -> (b: bool)
        ensures
            b == (elapsed_ns < self.secs * 1_000_000_000),
            b == time_is_left(self@, elapsed_ns),
    {
        (elapsed_ns as u128) < self.secs as u128 * 1_000_000_000
    }

    /// Whether a write that left `leftover` bytes can be counted.
    pub fn can_count(&self, leftover: usize) -> (b: bool)
        ensures
            b == (leftover <= self.pending && self.total + (self.pending - leftover) <= u64::MAX),
            b == countable(self@, leftover as nat),
    {
        leftover <= self.pending && (self.pending - leftover) as u64 <= u64::MAX - self.total
    }

    /// Counts a write that took `stall_ns` and left `leftover` of the bytes that it offered.
    /// A write of which nothing was taken is the last one.
    pub fn on_write(&mut self, stall_ns: u64, leftover: usize) -> (next: NextBlock)
        requires
            leftover <= old(self).pending,
            old(self).total + (old(self).pending - leftover) <= u64::MAX,
        ensures
            final(self)@ == after_write(old(self)@, stall_ns, leftover as nat),
            next == next_block(old(self)@, leftover as nat),
    {
        let ghost before = self@;
        self.samples.push(stall_ns);
        let wrote: usize = self.pending - leftover;
        self.total = self.total + wrote as u64;
        self.pending = if leftover == 0 {
            self.block
        } else {
            leftover
        };
        assert(self@ =~= after_write(before, stall_ns, leftover as nat));
        if wrote == 0 {
            NextBlock::Stop
        } else if leftover == 0 {
            NextBlock::Fresh
        } else {
            NextBlock::Leftover
        }
    }
}

/// A write as the stream sees it.
pub struct Write {
    pub stall_ns: u64,
    /// How many of the bytes on offer the stream took.
    pub taken: nat,
}

/// The state after a series of writes.
pub open spec fn after_writes(s: SendView, writes: Seq<Write>) -> SendView
    decreases writes.len(),
{
    if writes.len() == 0 {
        s
    } else {
        let t = after_writes(s, writes.drop_last());
        after_write(t, writes.last().stall_ns, (t.pending - writes.last().taken) as nat)
    }
}

/// No write takes more than it offers.
pub open spec fn within_offers(s: SendView, writes: Seq<Write>) -> bool {
    forall|i: int|
        0 <= i < writes.len() ==> #[trigger] writes[i].taken <= after_writes(
            s,
            writes.take(i),
        ).pending
}

/// How many bytes the stream took in a series of writes.
pub open spec fn taken_in(writes: Seq<Write>) -> nat
    decreases writes.len(),
{
    if writes.len() == 0 {
        0
    } else {
        taken_in(writes.drop_last()) + writes.last().taken
    }
}

/// How many of a series of writes brought a block to its end.
pub open spec fn blocks_in(s: SendView, writes: Seq<Write>) -> nat
    decreases writes.len(),
{
    if writes.len() == 0 {
        0
    } else {
        blocks_in(s, writes.drop_last()) + if writes.last().taken == after_writes(
            s,
            writes.drop_last(),
        ).pending {
            1nat
        } else {
            0
        }
    }
}

/// Over any series of writes the total is the number of bytes that the stream took: those
/// of the blocks that were brought to their end, and what is gone of the block under way.
/// There is one sample for each write.
pub proof fn law_total_is_what_the_stream_took(block: nat, secs: nat, writes: Seq<Write>)
    requires
        within_offers(send_start(block, secs), writes),
    ensures
        ({
            let start = send_start(block, secs);
            let s = after_writes(start, writes);
            &&& s.total == taken_in(writes)
            &&& s.pending <= block
            &&& s.total == block * blocks_in(start, writes) + (block - s.pending)
            &&& s.samples.len() == writes.len()
            &&& s.block == block
        }),
    decreases writes.len(),
{
    let start = send_start(block, secs);
    if writes.len() > 0 {
        let rest = writes.drop_last();
        assert(writes.take(writes.len() - 1) =~= rest);
        assert forall|i: int| 0 <= i < rest.len() implies #[trigger] rest[i].taken <= after_writes(
            start,
            rest.take(i),
        ).pending by {
            assert(writes[i].taken <= after_writes(start, writes.take(i)).pending);
            assert(rest.take(i) =~= writes.take(i));
        }
        law_total_is_what_the_stream_took(block, secs, rest);
        assert(writes[writes.len() - 1].taken <= after_writes(start, rest).pending);
        let n = blocks_in(start, rest);
        assert(block * (n + 1) == block * n + block) by (nonlinear_arith);
    } else {
        assert(block * 0 == 0);
    }
}

/// Sending goes on exactly as long as the stream takes something: a stream that takes
/// nothing of what it is offered adds nothing to the total and stops it. A fresh block comes
/// exactly where all was taken, and else what was left over.
pub proof fn law_sending_stops_where_nothing_is_taken(s: SendView, stall_ns: u64, leftover: nat)
    requires
        leftover <= s.pending,
    ensures
        next_block(s, leftover) == NextBlock::Stop <==> after_write(s, stall_ns, leftover).total
            == s.total,
        next_block(s, leftover) == NextBlock::Fresh <==> leftover == 0 && s.pending > 0,
        next_block(s, leftover) == NextBlock::Leftover <==> 0 < leftover < s.pending,
{
}

/// The total after a read, or after the end of the stream.
pub open spec fn total_after(total: nat, n: Option<u64>) -> nat {
    match n {
        Some(bytes) => total + bytes as nat,
        None => total,
    }
}

/// Counts a read of `n` bytes, or the end of the stream: the new total, and whether to
/// read on.
pub fn on_read(total: u64, n: Option<u64>) -> (res: (u64, bool))
    requires
        n matches Some(bytes) ==> total + bytes <= u64::MAX,
    ensures
        res == match n {
            Some(bytes) => ((total + bytes) as u64, true),
            None => (total, false),
        },
        res.0 == total_after(total as nat, n),
        res.1 <==> n is Some,
{
    match n {
        Some(bytes) => (total + bytes, true),
        None => (total, false),
    }
}

/// Gigabits per second, with two decimal places. No time gives no number.
pub open spec fn gbits_text(total: nat, ns: nat) -> Seq<char> {
    if ns == 0 {
        if total == 0 {
            "NaN"@
        } else {
            "inf"@
        }
    } else {
        fixed_text(
            quotient(quotient(product(of_nat(total), 8), seconds_of(ns)), of_nat(1_000_000_000)),
            2,
        )
    }
}

/// The line that says how much was moved, in how long, and how fast.
pub open spec fn throughput_text(role: Seq<char>, way: Seq<char>, total: u64, ns: u64) -> Seq<char> {
    "["@ + role + way + dec(total as nat) + " bytes in "@ + fixed_text(seconds_of(ns as nat), 3)
        + "s -> "@ + gbits_text(total as nat, ns as nat) + " Gbits/sec"@
}

/// The line of percentiles of the time that writes took.
pub open spec fn stall_text(role: Seq<char>, d: Dist) -> Seq<char> {
    "["@ + role + " TX] write-stall ns: n="@ + dec(d.count as nat) + " min="@ + dec(d.min as nat)
        + " p50="@ + dec(d.p50 as nat) + " p90="@ + dec(d.p90 as nat) + " p99="@ + dec(
        d.p99 as nat,
    ) + " p100="@ + dec(d.p100 as nat) + " mean="@ + dec(d.mean as nat)
}

fn throughput_line(role: &str, way: &str, total: u64, ns: u64) -> (text: String)
    ensures
        text@ == throughput_text(role@, way@, total, ns),
{
    let mut out = String::new();
    out.append("[");
    out.append(role);
    out.append(way);
    append_dec(&mut out, total as u128);
    out.append(" bytes in ");
    let elapsed = Binary64::from_nanos(ns);
    elapsed.append_fixed(&mut out, 3);
    out.append("s -> ");
    if ns == 0 {
        out.append(if total == 0 { "NaN" } else { "inf" });
    } else {
        let rate = Binary64::from_u64(total).times(8).over(elapsed).over(
            Binary64::from_u64(1_000_000_000),
        );
        proof {
            crate::binary64::lemma_billion_exponent();
        }
        rate.append_fixed(&mut out, 2);
    }
    out.append(" Gbits/sec");
    assert(out@ =~= throughput_text(role@, way@, total, ns));
    out
}

/// The report of the sending side: how much and how fast, and the percentiles of the time
/// that writes took. It leaves the samples in ascending order.
pub fn report_tx(role: &str, total: u64, samples: &mut Vec<u64>, elapsed_ns: u64) -> (lines: (
    String,
    String,
))
    ensures
        lines.0@ == throughput_text(role@, " TX] "@, total, elapsed_ns),
        lines.1@ == stall_text(role@, dist_of(old(samples)@)),
        final(samples)@ == ascending(old(samples)@),
        final(samples)@.to_multiset() == old(samples)@.to_multiset(),
        forall|i: int, j: int|
            0 <= i < j < final(samples)@.len() ==> final(samples)@[i] <= final(samples)@[j],
{
    sort_samples(samples);
    proof {
        law_dist_ignores_order(old(samples)@, samples@);
        law_ascending_is_unique(old(samples)@, samples@);
    }
    let d: Dist = dist_of_sorted(samples);
    let mut out = String::new();
    out.append("[");
    out.append(role);
    out.append(" TX] write-stall ns: n=");
    append_dec(&mut out, d.count as u128);
    out.append(" min=");
    append_dec(&mut out, d.min as u128);
    out.append(" p50=");
    append_dec(&mut out, d.p50 as u128);
    out.append(" p90=");
    append_dec(&mut out, d.p90 as u128);
    out.append(" p99=");
    append_dec(&mut out, d.p99 as u128);
    out.append(" p100=");
    append_dec(&mut out, d.p100 as u128);
    out.append(" mean=");
    append_dec(&mut out, d.mean as u128);
    assert(out@ =~= stall_text(role@, dist_of(old(samples)@)));
    (throughput_line(role, " TX] ", total, elapsed_ns), out)
}

/// The report of the receiving side: how much and how fast.
pub fn report_rx(role: &str, total: u64, elapsed_ns: u64) -> (line: String)
    ensures
        line@ == throughput_text(role@, " RX] "@, total, elapsed_ns),
{
    throughput_line(role, " RX] ", total, elapsed_ns)
}

/// `true` or `false`.
pub open spec fn bool_text(b: bool) -> Seq<char> {
    if b {
        "true"@
    } else {
        "false"@
    }
}

/// Who sends and receives, as it stands at the end of a line.
pub open spec fn roles_text(sending: bool, receiving: bool) -> Seq<char> {
    " (tx="@ + bool_text(sending) + " rx="@ + bool_text(receiving) + ")"@
}

fn append_roles(out: &mut String, sending: bool, receiving: bool)
    ensures
        final(out)@ == old(out)@ + roles_text(sending, receiving),
{
    let ghost before = out@;
    out.append(" (tx=");
    out.append(if sending { "true" } else { "false" });
    out.append(" rx=");
    out.append(if receiving { "true" } else { "false" });
    out.append(")");
    assert(out@ =~= before + roles_text(sending, receiving));
}

/// What the server says when it listens.
pub fn listening_line(port: u16) -> (text: String)
    ensures
        text@ == "[p3perf] server listening on :"@ + dec(port as nat),
{
    let mut out = String::new();
    out.append("[p3perf] server listening on :");
    append_dec(&mut out, port as u128);
    out
}

/// What the server says when it knows what to do.
pub open spec fn negotiated_text(n: Negotiated) -> Seq<char> {
    "[p3perf] negotiated: dir="@ + dec(n.dir as nat) + " secs="@ + dec(n.secs as nat) + " block="@
        + dec(n.block as nat) + roles_text(n.sending, n.receiving)
}

/// What the client says when it is connected.
pub open spec fn client_text(host: Seq<char>, port: u16, dir: u8) -> Seq<char> {
    "[p3perf] client "@ + host + ":"@ + dec(port as nat) + " dir="@ + dec(dir as nat) + roles_text(
        roles_of(dir, false).0,
        roles_of(dir, false).1,
    )
}

/// What the server says when it knows what to do.
pub fn negotiated_line(n: &Negotiated) -> (text: String)
    ensures
        text@ == "[p3perf] negotiated: dir="@ + dec(n.dir as nat) + " secs="@ + dec(n.secs as nat)
            + " block="@ + dec(n.block as nat) + roles_text(n.sending, n.receiving),
        text@ == negotiated_text(*n),
{
    let mut out = String::new();
    out.append("[p3perf] negotiated: dir=");
    append_dec(&mut out, n.dir as u128);
    out.append(" secs=");
    append_dec(&mut out, n.secs as u128);
    out.append(" block=");
    append_dec(&mut out, n.block as u128);
    append_roles(&mut out, n.sending, n.receiving);
    out
}

/// What the client says when it is connected.
pub fn client_line(host: &str, port: u16, dir: u8) -> (text: String)
    ensures
        text@ == "[p3perf] client "@ + host@ + ":"@ + dec(port as nat) + " dir="@ + dec(dir as nat)
            + roles_text(roles_of(dir, false).0, roles_of(dir, false).1),
        text@ == client_text(host@, port, dir),
{
    let (sending, receiving) = roles(dir, false);
    let mut out = String::new();
    out.append("[p3perf] client ");
    out.append(host);
    out.append(":");
    append_dec(&mut out, port as u128);
    out.append(" dir=");
    append_dec(&mut out, dir as u128);
    append_roles(&mut out, sending, receiving);
    out
}

/// Server and client agree on a test that was negotiated over the wire: the server learns
/// the duration and the block size that the client asked for, and sends exactly where the
/// client receives.
pub proof fn law_negotiation_agrees(dir: u8, secs: u64, block: u64)
    requires
        block <= usize::MAX,
    ensures
        decoded(params_message(dir, secs, block)) matches Some(p) && {
            &&& p.1 == secs
            &&& p.2 == block
            &&& roles_of(p.0, true).0 == roles_of(dir, false).1
            &&& roles_of(p.0, true).1 == roles_of(dir, false).0
        },
{
    law_params_survive_the_wire(dir, secs, block, Seq::empty());
    assert(params_message(dir, secs, block) + Seq::<u8>::empty() =~= params_message(
        dir,
        secs,
        block,
    ));
}

proof fn lemma_le_byte(x: nat, n: nat, i: nat)
    requires
        i < n,
    ensures
        le_bytes(x, n).len() == n,
        le_bytes(x, n)[i as int] == (x as int / pow(256, i)) % 256,
    decreases n,
{
    lemma_le_len(x, n);
    vstd::arithmetic::power::lemma_pow0(256);
    if i > 0 {
        lemma_le_byte(x / 256, (n - 1) as nat, (i - 1) as nat);
        assert(le_bytes(x, n)[i as int] == le_bytes(x / 256, (n - 1) as nat)[i - 1]);
        vstd::arithmetic::power::lemma_pow_positive(256, (i - 1) as nat);
        vstd::arithmetic::div_mod::lemma_div_denominator(x as int, 256, pow(256, (i - 1) as nat));
        reveal(pow);
        assert(pow(256, i) == 256 * pow(256, (i - 1) as nat));
    } else {
        assert(x as int / 1 == x);
    }
}

/// A control message has 17 bytes: the direction, then the seconds and then the block size,
/// each with its least significant byte first.
pub proof fn law_message_layout(dir: u8, secs: u64, block: u64)
    ensures
        ({
            let message = params_message(dir, secs, block);
            &&& message.len() == 17
            &&& message[0] == dir
            &&& forall|i: nat|
                i < 8 ==> #[trigger] message[1 + i as int] == (secs as int / pow(256, i)) % 256
            &&& forall|i: nat|
                i < 8 ==> #[trigger] message[9 + i as int] == (block as int / pow(256, i)) % 256
        }),
{
    lemma_le_len(secs as nat, 8);
    lemma_le_len(block as nat, 8);
    let message = params_message(dir, secs, block);
    assert forall|i: nat| i < 8 implies #[trigger] message[1 + i as int] == (secs as int / pow(
        256,
        i,
    )) % 256 by {
        lemma_le_byte(secs as nat, 8, i);
    }
    assert forall|i: nat| i < 8 implies #[trigger] message[9 + i as int] == (block as int / pow(
        256,
        i,
    )) % 256 by {
        lemma_le_byte(block as nat, 8, i);
    }
}

/// A message says something exactly where it has 17 bytes or more, and what stands behind
/// those changes nothing.
pub proof fn law_message_is_its_first_bytes(message: Seq<u8>)
    ensures
        negotiated(message) is Some <==> message.len() >= 17,
        message.len() >= 17 ==> negotiated(message) == negotiated(message.take(17)),
{
    if message.len() >= 17 {
        let head = message.take(17);
        assert(head.subrange(1, 9) =~= message.subrange(1, 9));
        assert(head.subrange(9, 17) =~= message.subrange(9, 17));
    }
}

/// Who sends: the server where the direction is 1 or 2, the client where it is anything but
/// 1. Each end receives where the other sends.
pub proof fn law_who_sends(dir: u8)
    ensures
        roles_of(dir, true).0 <==> dir == 1 || dir == 2,
        roles_of(dir, false).0 <==> dir != 1,
        roles_of(dir, true).1 <==> dir != 1,
        roles_of(dir, false).1 <==> dir == 1 || dir == 2,
{
}

/// What the client asks for is what is run, over the wire: the server sends exactly where
/// reverse or both ways was asked for, the client exactly where both ways or not reverse was,
/// for the seconds and in the blocks that were asked for, and the two yield to each other
/// exactly where both ways was.
pub proof fn law_what_is_asked_for_is_run(bidir: bool, reverse: bool, secs: u64, block: u64)
    requires
        block <= usize::MAX,
    ensures
        ({
            let dir = code_of(bidir, reverse);
            let (client_sends, client_receives) = roles_of(dir, false);
            &&& client_sends <==> bidir || !reverse
            &&& client_receives <==> bidir || reverse
            &&& transfers_of(client_sends, client_receives).send == client_sends
            &&& transfers_of(client_sends, client_receives).receive == client_receives
            &&& transfers_of(client_sends, client_receives).fair <==> bidir
            &&& negotiated(params_message(dir, secs, block)) matches Some(n) && {
                &&& n.dir == dir
                &&& n.secs == secs
                &&& n.block == block
                &&& n.sending <==> bidir || reverse
                &&& n.receiving <==> bidir || !reverse
                &&& transfers_of(n.sending, n.receiving).send == n.sending
                &&& transfers_of(n.sending, n.receiving).receive == n.receiving
                &&& transfers_of(n.sending, n.receiving).fair <==> bidir
            }
        }),
{
    let dir = code_of(bidir, reverse);
    law_params_survive_the_wire(dir, secs, block, Seq::empty());
    assert(params_message(dir, secs, block) + Seq::<u8>::empty() =~= params_message(
        dir,
        secs,
        block,
    ));
}

/// The bench and a test of streams take the same wishes for the same direction.
pub proof fn law_directions_agree(bidir: bool, reverse: bool)
    ensures
        ({
            let direction = direction_of(bidir, reverse);
            let dir = code_of(bidir, reverse);
            &&& direction == Direction::Bidirectional <==> roles_of(dir, true).0 && roles_of(
                dir,
                false,
            ).0
            &&& direction == Direction::ServerToClient <==> !roles_of(dir, false).0
            &&& direction == Direction::ClientToServer <==> !roles_of(dir, true).0
        }),
{
}

/// What was read of a message after a series of pieces.
pub open spec fn after_pieces(pieces: Seq<Seq<u8>>) -> Seq<u8>
    decreases pieces.len(),
{
    if pieces.len() == 0 {
        Seq::empty()
    } else {
        after_piece(after_pieces(pieces.drop_last()), Some(pieces.last()))
    }
}

/// However a message is cut into pieces, it is put together again from them.
pub proof fn law_pieces_make_the_message(pieces: Seq<Seq<u8>>)
    ensures
        after_pieces(pieces) == pieces.flatten(),
    decreases pieces.len(),
{
    pieces.lemma_flatten_and_flatten_alt_are_equivalent();
    if pieces.len() > 0 {
        let rest = pieces.drop_last();
        law_pieces_make_the_message(rest);
        rest.lemma_flatten_and_flatten_alt_are_equivalent();
    } else {
        assert(pieces.flatten() =~= Seq::empty());
    }
}

/// Reading a message goes on exactly as long as the stream has not ended and fewer bytes
/// than asked for were read, the piece at hand among them. The end of the stream adds
/// nothing.
pub proof fn law_message_is_read_until_complete(acc: Seq<u8>, piece: Seq<u8>, n: nat)
    ensures
        wants_more(acc, Some(piece), n) <==> acc.len() + piece.len() < n,
        !wants_more(acc, None, n),
        after_piece(acc, None) == acc,
{
}

/// The total after a series of reads.
pub open spec fn total_after_all(reads: Seq<u64>) -> nat
    decreases reads.len(),
{
    if reads.len() == 0 {
        0
    } else {
        total_after(total_after_all(reads.drop_last()), Some(reads.last()))
    }
}

/// The total of a series of reads is the sum of all of them, and the end of the stream adds
/// nothing.
pub proof fn law_reads_add_up(reads: Seq<u64>)
    ensures
        total_after_all(reads) == reads.fold_left(0int, |sum: int, n: u64| sum + n),
        total_after(total_after_all(reads), None) == total_after_all(reads),
    decreases reads.len(),
{
    if reads.len() > 0 {
        law_reads_add_up(reads.drop_last());
    }
}

/// There is time to send exactly as long as a load of as many seconds lasts, whatever was
/// sent.
pub proof fn law_sending_lasts_as_asked(s: SendView, elapsed_ns: u64)
    ensures
        time_is_left(s, elapsed_ns) <==> elapsed_ns < load_time(s.secs),
{
}

/// The line of a transfer shows the end and the way, the bytes, the seconds to three places
/// and the rate; what it says of sending and of receiving differs only in the way.
pub proof fn law_transfer_line_shows_its_figures(
    role: Seq<char>,
    way: Seq<char>,
    total: u64,
    ns: u64,
)
    ensures
        ({
            let text = throughput_text(role, way, total, ns);
            &&& shows(text, "["@, role, way + dec(total as nat))
            &&& shows(text, way, dec(total as nat), " bytes in "@)
            &&& shows(text, " bytes in "@, fixed_text(seconds_of(ns as nat), 3), "s -> "@)
            &&& shows(text, "s -> "@, gbits_text(total as nat, ns as nat), " Gbits/sec"@)
        }),
{
    let text = throughput_text(role, way, total, ns);
    let none = Seq::<char>::empty();
    let bytes = dec(total as nat);
    let secs = fixed_text(seconds_of(ns as nat), 3);
    let rate = gbits_text(total as nat, ns as nat);
    let a1 = "["@ + role + way + bytes;
    let a2 = a1 + " bytes in "@ + secs;
    let b2 = rate + " Gbits/sec"@;
    let b1 = secs + "s -> "@ + b2;
    lemma_shows(text, a2, "s -> "@, rate, " Gbits/sec"@, none);
    assert(text =~= a2 + "s -> "@ + b2);
    lemma_peel(text, a1, " bytes in "@, secs, "s -> "@, b2);
    lemma_peel(text, "["@ + role, way, bytes, " bytes in "@, b1);
    lemma_shows(text, none, "["@, role, way + bytes, " bytes in "@ + b1);
}

/// The line of write stalls shows each figure behind its name.
pub proof fn law_stall_line_shows_each_figure(role: Seq<char>, d: Dist)
    ensures
        ({
            let text = stall_text(role, d);
            let none = Seq::<char>::empty();
            &&& shows(text, "["@, role, " TX] write-stall ns: n="@)
            &&& shows(text, " TX] write-stall ns: n="@, dec(d.count as nat), " min="@)
            &&& shows(text, " min="@, dec(d.min as nat), " p50="@)
            &&& shows(text, " p50="@, dec(d.p50 as nat), " p90="@)
            &&& shows(text, " p90="@, dec(d.p90 as nat), " p99="@)
            &&& shows(text, " p99="@, dec(d.p99 as nat), " p100="@)
            &&& shows(text, " p100="@, dec(d.p100 as nat), " mean="@)
            &&& shows(text, " mean="@, dec(d.mean as nat), none)
        }),
{
    let text = stall_text(role, d);
    let none = Seq::<char>::empty();
    let count = dec(d.count as nat);
    let min = dec(d.min as nat);
    let p50 = dec(d.p50 as nat);
    let p90 = dec(d.p90 as nat);
    let p99 = dec(d.p99 as nat);
    let p100 = dec(d.p100 as nat);
    let mean = dec(d.mean as nat);
    let a0 = "["@ + role;
    let a1 = a0 + " TX] write-stall ns: n="@ + count;
    let a2 = a1 + " min="@ + min;
    let a3 = a2 + " p50="@ + p50;
    let a4 = a3 + " p90="@ + p90;
    let a5 = a4 + " p99="@ + p99;
    let a6 = a5 + " p100="@ + p100;
    let b6 = p100 + " mean="@ + mean;
    let b5 = p99 + " p100="@ + b6;
    let b4 = p90 + " p99="@ + b5;
    let b3 = p50 + " p90="@ + b4;
    let b2 = min + " p50="@ + b3;
    let b1 = count + " min="@ + b2;
    lemma_peel(text, a5, " p100="@, p100, " mean="@, mean);
    lemma_peel(text, a4, " p99="@, p99, " p100="@, b6);
    lemma_peel(text, a3, " p90="@, p90, " p99="@, b5);
    lemma_peel(text, a2, " p50="@, p50, " p90="@, b4);
    lemma_peel(text, a1, " min="@, min, " p50="@, b3);
    lemma_peel(text, a0, " TX] write-stall ns: n="@, count, " min="@, b2);
    assert(none + "["@ + role =~= "["@ + role);
    lemma_peel(text, none, "["@, role, " TX] write-stall ns: n="@, b1);
    lemma_shows(text, a6, " mean="@, mean, none, none);
}

/// Every write adds the time that it took to the samples, behind those before it, and leaves
/// the block size and the seconds as they are. It can be counted exactly where it left no
/// more than it offered and the total after it is a number of 64 bits.
pub proof fn law_write_is_a_sample(s: SendView, stall_ns: u64, leftover: nat)
    ensures
        ({
            let t = after_write(s, stall_ns, leftover);
            &&& t.samples.len() == s.samples.len() + 1
            &&& t.samples.last() == stall_ns
            &&& t.samples.drop_last() == s.samples
            &&& t.block == s.block && t.secs == s.secs
            &&& countable(s, leftover) <==> leftover <= s.pending && t.total <= u64::MAX
            &&& leftover <= s.pending ==> t.total - s.total == s.pending - leftover
            &&& leftover > 0 ==> t.pending == leftover
            &&& leftover == 0 ==> t.pending == s.block
        }),
{
    assert(after_write(s, stall_ns, leftover).samples.drop_last() =~= s.samples);
}

/// A first write offers a whole block, and nothing is counted before it.
pub proof fn law_sending_starts_empty(block: nat, secs: nat)
    ensures
        ({
            let s = send_start(block, secs);
            &&& s.block == block && s.secs == secs && s.pending == block
            &&& s.total == 0 && s.samples.len() == 0
        }),
{
}

/// `yes` is shown as `true`, and else as `false`.
pub open spec fn shows_flag(text: Seq<char>, label: Seq<char>, yes: bool, behind: Seq<char>) -> bool {
    (yes ==> shows(text, label, "true"@, behind)) && (!yes ==> shows(
        text,
        label,
        "false"@,
        behind,
    ))
}

proof fn lemma_flags(head: Seq<char>, sending: bool, receiving: bool)
    ensures
        ({
            let text = head + roles_text(sending, receiving);
            &&& shows_flag(text, " (tx="@, sending, " rx="@)
            &&& shows_flag(text, " rx="@, receiving, ")"@)
        }),
{
    let text = head + roles_text(sending, receiving);
    let none = Seq::<char>::empty();
    let tx = bool_text(sending);
    let rx = bool_text(receiving);
    lemma_shows(text, head, " (tx="@, tx, " rx="@, rx + ")"@);
    lemma_shows(text, head + " (tx="@ + tx, " rx="@, rx, ")"@, none);
}

/// What the server says shows what it learned: the direction, the seconds, the block size,
/// and whether it sends and receives.
pub proof fn law_negotiated_line_shows_the_test(n: Negotiated)
    ensures
        ({
            let text = negotiated_text(n);
            &&& shows(text, " dir="@, dec(n.dir as nat), " secs="@)
            &&& shows(text, " secs="@, dec(n.secs as nat), " block="@)
            &&& shows(text, " block="@, dec(n.block as nat), Seq::empty())
            &&& shows_flag(text, " (tx="@, n.sending, " rx="@)
            &&& shows_flag(text, " rx="@, n.receiving, ")"@)
        }),
{
    reveal_strlit("[p3perf] negotiated: dir=");
    reveal_strlit("[p3perf] negotiated:");
    reveal_strlit(" dir=");
    let text = negotiated_text(n);
    let head = "[p3perf] negotiated:"@;
    let dir = dec(n.dir as nat);
    let secs = dec(n.secs as nat);
    let block = dec(n.block as nat);
    let tail = roles_text(n.sending, n.receiving);
    assert("[p3perf] negotiated: dir="@ =~= head + " dir="@);
    let a1 = head + " dir="@ + dir;
    let a2 = a1 + " secs="@ + secs;
    lemma_shows(text, a2, " block="@, block, Seq::empty(), tail);
    lemma_flags(a2 + " block="@ + block, n.sending, n.receiving);
    assert(text =~= a2 + " block="@ + (block + tail));
    lemma_peel(text, a1, " secs="@, secs, " block="@, block + tail);
    lemma_peel(text, head, " dir="@, dir, " secs="@, secs + " block="@ + (block + tail));
}

/// What the client says shows where it is connected, the direction, and whether it sends and
/// receives: it sends unless the direction is 1, and receives where it is 1 or 2.
pub proof fn law_client_line_shows_the_test(host: Seq<char>, port: u16, dir: u8)
    ensures
        ({
            let text = client_text(host, port, dir);
            &&& shows(text, "[p3perf] client "@, host, ":"@)
            &&& shows(text, ":"@, dec(port as nat), " dir="@)
            &&& shows(text, " dir="@, dec(dir as nat), Seq::empty())
            &&& shows_flag(text, " (tx="@, dir != 1, " rx="@)
            &&& shows_flag(text, " rx="@, dir == 1 || dir == 2, ")"@)
        }),
{
    let text = client_text(host, port, dir);
    let none = Seq::<char>::empty();
    let head = "[p3perf] client "@;
    let at = dec(port as nat);
    let code = dec(dir as nat);
    let tail = roles_text(roles_of(dir, false).0, roles_of(dir, false).1);
    let a1 = head + host;
    let a2 = a1 + ":"@ + at;
    lemma_shows(text, a2, " dir="@, code, none, tail);
    lemma_flags(a2 + " dir="@ + code, roles_of(dir, false).0, roles_of(dir, false).1);
    assert(text =~= a2 + " dir="@ + (code + tail));
    lemma_peel(text, a1, ":"@, at, " dir="@, code + tail);
    assert(none + head + host =~= head + host);
    lemma_peel(text, none, head, host, ":"@, at + " dir="@ + (code + tail));
}

} // verus!
