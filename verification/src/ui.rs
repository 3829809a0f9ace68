//! Text of the reports: interval lines, the summary table and the latency table.
use crate::binary64::{
    below, fixed_text, of_nat, product, quotient, shortest_text, Binary64, Dyadic,
};
use crate::decimal::{append_dec, append_right_aligned, dec, right_aligned};
use colored::Colorize;
use vstd::prelude::*;
use vstd::string::StringExecFns;

verus! {

// Bytes
pub const KBYTES: u64 = 1024;

pub const MBYTES: u64 = 1_048_576;

pub const GBYTES: u64 = 1_073_741_824;

pub const TBYTES: u64 = 1_099_511_627_776;

// Bitrates
pub const KBITS: u64 = 1_000;

pub const MBITS: u64 = 1_000_000;

pub const GBITS: u64 = 1_000_000_000;

pub const TBITS: u64 = 1_000_000_000_000;

/// `n / d` in binary64 precision, with two decimal places.
pub open spec fn ratio_text(n: nat, d: nat) -> Seq<char> {
    fixed_text(quotient(of_nat(n), of_nat(d)), 2)
}

/// A number of bytes in the greatest unit of which there is at least one.
pub open spec fn bytes_text(bytes: nat) -> Seq<char> {
    if bytes < KBYTES {
        dec(bytes) + " B"@
    } else if bytes < MBYTES {
        ratio_text(bytes, KBYTES as nat) + " KiB"@
    } else if bytes < GBYTES {
        ratio_text(bytes, MBYTES as nat) + " MiB"@
    } else if bytes < TBYTES {
        ratio_text(bytes, GBYTES as nat) + " GiB"@
    } else {
        ratio_text(bytes, TBYTES as nat) + " TiB"@
    }
}

/// Bits per second, in binary64 precision.
pub open spec fn bit_rate(bytes: nat, duration_millis: nat) -> Dyadic {
    product(quotient(of_nat(bytes * 8), of_nat(duration_millis)), 1000)
}

/// How many bits the unit of a rate stands for. It goes by the number of bytes.
pub open spec fn rate_unit(bytes: nat) -> nat {
    if bytes < MBITS {
        KBITS as nat
    } else if bytes < GBITS {
        MBITS as nat
    } else if bytes < TBITS {
        GBITS as nat
    } else {
        TBITS as nat
    }
}

/// The name of the unit of a rate.
pub open spec fn rate_unit_name(bytes: nat) -> Seq<char> {
    if bytes < MBITS {
        " Kbits/sec"@
    } else if bytes < GBITS {
        " Mbits/sec"@
    } else if bytes < TBITS {
        " Gbits/sec"@
    } else {
        " Tbits/sec"@
    }
}

/// The rate of `bytes` over a duration. Under 1000 bits per second it is written with
/// the fewest digits that tell it apart. A duration of zero gives no number.
pub open spec fn bitrate_text(bytes: nat, duration_millis: nat) -> Seq<char> {
    if duration_millis == 0 {
        (if bytes == 0 {
            "NaN"@
        } else {
            "inf"@
        }) + rate_unit_name(bytes)
    } else {
        let rate = bit_rate(bytes, duration_millis);
        if below(rate, KBITS as nat) {
            shortest_text(rate) + " Bits/sec"@
        } else {
            fixed_text(quotient(rate, of_nat(rate_unit(bytes))), 2) + rate_unit_name(bytes)
        }
    }
}

/// A time in the greatest unit of which there is at least one.
pub open spec fn ns_text(ns: nat) -> Seq<char> {
    if ns < 1_000 {
        dec(ns) + " ns"@
    } else if ns < 1_000_000 {
        ratio_text(ns, 1_000) + " µs"@
    } else if ns < 1_000_000_000 {
        ratio_text(ns, 1_000_000) + " ms"@
    } else {
        ratio_text(ns, 1_000_000_000) + " s"@
    }
}

/// A bit rate in the greatest unit, up to gigabits, of which there is at least one.
pub open spec fn bps_text(bps: nat) -> Seq<char> {
    if bps < 1_000 {
        dec(bps) + " bits/sec"@
    } else if bps < 1_000_000 {
        ratio_text(bps, 1_000) + " Kbits/sec"@
    } else if bps < 1_000_000_000 {
        ratio_text(bps, 1_000_000) + " Mbits/sec"@
    } else {
        ratio_text(bps, 1_000_000_000) + " Gbits/sec"@
    }
}

fn append_ratio(out: &mut String, n: u64, d: u64)
    requires
        d > 0,
    ensures
        final(out)@ == old(out)@ + ratio_text(n as nat, d as nat),
{
    Binary64::from_u64(n).over(Binary64::from_u64(d)).append_fixed(out, 2);
}

fn ratio_with_unit(n: u64, d: u64, unit: &str) -> (text: String)
    requires
        d > 0,
    ensures
        text@ == ratio_text(n as nat, d as nat) + unit@,
{
    let mut out = String::new();
    append_ratio(&mut out, n, d);
    out.append(unit);
    out
}

fn number_with_unit(n: u64, unit: &str) -> (text: String)
    ensures
        text@ == dec(n as nat) + unit@,
{
    let mut out = String::new();
    append_dec(&mut out, n as u128);
    out.append(unit);
    out
}

pub fn humanize_bytes(bytes: u64) -> (text: String)
    ensures
        text@ == bytes_text(bytes as nat),
{
    if bytes < KBYTES {
        number_with_unit(bytes, " B")
    } else if bytes < MBYTES {
        ratio_with_unit(bytes, KBYTES, " KiB")
    } else if bytes < GBYTES {
        ratio_with_unit(bytes, MBYTES, " MiB")
    } else if bytes < TBYTES {
        ratio_with_unit(bytes, GBYTES, " GiB")
    } else {
        ratio_with_unit(bytes, TBYTES, " TiB")
    }
}

pub fn humanize_bitrate(bytes: u64, duration_millis: u64) -> (text: String)
    requires
        bytes * 8 <= u64::MAX,
    ensures
        text@ == bitrate_text(bytes as nat, duration_millis as nat),
{
    let unit: u64 = if bytes < MBITS {
        KBITS
    } else if bytes < GBITS {
        MBITS
    } else if bytes < TBITS {
        GBITS
    } else {
        TBITS
    };
    let unit_name: &str = if bytes < MBITS {
        " Kbits/sec"
    } else if bytes < GBITS {
        " Mbits/sec"
    } else if bytes < TBITS {
        " Gbits/sec"
    } else {
        " Tbits/sec"
    };
    let mut out = String::new();
    if duration_millis == 0 {
        out.append(if bytes == 0 { "NaN" } else { "inf" });
        out.append(unit_name);
        return out;
    }
    let rate = Binary64::from_u64(bytes * 8).over(Binary64::from_u64(duration_millis)).times(1000);
    if rate.is_below(KBITS) {
        proof {
            rate.lemma_below_is_fraction(KBITS);
        }
        rate.append_shortest(&mut out);
        out.append(" Bits/sec");
    } else {
        rate.over(Binary64::from_u64(unit)).append_fixed(&mut out, 2);
        out.append(unit_name);
    }
    out
}

pub fn humanize_ns(ns: u64) -> (text: String)
    ensures
        text@ == ns_text(ns as nat),
{
    if ns < 1_000 {
        number_with_unit(ns, " ns")
    } else if ns < 1_000_000 {
        ratio_with_unit(ns, 1_000, " µs")
    } else if ns < 1_000_000_000 {
        ratio_with_unit(ns, 1_000_000, " ms")
    } else {
        ratio_with_unit(ns, 1_000_000_000, " s")
    }
}

pub fn humanize_bps(bps: u64) -> (text: String)
    ensures
        text@ == bps_text(bps as nat),
{
    if bps < 1_000 {
        number_with_unit(bps, " bits/sec")
    } else if bps < 1_000_000 {
        ratio_with_unit(bps, 1_000, " Kbits/sec")
    } else if bps < 1_000_000_000 {
        ratio_with_unit(bps, 1_000_000, " Mbits/sec")
    } else {
        ratio_with_unit(bps, 1_000_000_000, " Gbits/sec")
    }
}

/// One line of a table: what one stream, or all of them, moved in an interval.
#[derive(Debug, Clone, Copy, Eq, PartialEq, Structural)]
pub struct StatsRow {
    /// The stream, or nothing for a sum over streams.
    pub id: Option<usize>,
    pub offset_millis: u64,
    pub duration_millis: u64,
    pub bytes_transferred: u64,
    pub sender: bool,
}

impl StatsRow {
    /// The end of the interval and the number of bits are numbers of 64 bits.
    pub open spec fn fits(self) -> bool {
        &&& self.offset_millis + self.duration_millis <= u64::MAX
        &&& self.bytes_transferred * 8 <= u64::MAX
    }

    /// Whether the end of the interval and the number of bits are numbers of 64 bits.
    pub fn check_fits(&self) -> (b: bool)
        ensures
            b == self.fits(),
    {
        self.duration_millis <= u64::MAX - self.offset_millis && self.bytes_transferred <= u64::MAX
            / 8
    }
}

/// The column that names the stream.
pub open spec fn id_text(id: Option<usize>) -> Seq<char> {
    match id {
        Some(n) => dec(n as nat),
        None => "SUM"@,
    }
}

/// A line of a table, `role` standing in its last column.
pub open spec fn row_text(row: StatsRow, role: Seq<char>) -> Seq<char> {
    "["@ + right_aligned(id_text(row.id), 3) + "]   "@ + ratio_text(row.offset_millis as nat, 1000)
        + ".."@ + ratio_text((row.offset_millis + row.duration_millis) as nat, 1000) + " sec  "@
        + bytes_text(row.bytes_transferred as nat) + "   "@ + bitrate_text(
        row.bytes_transferred as nat,
        row.duration_millis as nat,
    ) + "        "@ + role
}

/// The line of `row` with `role` in its last column.
pub fn stats_line_as(row: &StatsRow, role: &str) -> (text: String)
    requires
        row.fits(),
    ensures
        text@ == row_text(*row, role@),
{
    let mut id = String::new();
    match row.id {
        Some(n) => append_dec(&mut id, n as u128),
        None => id.append("SUM"),
    }
    let mut out = String::new();
    out.append("[");
    append_right_aligned(&mut out, id.as_str(), 3);
    out.append("]   ");
    append_ratio(&mut out, row.offset_millis, 1000);
    out.append("..");
    append_ratio(&mut out, row.offset_millis + row.duration_millis, 1000);
    out.append(" sec  ");
    out.append(humanize_bytes(row.bytes_transferred).as_str());
    out.append("   ");
    out.append(humanize_bitrate(row.bytes_transferred, row.duration_millis).as_str());
    out.append("        ");
    out.append(role);
    assert(out@ =~= row_text(*row, role@));
    out
}

/// The sequence that sets a style on a terminal, by the number of the style.
pub open spec fn style_start(code: Seq<char>) -> Seq<char> {
    "\x1B["@ + code + "m"@
}

/// `out` is `text` as it stands, or `text` between the sequence that sets the style and
/// the one that ends it. The first sequence is missing where styles are switched off
/// while the text is written.
pub open spec fn styled(text: Seq<char>, code: Seq<char>, out: Seq<char>) -> bool {
    ||| out == text
    ||| out == text + "\x1B[0m"@
    ||| out == style_start(code) + text + "\x1B[0m"@
}

/// The text holds no control sequence.
pub open spec fn is_plain(text: Seq<char>) -> bool {
    forall|i: int| 0 <= i < text.len() ==> text[i] != '\x1B'
}

/// Calls `Colorize::yellow` of the crate `colored` and writes the result out. The text
/// comes back in yellow, or unchanged where the terminal or the environment has colours
/// switched off. Which of the two depends on them, and is left open.
#[verifier::external_body]
fn yellow(text: &str) -> (out: String)
    requires
        is_plain(text@),
    ensures
        styled(text@, "33"@, out@),
{
    text.yellow().to_string()
}

/// Calls `Colorize::magenta` of the crate `colored` and writes the result out: as
/// [`yellow`], in magenta.
#[verifier::external_body]
fn magenta(text: &str) -> (out: String)
    requires
        is_plain(text@),
    ensures
        styled(text@, "35"@, out@),
{
    text.magenta().to_string()
}

/// Calls `Colorize::cyan` of the crate `colored` and writes the result out: as
/// [`yellow`], in cyan.
#[verifier::external_body]
fn cyan(text: &str) -> (out: String)
    requires
        is_plain(text@),
    ensures
        styled(text@, "36"@, out@),
{
    text.cyan().to_string()
}

/// Calls `Colorize::bold` of the crate `colored` and writes the result out: as
/// [`yellow`], in bold.
#[verifier::external_body]
fn bold(text: &str) -> (out: String)
    requires
        is_plain(text@),
    ensures
        styled(text@, "1"@, out@),
{
    text.bold().to_string()
}

/// What stands in the last column of a line, with or without its colour.
pub open spec fn is_role(sender: bool, role: Seq<char>) -> bool {
    if sender {
        styled("sender"@, "33"@, role)
    } else {
        styled("receiver"@, "35"@, role)
    }
}

/// What stands in the last column of a line, in its colour.
pub fn role_label(sender: bool) -> (role: String)
    ensures
        is_role(sender, role@),
{
    proof {
        reveal_strlit("sender");
        reveal_strlit("receiver");
    }
    if sender {
        yellow("sender")
    } else {
        magenta("receiver")
    }
}

/// The line of `row`, the last column in its colour.
pub fn stats_line(row: &StatsRow) -> (text: String)
    requires
        row.fits(),
    ensures
        exists|role: Seq<char>| #[trigger]
            is_role(row.sender, role) && text@ == row_text(*row, role),
{
    let role: String = role_label(row.sender);
    stats_line_as(row, role.as_str())
}

/// The heading of the interval lines.
pub fn header_line() -> (text: String)
    ensures
        text@ == "[ ID]   Interval          Transfer      Bitrate"@,
{
    "[ ID]   Interval          Transfer      Bitrate".to_owned()
}

/// What a server says when it listens: `label` stands for the words in front of the port.
pub open spec fn banner_lines(label: Seq<char>, port: u16) -> Seq<Seq<char>> {
    seq![
        "--------------------------------------"@,
        label + " "@ + dec(port as nat),
        "--------------------------------------"@,
    ]
}

/// The texts of a list of lines.
pub open spec fn texts(lines: Seq<String>) -> Seq<Seq<char>> {
    lines.map_values(|line: String| line@)
}

/// What a server says when it listens, `label` standing in front of the port.
pub fn server_banner_as(label: &str, port: u16) -> (lines: Vec<String>)
    ensures
        texts(lines@) == banner_lines(label@, port),
{
    let mut line = String::new();
    line.append(label);
    line.append(" ");
    append_dec(&mut line, port as u128);
    assert(line@ =~= label@ + " "@ + dec(port as nat));
    let mut lines: Vec<String> = Vec::new();
    lines.push("--------------------------------------".to_owned());
    lines.push(line);
    lines.push("--------------------------------------".to_owned());
    assert(texts(lines@) =~= banner_lines(label@, port));
    lines
}

/// What a server says when it listens, the words in front of the port in their colour.
pub fn server_banner(port: u16) -> (lines: Vec<String>)
    ensures
        exists|label: Seq<char>| #[trigger]
            styled("Listening on port"@, "36"@, label) && texts(lines@) == banner_lines(label, port),
{
    proof {
        reveal_strlit("Listening on port");
    }
    let label: String = cyan("Listening on port");
    server_banner_as(label.as_str(), port)
}

/// The heading of the summary, from its four columns.
pub open spec fn summary_header_text(
    id: Seq<char>,
    interval: Seq<char>,
    transfer: Seq<char>,
    bitrate: Seq<char>,
) -> Seq<char> {
    id + "   "@ + interval + "          "@ + transfer + "      "@ + bitrate
}

/// The heading of the summary, from its four columns.
pub fn summary_header_as(id: &str, interval: &str, transfer: &str, bitrate: &str) -> (text: String)
    ensures
        text@ == summary_header_text(id@, interval@, transfer@, bitrate@),
{
    let mut out = String::new();
    out.append(id);
    out.append("   ");
    out.append(interval);
    out.append("          ");
    out.append(transfer);
    out.append("      ");
    out.append(bitrate);
    assert(out@ =~= summary_header_text(id@, interval@, transfer@, bitrate@));
    out
}

/// `text` is the heading of the summary, its columns in bold or plain.
pub open spec fn is_summary_header(text: Seq<char>) -> bool {
    exists|id: Seq<char>, interval: Seq<char>, transfer: Seq<char>, bitrate: Seq<char>|
        {
            &&& #[trigger] styled("ID"@, "1"@, id)
            &&& #[trigger] styled("Interval"@, "1"@, interval)
            &&& #[trigger] styled("Transfer"@, "1"@, transfer)
            &&& #[trigger] styled("Bitrate"@, "1"@, bitrate)
            &&& text == summary_header_text(id, interval, transfer, bitrate)
        }
}

/// The heading of the summary, its columns in bold.
pub fn summary_header() -> (text: String)
    ensures
        is_summary_header(text@),
{
    proof {
        reveal_strlit("ID");
        reveal_strlit("Interval");
        reveal_strlit("Transfer");
        reveal_strlit("Bitrate");
    }
    let id: String = bold("ID");
    let interval: String = bold("Interval");
    let transfer: String = bold("Transfer");
    let bitrate: String = bold("Bitrate");
    summary_header_as(id.as_str(), interval.as_str(), transfer.as_str(), bitrate.as_str())
}

/// Somewhere in `text` stands `value`, with `label` in front of it and `behind` behind it.
pub open spec fn shows(text: Seq<char>, label: Seq<char>, value: Seq<char>, behind: Seq<char>) -> bool {
    exists|a: Seq<char>, b: Seq<char>| text == #[trigger] framed(a, label + value + behind, b)
}

/// `middle` between `a` and `b`.
pub open spec fn framed(a: Seq<char>, middle: Seq<char>, b: Seq<char>) -> Seq<char> {
    a + middle + b
}

/// What a text shows that stands at a given place in it.
pub(crate) proof fn lemma_shows(
    text: Seq<char>,
    a: Seq<char>,
    label: Seq<char>,
    value: Seq<char>,
    behind: Seq<char>,
    b: Seq<char>,
)
    requires
        text =~= a + label + value + behind + b,
    ensures
        shows(text, label, value, behind),
{
    assert(text =~= framed(a, label + value + behind, b));
}

/// Of a text that ends in `l2` and `rest`, with `v1` behind `l1` in front of them.
pub(crate) proof fn lemma_peel(
    text: Seq<char>,
    a: Seq<char>,
    l1: Seq<char>,
    v1: Seq<char>,
    l2: Seq<char>,
    rest: Seq<char>,
)
    requires
        text == (a + l1 + v1) + l2 + rest,
    ensures
        text == a + l1 + (v1 + l2 + rest),
        shows(text, l1, v1, l2),
{
    assert((a + l1 + v1) + l2 + rest =~= a + l1 + (v1 + l2 + rest));
    lemma_shows(text, a, l1, v1, l2, rest);
}

/// A line of a table shows the stream, or `SUM`, the start and the end of its interval in
/// seconds, the bytes, their rate over its duration, and at its end the word for the side.
pub proof fn law_row_shows_its_figures(row: StatsRow, role: Seq<char>)
    ensures
        ({
            let text = row_text(row, role);
            let start = ratio_text(row.offset_millis as nat, 1000);
            let end = ratio_text((row.offset_millis + row.duration_millis) as nat, 1000);
            let bytes = bytes_text(row.bytes_transferred as nat);
            let rate = bitrate_text(row.bytes_transferred as nat, row.duration_millis as nat);
            &&& row.id matches Some(id) ==> shows(
                text,
                "["@,
                right_aligned(dec(id as nat), 3),
                "]   "@ + start + ".."@,
            )
            &&& row.id is None ==> shows(
                text,
                "["@,
                right_aligned("SUM"@, 3),
                "]   "@ + start + ".."@,
            )
            &&& shows(text, ".."@, end, " sec  "@ + bytes + "   "@)
            &&& shows(text, "   "@, rate, "        "@ + role)
            &&& text.skip(text.len() - role.len()) == role
        }),
{
    let text = row_text(row, role);
    let id = right_aligned(id_text(row.id), 3);
    let start = ratio_text(row.offset_millis as nat, 1000);
    let end = ratio_text((row.offset_millis + row.duration_millis) as nat, 1000);
    let bytes = bytes_text(row.bytes_transferred as nat);
    let rate = bitrate_text(row.bytes_transferred as nat, row.duration_millis as nat);
    let none = Seq::<char>::empty();
    lemma_shows(
        text,
        none,
        "["@,
        id,
        "]   "@ + start + ".."@,
        end + " sec  "@ + bytes + "   "@ + rate + "        "@ + role,
    );
    lemma_shows(
        text,
        "["@ + id + "]   "@ + start,
        ".."@,
        end,
        " sec  "@ + bytes + "   "@,
        rate + "        "@ + role,
    );
    lemma_shows(
        text,
        "["@ + id + "]   "@ + start + ".."@ + end + " sec  "@ + bytes,
        "   "@,
        rate,
        "        "@ + role,
        none,
    );
    assert(text.skip(text.len() - role.len()) =~= role);
}

/// A line says the same of a sender and of a receiver, but for the word at its end.
pub proof fn law_rows_of_both_sides_are_alike(row: StatsRow, role: Seq<char>)
    ensures
        row_text(row, role) == row_text((StatsRow { sender: !row.sender, ..row }), role),
{
}

/// The word for one side is never taken for the word for the other.
pub proof fn law_sides_are_told_apart(word: Seq<char>)
    ensures
        !(is_role(true, word) && is_role(false, word)),
{
    reveal_strlit("sender");
    reveal_strlit("receiver");
    reveal_strlit("33");
    reveal_strlit("35");
    reveal_strlit("m");
    reveal_strlit("\x1B[");
    reveal_strlit("\x1B[0m");
    assert(style_start("33"@).len() == 5);
    assert(style_start("35"@).len() == 5);
    let reset = "\x1B[0m"@;
    assert(("sender"@ + reset).len() == 10);
    assert(("receiver"@ + reset).len() == 12);
    assert((style_start("33"@) + "sender"@ + reset).len() == 15);
    assert((style_start("35"@) + "receiver"@ + reset).len() == 17);
}

} // verus!
