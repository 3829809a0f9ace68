//! The summary of a test: a line for each stream and side, and their sums.
use crate::stats::{Direction, StreamStats, TestResults};
use crate::ui::{
    is_role, is_summary_header, role_label, row_text, stats_line_as, summary_header, texts, StatsRow,
};
use vstd::prelude::*;

verus! {

broadcast use vstd::std_specs::hash::group_hash_axioms;

/// The lines of a summary. The sums stand there where there is more than one stream: what
/// was sent, then what was received.
#[derive(Debug, Clone, Eq, PartialEq)]
pub struct Summary {
    pub rows: Vec<StatsRow>,
    pub sums: Option<(StatsRow, StatsRow)>,
}

/// The line of one stream on one side.
pub open spec fn stream_row(id: usize, stats: StreamStats) -> StatsRow {
    StatsRow {
        id: Some(id),
        offset_millis: 0,
        duration_millis: stats.duration_millis,
        bytes_transferred: stats.bytes_transferred,
        sender: stats.sender,
    }
}

/// The lines of one stream: this side's, then the other side's unless traffic goes both
/// ways or the other side has no such stream.
pub open spec fn rows_of_stream(
    id: usize,
    local: Map<usize, StreamStats>,
    remote: Map<usize, StreamStats>,
    direction: Direction,
) -> Seq<StatsRow> {
    if direction != Direction::Bidirectional && remote.contains_key(id) {
        seq![stream_row(id, local[id]), stream_row(id, remote[id])]
    } else {
        seq![stream_row(id, local[id])]
    }
}

/// The lines of the streams `ids`, in that order.
pub open spec fn rows_of(
    ids: Seq<usize>,
    local: Map<usize, StreamStats>,
    remote: Map<usize, StreamStats>,
    direction: Direction,
) -> Seq<StatsRow>
    decreases ids.len(),
{
    if ids.len() == 0 {
        Seq::empty()
    } else {
        rows_of(ids.drop_last(), local, remote, direction) + rows_of_stream(
            ids.last(),
            local,
            remote,
            direction,
        )
    }
}

/// The bytes of all lines of senders, or of receivers.
pub open spec fn total_bytes(rows: Seq<StatsRow>, sender: bool) -> nat
    decreases rows.len(),
{
    if rows.len() == 0 {
        0
    } else {
        total_bytes(rows.drop_last(), sender) + if rows.last().sender == sender {
            rows.last().bytes_transferred as nat
        } else {
            0
        }
    }
}

/// The longest duration of all lines of senders, or of receivers; zero where there is none.
pub open spec fn longest(rows: Seq<StatsRow>, sender: bool) -> u64
    decreases rows.len(),
{
    if rows.len() == 0 {
        0
    } else {
        let rest = longest(rows.drop_last(), sender);
        if rows.last().sender == sender && rows.last().duration_millis > rest {
            rows.last().duration_millis
        } else {
            rest
        }
    }
}

/// The line that sums up all senders, or all receivers.
pub open spec fn sum_row(rows: Seq<StatsRow>, sender: bool) -> StatsRow {
    StatsRow {
        id: None,
        offset_millis: 0,
        duration_millis: longest(rows, sender),
        bytes_transferred: total_bytes(rows, sender) as u64,
        sender,
    }
}

/// Both sums are numbers of 64 bits.
pub open spec fn sums_fit(rows: Seq<StatsRow>) -> bool {
    total_bytes(rows, true) <= u64::MAX && total_bytes(rows, false) <= u64::MAX
}

/// `ids` names every stream of `local` once.
pub open spec fn is_walk(ids: Seq<usize>, local: Map<usize, StreamStats>) -> bool {
    ids.no_duplicates() && ids.to_set() == local.dom()
}

/// `summary` holds the lines of the streams in the order of `ids`, and the sums.
pub open spec fn is_summary(
    summary: Summary,
    ids: Seq<usize>,
    local: Map<usize, StreamStats>,
    remote: Map<usize, StreamStats>,
    direction: Direction,
) -> bool {
    let rows = rows_of(ids, local, remote, direction);
    &&& summary.rows@ == rows
    &&& summary.sums == if ids.len() > 1 {
        Some((sum_row(rows, true), sum_row(rows, false)))
    } else {
        None
    }
}

/// The streams of `results`, each once, in the order in which their map is walked.
pub fn stream_ids(results: &TestResults) -> (ids: Vec<usize>)
    ensures
        is_walk(ids@, results.streams@),
{
    let mut ids: Vec<usize> = Vec::new();
    for id in it: results.streams.keys()
        invariant
            ids@ =~= it.seq().unref().take(it.index()),
    {
        ids.push(*id);
    }
    proof {
        let all = vstd::std_specs::iter::IteratorSpec::remaining(
            &vstd::std_specs::hash::spec_keys_iter(&results.streams),
        );
        assert(ids@ =~= all.unref());
        assert(ids@.no_duplicates());
    }
    ids
}

proof fn lemma_total_of_prefix(rows: Seq<StatsRow>, i: int, sender: bool)
    requires
        0 <= i <= rows.len(),
    ensures
        total_bytes(rows.take(i), sender) <= total_bytes(rows, sender),
    decreases rows.len() - i,
{
    if i < rows.len() {
        assert(rows.take(i + 1).drop_last() =~= rows.take(i));
        lemma_total_of_prefix(rows, i + 1, sender);
    } else {
        assert(rows.take(i) =~= rows);
    }
}

/// The line that sums up all senders, or all receivers; nothing where the bytes do not
/// fit in 64 bits.
fn sum_rows(rows: &Vec<StatsRow>, sender: bool) -> (sum: Option<StatsRow>)
    ensures
        sum == if total_bytes(rows@, sender) <= u64::MAX {
            Some(sum_row(rows@, sender))
        } else {
            None
        },
{
    let mut bytes: u64 = 0;
    let mut duration: u64 = 0;
    let mut i: usize = 0;
    while i < rows.len()
        invariant
            i <= rows.len(),
            bytes == total_bytes(rows@.take(i as int), sender),
            duration == longest(rows@.take(i as int), sender),
        decreases rows.len() - i,
    {
        assert(rows@.take(i + 1).drop_last() =~= rows@.take(i as int));
        let row: &StatsRow = &rows[i];
        if row.sender == sender {
            proof {
                lemma_total_of_prefix(rows@, i + 1, sender);
            }
            if row.bytes_transferred > u64::MAX - bytes {
                return None;
            }
            bytes = bytes + row.bytes_transferred;
            if row.duration_millis > duration {
                duration = row.duration_millis;
            }
        }
        i = i + 1;
    }
    assert(rows@.take(i as int) =~= rows@);
    Some(
        StatsRow {
            id: None,
            offset_millis: 0,
            duration_millis: duration,
            bytes_transferred: bytes,
            sender,
        },
    )
}

fn make_row(id: usize, stats: &StreamStats) -> (row: StatsRow)
    ensures
        row == stream_row(id, *stats),
{
    StatsRow {
        id: Some(id),
        offset_millis: 0,
        duration_millis: stats.duration_millis,
        bytes_transferred: stats.bytes_transferred,
        sender: stats.sender,
    }
}

/// The summary of the streams in the order of `ids`; nothing where a sum of bytes does not
/// fit in 64 bits.
pub fn summary_in_order(
    ids: &Vec<usize>,
    local: &TestResults,
    remote: &TestResults,
    direction: &Direction,
) -> (summary: Option<Summary>)
    requires
        is_walk(ids@, local.streams@),
    ensures
        summary is Some <==> sums_fit(
            rows_of(ids@, local.streams@, remote.streams@, *direction),
        ),
        summary matches Some(s) ==> is_summary(
            s,
            ids@,
            local.streams@,
            remote.streams@,
            *direction,
        ),
        summary matches Some(s) ==> (s.sums is Some <==> local.streams@.dom().len() > 1),
{
    proof {
        ids@.unique_seq_to_set();
    }
    let one_way: bool = match direction {
        Direction::Bidirectional => false,
        _ => true,
    };
    let mut rows: Vec<StatsRow> = Vec::new();
    let mut i: usize = 0;
    while i < ids.len()
        invariant
            i <= ids.len(),
            is_walk(ids@, local.streams@),
            one_way == (*direction != Direction::Bidirectional),
            rows@ == rows_of(ids@.take(i as int), local.streams@, remote.streams@, *direction),
        decreases ids.len() - i,
    {
        let id: usize = ids[i];
        proof {
            assert(ids@.take(i + 1).drop_last() =~= ids@.take(i as int));
            assert(ids@.to_set().contains(id));
        }
        let ghost before = rows@;
        match local.streams.get(&id) {
            Some(stats) => rows.push(make_row(id, stats)),
            None => {
                assert(false);
            },
        }
        if one_way {
            match remote.streams.get(&id) {
                Some(stats) => rows.push(make_row(id, stats)),
                None => {},
            }
        }
        assert(rows@ =~= before + rows_of_stream(id, local.streams@, remote.streams@, *direction));
        i = i + 1;
    }
    assert(ids@.take(i as int) =~= ids@);
    let sent: Option<StatsRow> = sum_rows(&rows, true);
    let received: Option<StatsRow> = sum_rows(&rows, false);
    match (sent, received) {
        (Some(a), Some(b)) => {
            let sums: Option<(StatsRow, StatsRow)> = if ids.len() > 1 {
                Some((a, b))
            } else {
                None
            };
            Some(Summary { rows, sums })
        },
        _ => None,
    }
}

proof fn lemma_total_append(a: Seq<StatsRow>, b: Seq<StatsRow>, sender: bool)
    ensures
        total_bytes(a + b, sender) == total_bytes(a, sender) + total_bytes(b, sender),
        longest(a + b, sender) == if longest(a, sender) > longest(b, sender) {
            longest(a, sender)
        } else {
            longest(b, sender)
        },
    decreases b.len(),
{
    if b.len() == 0 {
        assert(a + b =~= a);
    } else {
        assert((a + b).drop_last() =~= a + b.drop_last());
        lemma_total_append(a, b.drop_last(), sender);
    }
}

proof fn lemma_without_one(
    ids: Seq<usize>,
    i: int,
    local: Map<usize, StreamStats>,
    remote: Map<usize, StreamStats>,
    direction: Direction,
    sender: bool,
)
    requires
        0 <= i < ids.len(),
    ensures
        ({
            let all = rows_of(ids, local, remote, direction);
            let rest = rows_of(ids.remove(i), local, remote, direction);
            let one = rows_of_stream(ids[i], local, remote, direction);
            &&& total_bytes(all, sender) == total_bytes(rest, sender) + total_bytes(one, sender)
            &&& longest(all, sender) == if longest(rest, sender) > longest(one, sender) {
                longest(rest, sender)
            } else {
                longest(one, sender)
            }
        }),
    decreases ids.len(),
{
    let last = rows_of_stream(ids.last(), local, remote, direction);
    lemma_total_append(rows_of(ids.drop_last(), local, remote, direction), last, sender);
    if i == ids.len() - 1 {
        assert(ids.remove(i) =~= ids.drop_last());
    } else {
        lemma_without_one(ids.drop_last(), i, local, remote, direction, sender);
        assert(ids.remove(i).drop_last() =~= ids.drop_last().remove(i));
        assert(ids.remove(i).last() == ids.last());
        lemma_total_append(rows_of(ids.remove(i).drop_last(), local, remote, direction), last, sender);
    }
}

/// The sums of a summary do not depend on the order in which the streams are walked.
pub proof fn law_sums_ignore_order(
    a: Seq<usize>,
    b: Seq<usize>,
    local: Map<usize, StreamStats>,
    remote: Map<usize, StreamStats>,
    direction: Direction,
    sender: bool,
)
    requires
        a.no_duplicates(),
        b.no_duplicates(),
        a.to_set() == b.to_set(),
    ensures
        sum_row(rows_of(a, local, remote, direction), sender) == sum_row(
            rows_of(b, local, remote, direction),
            sender,
        ),
        total_bytes(rows_of(a, local, remote, direction), sender) == total_bytes(
            rows_of(b, local, remote, direction),
            sender,
        ),
    decreases a.len(),
{
    a.unique_seq_to_set();
    b.unique_seq_to_set();
    if a.len() > 0 {
        let x = a.last();
        assert(a.to_set().contains(x));
        assert(b.to_set().contains(x));
        let i = choose|i: int| 0 <= i < b.len() && b[i] == x;
        lemma_without_one(a, a.len() - 1, local, remote, direction, sender);
        lemma_without_one(b, i, local, remote, direction, sender);
        let aa = a.remove(a.len() - 1);
        let bb = b.remove(i);
        assert(aa.to_set() =~= a.to_set().remove(x)) by {
            lemma_remove_from_set(a, a.len() - 1);
        }
        assert(bb.to_set() =~= b.to_set().remove(x)) by {
            lemma_remove_from_set(b, i);
        }
        law_sums_ignore_order(aa, bb, local, remote, direction, sender);
    }
}

/// In every order of the streams both sums are numbers of 64 bits.
pub open spec fn all_sums_fit(
    local: Map<usize, StreamStats>,
    remote: Map<usize, StreamStats>,
    direction: Direction,
) -> bool {
    forall|ids: Seq<usize>| #[trigger]
        is_walk(ids, local) ==> sums_fit(rows_of(ids, local, remote, direction))
}

/// The summary of a test, the streams in the order in which their map is walked; nothing
/// where a sum of bytes does not fit in 64 bits.
pub fn summary(local: &TestResults, remote: &TestResults, direction: &Direction) -> (summary: Option<
    Summary,
>)
    ensures
        summary is Some <==> all_sums_fit(local.streams@, remote.streams@, *direction),
        summary matches Some(s) ==> exists|ids: Seq<usize>| #[trigger]
            is_walk(ids, local.streams@) && is_summary(
                s,
                ids,
                local.streams@,
                remote.streams@,
                *direction,
            ),
        summary matches Some(s) ==> (s.sums is Some <==> local.streams@.dom().len() > 1),
{
    let ids: Vec<usize> = stream_ids(local);
    proof {
        let l = local.streams@;
        let r = remote.streams@;
        let d = *direction;
        assert forall|other: Seq<usize>| #[trigger] is_walk(other, l) implies sums_fit(
            rows_of(other, l, r, d),
        ) == sums_fit(rows_of(ids@, l, r, d)) by {
            law_sums_ignore_order(ids@, other, l, r, d, true);
            law_sums_ignore_order(ids@, other, l, r, d, false);
        }
    }
    summary_in_order(&ids, local, remote, direction)
}

impl Summary {
    /// Every line has an end and a number of bits that are numbers of 64 bits.
    pub open spec fn fits(self) -> bool {
        &&& forall|i: int| 0 <= i < self.rows@.len() ==> #[trigger] self.rows@[i].fits()
        &&& self.sums matches Some(sums) ==> sums.0.fits() && sums.1.fits()
    }

    /// Whether every line has an end and a number of bits that are numbers of 64 bits.
    pub fn check_fits(&self) -> (b: bool)
        ensures
            b == self.fits(),
    {
        let mut i: usize = 0;
        while i < self.rows.len()
            invariant
                i <= self.rows.len(),
                forall|j: int| 0 <= j < i ==> #[trigger] self.rows@[j].fits(),
            decreases self.rows.len() - i,
        {
            if !self.rows[i].check_fits() {
                assert(!self.rows@[i as int].fits());
                return false;
            }
            i = i + 1;
        }
        match &self.sums {
            Some(sums) => sums.0.check_fits() && sums.1.check_fits(),
            None => true,
        }
    }
}

/// The line of `row`, with the word for its side.
pub open spec fn labelled_row(row: StatsRow, sender: Seq<char>, receiver: Seq<char>) -> Seq<char> {
    row_text(
        row,
        if row.sender {
            sender
        } else {
            receiver
        },
    )
}

/// The lines of a summary: a rule, the heading, a line for each row, and the sums behind an
/// empty line.
pub open spec fn summary_texts(
    summary: Summary,
    header: Seq<char>,
    sender: Seq<char>,
    receiver: Seq<char>,
) -> Seq<Seq<char>> {
    seq!["- - - - - - - - - - - - - - - - - - - - - - - - - - - - -"@, header]
        + summary.rows@.map_values(|row: StatsRow| labelled_row(row, sender, receiver)) + (
    match summary.sums {
        Some(sums) => seq![
            ""@,
            labelled_row(sums.0, sender, receiver),
            labelled_row(sums.1, sender, receiver),
        ],
        None => Seq::empty(),
    })
}

/// The lines of a summary, from its heading and the words for the two sides.
pub fn summary_lines_as(
    summary: &Summary,
    header: &str,
    sender: &str,
    receiver: &str,
) -> (lines: Vec<String>)
    requires
        summary.fits(),
    ensures
        texts(lines@) == summary_texts(*summary, header@, sender@, receiver@),
{
    let mut lines: Vec<String> = Vec::new();
    lines.push("- - - - - - - - - - - - - - - - - - - - - - - - - - - - -".to_owned());
    lines.push(header.to_owned());
    let ghost head = seq!["- - - - - - - - - - - - - - - - - - - - - - - - - - - - -"@, header@];
    let ghost body = summary.rows@.map_values(|row: StatsRow| labelled_row(row, sender@, receiver@));
    let mut i: usize = 0;
    while i < summary.rows.len()
        invariant
            i <= summary.rows.len(),
            summary.fits(),
            body == summary.rows@.map_values(
                |row: StatsRow| labelled_row(row, sender@, receiver@),
            ),
            texts(lines@) =~= head + body.take(i as int),
        decreases summary.rows.len() - i,
    {
        let row: &StatsRow = &summary.rows[i];
        let ghost before = lines@;
        let line: String = stats_line_as(
            row,
            if row.sender {
                sender
            } else {
                receiver
            },
        );
        lines.push(line);
        assert(texts(lines@) =~= texts(before).push(body[i as int]));
        i = i + 1;
    }
    assert(body.take(i as int) =~= body);
    match &summary.sums {
        Some(sums) => {
            let ghost before = lines@;
            lines.push(String::new());
            lines.push(stats_line_as(&sums.0, if sums.0.sender { sender } else { receiver }));
            lines.push(stats_line_as(&sums.1, if sums.1.sender { sender } else { receiver }));
            proof {
                reveal_strlit("");
                assert(lines@[before.len() as int]@ =~= ""@);
            }
        },
        None => {},
    }
    assert(texts(lines@) =~= summary_texts(*summary, header@, sender@, receiver@));
    lines
}

/// The lines of a summary, with the colours of the terminal.
pub fn summary_lines(summary: &Summary) -> (lines: Vec<String>)
    requires
        summary.fits(),
    ensures
        exists|header: Seq<char>, sender: Seq<char>, receiver: Seq<char>|
            {
                &&& #[trigger] is_summary_header(header)
                &&& #[trigger] is_role(true, sender)
                &&& #[trigger] is_role(false, receiver)
                &&& texts(lines@) == summary_texts(*summary, header, sender, receiver)
            },
{
    let header: String = summary_header();
    let sender: String = role_label(true);
    let receiver: String = role_label(false);
    summary_lines_as(summary, header.as_str(), sender.as_str(), receiver.as_str())
}

proof fn lemma_remove_from_set(s: Seq<usize>, i: int)
    requires
        s.no_duplicates(),
        0 <= i < s.len(),
    ensures
        s.remove(i).to_set() =~= s.to_set().remove(s[i]),
        s.remove(i).no_duplicates(),
{
    let t = s.remove(i);
    assert forall|x: usize| #[trigger] s.to_set().remove(s[i]).contains(x) implies t.to_set().contains(
        x,
    ) by {
        let j = choose|j: int| 0 <= j < s.len() && s[j] == x;
        if j < i {
            assert(t[j] == x);
        } else {
            assert(t[j - 1] == x);
        }
    }
    assert forall|x: usize| #[trigger] t.to_set().contains(x) implies s.to_set().remove(s[i]).contains(
        x,
    ) by {
        let j = choose|j: int| 0 <= j < t.len() && t[j] == x;
        if j < i {
            assert(s[j] == x);
        } else {
            assert(s[j + 1] == x);
        }
    }
}

/// The bytes of all lines that `which` picks.
pub open spec fn bytes_where(rows: Seq<StatsRow>, which: spec_fn(StatsRow) -> bool) -> int {
    rows.filter(which).fold_left(0int, |sum: int, row: StatsRow| sum + row.bytes_transferred)
}

proof fn lemma_total_is_fold(rows: Seq<StatsRow>)
    ensures
        total_bytes(rows, true) == bytes_where(rows, |row: StatsRow| row.sender),
        total_bytes(rows, false) == bytes_where(rows, |row: StatsRow| !row.sender),
    decreases rows.len(),
{
    reveal(Seq::filter);
    if rows.len() > 0 {
        lemma_total_is_fold(rows.drop_last());
        let senders = rows.drop_last().filter(|row: StatsRow| row.sender);
        let receivers = rows.drop_last().filter(|row: StatsRow| !row.sender);
        assert(senders.push(rows.last()).drop_last() =~= senders);
        assert(receivers.push(rows.last()).drop_last() =~= receivers);
    }
}

proof fn lemma_longest_bounds(rows: Seq<StatsRow>, sender: bool)
    ensures
        forall|i: int|
            0 <= i < rows.len() && rows[i].sender == sender ==> #[trigger] rows[i].duration_millis
                <= longest(rows, sender),
        longest(rows, sender) == 0 || exists|i: int|
            0 <= i < rows.len() && rows[i].sender == sender && #[trigger] rows[i].duration_millis
                == longest(rows, sender),
    decreases rows.len(),
{
    if rows.len() > 0 {
        let rest = rows.drop_last();
        lemma_longest_bounds(rest, sender);
        assert forall|i: int|
            0 <= i < rows.len() && rows[i].sender == sender implies #[trigger] rows[i].duration_millis
            <= longest(rows, sender) by {
            if i < rest.len() {
                assert(rest[i].duration_millis <= longest(rest, sender));
            }
        }
        if longest(rows, sender) != 0 {
            if longest(rows, sender) == rows.last().duration_millis && rows.last().sender == sender {
                assert(rows[rows.len() - 1].duration_millis == longest(rows, sender));
            } else {
                let i = choose|i: int|
                    0 <= i < rest.len() && rest[i].sender == sender
                        && #[trigger] rest[i].duration_millis == longest(rest, sender);
                assert(rows[i].duration_millis == longest(rows, sender));
            }
        }
    }
}

/// `sum` sums up the lines of one side: their bytes, and the longest of their durations.
pub open spec fn sums_up(sum: StatsRow, rows: Seq<StatsRow>, sender: bool) -> bool {
    &&& sum.id is None
    &&& sum.offset_millis == 0
    &&& sum.sender == sender
    &&& sum.bytes_transferred == bytes_where(rows, |row: StatsRow| row.sender == sender)
    &&& forall|i: int|
        0 <= i < rows.len() && rows[i].sender == sender ==> #[trigger] rows[i].duration_millis
            <= sum.duration_millis
    &&& sum.duration_millis == 0 || exists|i: int|
        0 <= i < rows.len() && rows[i].sender == sender && #[trigger] rows[i].duration_millis
            == sum.duration_millis
}

proof fn lemma_same_filter(rows: Seq<StatsRow>)
    ensures
        bytes_where(rows, |row: StatsRow| row.sender == true) == bytes_where(
            rows,
            |row: StatsRow| row.sender,
        ),
        bytes_where(rows, |row: StatsRow| row.sender == false) == bytes_where(
            rows,
            |row: StatsRow| !row.sender,
        ),
{
    assert((|row: StatsRow| row.sender == true) =~= (|row: StatsRow| row.sender));
    assert((|row: StatsRow| row.sender == false) =~= (|row: StatsRow| !row.sender));
}

/// A summary has sums exactly where this side has more than one stream: first the bytes of
/// all lines of senders over the longest of their durations, then the same of receivers.
/// There is a summary exactly where both are numbers of 64 bits.
pub proof fn law_sums_of_several_streams(
    summary: Summary,
    ids: Seq<usize>,
    local: Map<usize, StreamStats>,
    remote: Map<usize, StreamStats>,
    direction: Direction,
)
    requires
        is_walk(ids, local),
        is_summary(summary, ids, local, remote, direction),
    ensures
        summary.sums is Some <==> local.dom().len() > 1,
        sums_fit(summary.rows@) <==> bytes_where(summary.rows@, |row: StatsRow| row.sender)
            <= u64::MAX && bytes_where(summary.rows@, |row: StatsRow| !row.sender) <= u64::MAX,
        sums_fit(summary.rows@) ==> (summary.sums matches Some(sums) ==> {
            &&& sums_up(sums.0, summary.rows@, true)
            &&& sums_up(sums.1, summary.rows@, false)
        }),
{
    let rows = summary.rows@;
    ids.unique_seq_to_set();
    lemma_total_is_fold(rows);
    lemma_same_filter(rows);
    lemma_longest_bounds(rows, true);
    lemma_longest_bounds(rows, false);
}

/// `row` is the line of the stream `id`, with the figures of `stats`.
pub open spec fn is_line_of(row: StatsRow, id: usize, stats: StreamStats) -> bool {
    &&& row.id == Some(id)
    &&& row.offset_millis == 0
    &&& row.duration_millis == stats.duration_millis
    &&& row.bytes_transferred == stats.bytes_transferred
    &&& row.sender == stats.sender
}

/// Traffic goes one way.
pub open spec fn goes_one_way(direction: Direction) -> bool {
    direction == Direction::ClientToServer || direction == Direction::ServerToClient
}

/// Streams that are walked one after the other have their lines one after the other.
pub proof fn law_lines_follow_the_walk(
    a: Seq<usize>,
    b: Seq<usize>,
    local: Map<usize, StreamStats>,
    remote: Map<usize, StreamStats>,
    direction: Direction,
)
    ensures
        rows_of(a + b, local, remote, direction) == rows_of(a, local, remote, direction) + rows_of(
            b,
            local,
            remote,
            direction,
        ),
    decreases b.len(),
{
    if b.len() == 0 {
        assert(a + b =~= a);
        assert(rows_of(a, local, remote, direction) + Seq::<StatsRow>::empty() =~= rows_of(
            a,
            local,
            remote,
            direction,
        ));
    } else {
        law_lines_follow_the_walk(a, b.drop_last(), local, remote, direction);
        assert((a + b).drop_last() =~= a + b.drop_last());
        let x = rows_of(a, local, remote, direction);
        let y = rows_of(b.drop_last(), local, remote, direction);
        let z = rows_of_stream(b.last(), local, remote, direction);
        assert((x + y) + z =~= x + (y + z));
    }
}

/// Where the lines of the stream that is walked at `k` start.
proof fn lemma_rows_at(
    ids: Seq<usize>,
    k: int,
    local: Map<usize, StreamStats>,
    remote: Map<usize, StreamStats>,
    direction: Direction,
) -> (at: int)
    requires
        0 <= k < ids.len(),
    ensures
        0 <= at,
        at + rows_of_stream(ids[k], local, remote, direction).len() <= rows_of(
            ids,
            local,
            remote,
            direction,
        ).len(),
        forall|j: int|
            0 <= j < rows_of_stream(ids[k], local, remote, direction).len() ==> #[trigger] rows_of(
                ids,
                local,
                remote,
                direction,
            )[at + j] == rows_of_stream(ids[k], local, remote, direction)[j],
{
    let head = ids.take(k);
    let one = ids.subrange(k, k + 1);
    let tail = ids.skip(k + 1);
    assert(ids =~= head + one + tail);
    law_lines_follow_the_walk(head + one, tail, local, remote, direction);
    law_lines_follow_the_walk(head, one, local, remote, direction);
    assert(one.drop_last().len() == 0);
    assert(rows_of(one.drop_last(), local, remote, direction) =~= Seq::empty());
    assert(one.last() == ids[k]);
    let block = rows_of_stream(ids[k], local, remote, direction);
    assert(rows_of(one, local, remote, direction) =~= block);
    rows_of(head, local, remote, direction).len() as int
}

/// The summary has a line for each stream of this side, and where traffic goes one way
/// behind it one for the other side, if that has the stream. A test that goes both ways has
/// no line of the other side.
pub proof fn law_summary_has_every_line(
    summary: Summary,
    ids: Seq<usize>,
    id: usize,
    local: Map<usize, StreamStats>,
    remote: Map<usize, StreamStats>,
    direction: Direction,
)
    requires
        is_walk(ids, local),
        is_summary(summary, ids, local, remote, direction),
        local.contains_key(id),
    ensures
        exists|i: int|
            0 <= i < summary.rows@.len() && is_line_of(#[trigger] summary.rows@[i], id, local[id])
                && (goes_one_way(direction) && remote.contains_key(id) ==> i + 1
                < summary.rows@.len() && is_line_of(summary.rows@[i + 1], id, remote[id])),
{
    assert(ids.to_set().contains(id));
    let k = choose|k: int| 0 <= k < ids.len() && ids[k] == id;
    let at = lemma_rows_at(ids, k, local, remote, direction);
    let block = rows_of_stream(id, local, remote, direction);
    let rows = summary.rows@;
    assert(rows[at + 0] == block[0]);
    if block.len() > 1 {
        assert(rows[at + 1] == block[1]);
    }
    assert(is_line_of(rows[at], id, local[id]));
}

/// The summary has no other line, and as many as there are streams on this side and, where
/// traffic goes one way, of those on the other.
pub proof fn law_summary_has_no_other_line(
    ids: Seq<usize>,
    local: Map<usize, StreamStats>,
    remote: Map<usize, StreamStats>,
    direction: Direction,
)
    ensures
        ({
            let rows = rows_of(ids, local, remote, direction);
            &&& rows.len() == ids.len() + if goes_one_way(direction) {
                ids.filter(|id: usize| remote.contains_key(id)).len()
            } else {
                0
            }
            &&& forall|i: int|
                0 <= i < rows.len() ==> (#[trigger] rows[i].id matches Some(id) && ids.contains(id)
                    && (is_line_of(rows[i], id, local[id]) || (goes_one_way(direction)
                    && remote.contains_key(id) && is_line_of(rows[i], id, remote[id]))))
        }),
    decreases ids.len(),
{
    reveal(Seq::filter);
    if ids.len() > 0 {
        let rest = ids.drop_last();
        law_summary_has_no_other_line(rest, local, remote, direction);
        let rows = rows_of(ids, local, remote, direction);
        let before = rows_of(rest, local, remote, direction);
        assert forall|i: int| 0 <= i < rows.len() implies (#[trigger] rows[i].id matches Some(id)
            && ids.contains(id) && (is_line_of(rows[i], id, local[id]) || (goes_one_way(direction)
            && remote.contains_key(id) && is_line_of(rows[i], id, remote[id])))) by {
            if i < before.len() {
                assert(rows[i] == before[i]);
                let id = before[i].id->0;
                let j = choose|j: int| 0 <= j < rest.len() && rest[j] == id;
                assert(ids[j] == id);
            } else {
                assert(ids[ids.len() - 1] == ids.last());
            }
        }
    }
}

/// The text of a summary: the heading behind a rule, a line for each row with the word for
/// its side, and where there are sums an empty line and a line for each of the two.
pub proof fn law_summary_text_has_every_row(
    summary: Summary,
    header: Seq<char>,
    sender: Seq<char>,
    receiver: Seq<char>,
)
    ensures
        ({
            let lines = summary_texts(summary, header, sender, receiver);
            let n = summary.rows@.len();
            &&& lines.len() == 2 + n + if summary.sums is Some {
                3nat
            } else {
                0nat
            }
            &&& lines[1] == header
            &&& forall|i: int|
                0 <= i < n ==> #[trigger] lines[2 + i] == row_text(
                    summary.rows@[i],
                    if summary.rows@[i].sender {
                        sender
                    } else {
                        receiver
                    },
                )
            &&& summary.sums matches Some(sums) ==> {
                &&& lines[2 + n as int].len() == 0
                &&& sums.0.sender ==> lines[3 + n as int] == row_text(sums.0, sender)
                &&& !sums.1.sender ==> lines[4 + n as int] == row_text(sums.1, receiver)
            }
        }),
{
    reveal_strlit("");
}

} // verus!
