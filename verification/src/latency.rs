//! The latency table: for each stream and side the percentiles of the write stalls or of
//! the gaps between arrivals, and how steady the goodput was.
use crate::decimal::{append_dec, append_right_aligned, dec, right_aligned};
use crate::stats::{Dist, LatencyStats, StreamStats, TestResults};
use crate::ui::{bps_text, humanize_bps, humanize_ns, lemma_peel, lemma_shows, ns_text, shows, texts};
use std::collections::BTreeSet;
use vstd::prelude::*;
use vstd::string::StringExecFns;

verus! {

broadcast use vstd::std_specs::hash::group_hash_axioms;

/// Some stream has latency figures.
pub open spec fn any_latency(streams: Map<usize, StreamStats>) -> bool {
    exists|id: usize| #[trigger] streams.contains_key(id) && streams[id].latency is Some
}

/// What the figures of a side are.
pub open spec fn interval_name(sender: bool) -> Seq<char> {
    if sender {
        "write-stall  (sender)  "@
    } else {
        "arrival-gap  (receiver)"@
    }
}

/// The line of percentiles of one stream on one side.
pub open spec fn interval_text(id: usize, sender: bool, d: Dist) -> Seq<char> {
    "["@ + right_aligned(dec(id as nat), 3) + "] "@ + interval_name(sender) + "  min "@ + ns_text(
        d.min as nat,
    ) + "  p50 "@ + ns_text(d.p50 as nat) + "  p90 "@ + ns_text(d.p90 as nat) + "  p99 "@
        + ns_text(d.p99 as nat) + "  p100 "@ + ns_text(d.p100 as nat) + "  mean "@ + ns_text(
        d.mean as nat,
    )
}

/// The line of goodput of one stream on one side.
pub open spec fn goodput_text(lat: LatencyStats) -> Seq<char> {
    let t = lat.throughput_bps;
    "      goodput/10ms          min "@ + bps_text(t.min as nat) + "  p50 "@ + bps_text(
        t.p50 as nat,
    ) + "  p99 "@ + bps_text(t.p99 as nat) + "  max "@ + bps_text(t.p100 as nat) + "   [n="@ + dec(
        lat.interval_ns.count as nat,
    ) + ", clock~"@ + ns_text(lat.clock_baseline_ns as nat) + ", warmup-drop="@ + dec(
        lat.warmup_discarded as nat,
    ) + "]"@
}

/// The lines of one stream on one side: none without figures, and no goodput line where
/// goodput was not measured.
pub open spec fn side_texts(id: usize, streams: Map<usize, StreamStats>) -> Seq<Seq<char>> {
    if !streams.contains_key(id) {
        Seq::empty()
    } else {
        match streams[id].latency {
            None => Seq::empty(),
            Some(lat) => {
                let first = interval_text(id, streams[id].sender, lat.interval_ns);
                if lat.throughput_bps.count > 0 {
                    seq![first, goodput_text(lat)]
                } else {
                    seq![first]
                }
            },
        }
    }
}

/// The lines of the streams `ids`: of each, this side's and then the other side's.
pub open spec fn streams_texts(
    ids: Seq<usize>,
    local: Map<usize, StreamStats>,
    remote: Map<usize, StreamStats>,
) -> Seq<Seq<char>>
    decreases ids.len(),
{
    if ids.len() == 0 {
        Seq::empty()
    } else {
        streams_texts(ids.drop_last(), local, remote) + side_texts(ids.last(), local) + side_texts(
            ids.last(),
            remote,
        )
    }
}

/// The streams that either side has, in ascending order.
pub open spec fn all_ids(local: Map<usize, StreamStats>, remote: Map<usize, StreamStats>) -> Seq<
    usize,
> {
    local.dom().union(remote.dom()).to_sorted_seq(|a: usize, b: usize| a <= b)
}

/// The latency table; no line where neither side has figures.
pub open spec fn latency_texts(
    local: Map<usize, StreamStats>,
    remote: Map<usize, StreamStats>,
) -> Seq<Seq<char>> {
    if !any_latency(local) && !any_latency(remote) {
        Seq::empty()
    } else {
        seq!["- - - - - - - - - latency under load - - - - - - - - -"@] + streams_texts(
            all_ids(local, remote),
            local,
            remote,
        )
    }
}

fn append_ns(out: &mut String, label: &str, ns: u64)
    ensures
        final(out)@ == old(out)@ + label@ + ns_text(ns as nat),
{
    out.append(label);
    out.append(humanize_ns(ns).as_str());
}

fn append_bps(out: &mut String, label: &str, bps: u64)
    ensures
        final(out)@ == old(out)@ + label@ + bps_text(bps as nat),
{
    out.append(label);
    out.append(humanize_bps(bps).as_str());
}

/// The line of percentiles of one stream on one side.
pub fn interval_line(id: usize, sender: bool, d: &Dist) -> (text: String)
    ensures
        text@ == interval_text(id, sender, *d),
{
    let mut number = String::new();
    append_dec(&mut number, id as u128);
    assert(number@ =~= dec(id as nat));
    let mut out = String::new();
    out.append("[");
    append_right_aligned(&mut out, number.as_str(), 3);
    out.append("] ");
    out.append(
        if sender {
            "write-stall  (sender)  "
        } else {
            "arrival-gap  (receiver)"
        },
    );
    append_ns(&mut out, "  min ", d.min);
    append_ns(&mut out, "  p50 ", d.p50);
    append_ns(&mut out, "  p90 ", d.p90);
    append_ns(&mut out, "  p99 ", d.p99);
    append_ns(&mut out, "  p100 ", d.p100);
    append_ns(&mut out, "  mean ", d.mean);
    assert(out@ =~= interval_text(id, sender, *d));
    out
}

/// The line of goodput of one stream on one side.
pub fn goodput_line(lat: &LatencyStats) -> (text: String)
    ensures
        text@ == goodput_text(*lat),
{
    let t: &Dist = &lat.throughput_bps;
    let mut out = String::new();
    append_bps(&mut out, "      goodput/10ms          min ", t.min);
    append_bps(&mut out, "  p50 ", t.p50);
    append_bps(&mut out, "  p99 ", t.p99);
    append_bps(&mut out, "  max ", t.p100);
    out.append("   [n=");
    append_dec(&mut out, lat.interval_ns.count as u128);
    append_ns(&mut out, ", clock~", lat.clock_baseline_ns);
    out.append(", warmup-drop=");
    append_dec(&mut out, lat.warmup_discarded as u128);
    out.append("]");
    assert(out@ =~= goodput_text(*lat));
    out
}

fn has_latency(results: &TestResults) -> (b: bool)
    ensures
        b == any_latency(results.streams@),
{
    for id in it: results.streams.keys()
        invariant
            forall|i: int|
                0 <= i < it.index() ==> results.streams@[*#[trigger] it.seq()[i]].latency is None,
    {
        match results.streams.get(id) {
            Some(stats) => {
                if stats.latency.is_some() {
                    return true;
                }
            },
            None => {},
        }
    }
    proof {
        let all = vstd::std_specs::iter::IteratorSpec::remaining(
            &vstd::std_specs::hash::spec_keys_iter(&results.streams),
        );
        assert forall|id: usize| #[trigger]
            results.streams@.contains_key(id) implies results.streams@[id].latency is None by {
            assert(all.unref().to_set().contains(id));
        }
    }
    false
}

fn append_side(lines: &mut Vec<String>, id: usize, results: &TestResults)
    ensures
        texts(final(lines)@) == texts(old(lines)@) + side_texts(id, results.streams@),
{
    let ghost before = lines@;
    match results.streams.get(&id) {
        Some(stats) => {
            match &stats.latency {
                Some(lat) => {
                    lines.push(interval_line(id, stats.sender, &lat.interval_ns));
                    if lat.throughput_bps.count > 0 {
                        lines.push(goodput_line(lat));
                    }
                },
                None => {},
            }
        },
        None => {},
    }
    assert(texts(lines@) =~= texts(before) + side_texts(id, results.streams@));
}

proof fn lemma_set_seq(s: Set<usize>)
    requires
        s.finite(),
    ensures
        s.to_seq().no_duplicates(),
        s.to_seq().to_set() == s,
    decreases s.len(),
{
    s.lemma_to_seq_to_set_id();
    if s.len() > 0 {
        let x = s.choose();
        let rest = s.remove(x);
        lemma_set_seq(rest);
        rest.lemma_to_seq_to_set_id();
        assert(s.to_seq() =~= seq![x] + rest.to_seq());
        assert forall|i: int| 0 <= i < rest.to_seq().len() implies rest.to_seq()[i] != x by {
            assert(rest.to_seq().to_set().contains(rest.to_seq()[i]));
        }
    } else {
        assert(s =~= Set::empty());
        assert(s.to_seq() =~= Seq::empty());
    }
}

proof fn lemma_sorted_ids(s: Set<usize>, ids: Seq<usize>)
    requires
        s.finite(),
        ids.to_set() == s,
        forall|i: int, j: int| 0 <= i < j < ids.len() ==> ids[i] < ids[j],
    ensures
        ids == s.to_sorted_seq(|a: usize, b: usize| a <= b),
{
    let leq = |a: usize, b: usize| a <= b;
    let canonical = s.to_seq();
    lemma_set_seq(s);
    assert(ids.no_duplicates());
    ids.lemma_multiset_has_no_duplicates();
    canonical.lemma_multiset_has_no_duplicates();
    assert(ids.to_multiset() =~= canonical.to_multiset()) by {
        broadcast use vstd::seq_lib::group_to_multiset_ensures;

        assert forall|x: usize|
            ids.to_multiset().count(x) == canonical.to_multiset().count(x) by {
            assert(ids.contains(x) == s.contains(x)) by {
                assert(ids.to_set().contains(x) == s.contains(x));
            }
            assert(canonical.contains(x) == s.contains(x)) by {
                assert(canonical.to_set().contains(x) == s.contains(x));
            }
            if s.contains(x) {
                assert(ids.to_multiset().contains(x));
                assert(canonical.to_multiset().contains(x));
            } else {
                assert(!ids.to_multiset().contains(x));
                assert(!canonical.to_multiset().contains(x));
            }
        }
    }
    assert(vstd::relations::total_ordering(leq));
    canonical.lemma_sort_by_ensures(leq);
    vstd::seq_lib::lemma_sorted_unique(ids, canonical.sort_by(leq), leq);
}

fn insert_ids(set: &mut BTreeSet<usize>, results: &TestResults)
    ensures
        final(set)@ == old(set)@.union(results.streams@.dom()),
{
    broadcast use vstd::std_specs::btree::group_btree_axioms;
    broadcast use vstd::laws_cmp::group_laws_cmp;

    let ghost start = set@;
    proof {
        assert(start.union(Seq::<usize>::empty().to_set()) =~= start);
    }
    for id in it: results.streams.keys()
        invariant
            set@ =~= start.union(it.seq().unref().take(it.index()).to_set()),
    {
        proof {
            lemma_take_next(it.seq().unref(), it.index());
        }
        set.insert(*id);
    }
    proof {
        let all = vstd::std_specs::iter::IteratorSpec::remaining(
            &vstd::std_specs::hash::spec_keys_iter(&results.streams),
        );
        lemma_take_all(all.unref());
    }
}

fn ids_in_order(set: &BTreeSet<usize>) -> (ids: Vec<usize>)
    ensures
        ids@ == set@.to_sorted_seq(|a: usize, b: usize| a <= b),
{
    broadcast use vstd::std_specs::btree::group_btree_axioms;
    broadcast use vstd::laws_cmp::group_laws_cmp;

    let mut ids: Vec<usize> = Vec::new();
    for id in it: set.iter()
        invariant
            ids@ =~= it.seq().unref().take(it.index()),
    {
        ids.push(*id);
    }
    proof {
        let all = vstd::std_specs::iter::IteratorSpec::remaining(
            &vstd::std_specs::btree::spec_btree_keys_iter(set),
        );
        assert(ids@ =~= all.unref());
        assert forall|i: int, j: int| 0 <= i < j < ids@.len() implies ids@[i] < ids@[j] by {
            assert(vstd::laws_cmp::obeys_cmp::<&usize>());
            assert(vstd::std_specs::btree::increasing_seq(all));
            assert(vstd::std_specs::cmp::OrdSpec::cmp_spec(&all[i], &all[j]) is Less);
        }
        lemma_sorted_ids(set@, ids@);
    }
    ids
}

/// The streams that either side has, in ascending order.
pub fn ids_of_both(local: &TestResults, remote: &TestResults) -> (ids: Vec<usize>)
    ensures
        ids@ == all_ids(local.streams@, remote.streams@),
{
    let mut set: BTreeSet<usize> = BTreeSet::new();
    insert_ids(&mut set, local);
    insert_ids(&mut set, remote);
    proof {
        assert(set@ =~= local.streams@.dom().union(remote.streams@.dom()));
    }
    ids_in_order(&set)
}

proof fn lemma_take_all(s: Seq<usize>)
    ensures
        s.take(s.len() as int) == s,
{
    assert(s.take(s.len() as int) =~= s);
}

proof fn lemma_take_next(s: Seq<usize>, i: int)
    requires
        0 <= i < s.len(),
    ensures
        s.take(i + 1).to_set() == s.take(i).to_set().insert(s[i]),
{
    let a = s.take(i + 1);
    let b = s.take(i);
    assert(a =~= b.push(s[i]));
    assert forall|x: usize| #[trigger] b.to_set().insert(s[i]).contains(x) implies a.to_set().contains(
        x,
    ) by {
        if x == s[i] {
            assert(a[i] == x);
        } else {
            let j = choose|j: int| 0 <= j < b.len() && b[j] == x;
            assert(a[j] == x);
        }
    }
    assert(a.to_set() =~= b.to_set().insert(s[i]));
}

proof fn lemma_next_stream(
    head: Seq<Seq<char>>,
    ids: Seq<usize>,
    i: int,
    local: Map<usize, StreamStats>,
    remote: Map<usize, StreamStats>,
)
    requires
        0 <= i < ids.len(),
    ensures
        head + streams_texts(ids.take(i), local, remote) + side_texts(ids[i], local) + side_texts(
            ids[i],
            remote,
        ) == head + streams_texts(ids.take(i + 1), local, remote),
{
    let a = streams_texts(ids.take(i), local, remote);
    let b = side_texts(ids[i], local);
    let c = side_texts(ids[i], remote);
    assert(ids.take(i + 1).drop_last() =~= ids.take(i));
    assert(streams_texts(ids.take(i + 1), local, remote) == a + b + c);
    assert(head + a + b + c =~= head + (a + b + c));
}

/// Latency-under-load report: per-stream percentiles for the write-stall / arrival-gap,
/// plus the goodput-window stability (suppressed if a transport didn't measure it).
pub fn latency_lines(local: &TestResults, remote: &TestResults) -> (lines: Vec<String>)
    ensures
        texts(lines@) == latency_texts(local.streams@, remote.streams@),
{
    let mut lines: Vec<String> = Vec::new();
    if !has_latency(local) && !has_latency(remote) {
        assert(texts(lines@) =~= Seq::<Seq<char>>::empty());
        return lines;
    }
    lines.push("- - - - - - - - - latency under load - - - - - - - - -".to_owned());
    let ghost head = seq!["- - - - - - - - - latency under load - - - - - - - - -"@];
    let ids: Vec<usize> = ids_of_both(local, remote);
    let mut i: usize = 0;
    assert(texts(lines@) =~= head + streams_texts(ids@.take(0), local.streams@, remote.streams@));
    while i < ids.len()
        invariant
            i <= ids.len(),
            texts(lines@) == head + streams_texts(
                ids@.take(i as int),
                local.streams@,
                remote.streams@,
            ),
        decreases ids.len() - i,
    {
        let id: usize = ids[i];
        append_side(&mut lines, id, local);
        append_side(&mut lines, id, remote);
        proof {
            lemma_next_stream(head, ids@, i as int, local.streams@, remote.streams@);
        }
        i = i + 1;
    }
    assert(ids@.take(i as int) =~= ids@);
    lines
}

/// A table of latencies has a line for a stream and side exactly where that side has
/// figures of the stream, and a second one exactly where goodput was measured.
pub proof fn law_latency_lines_of_a_side(id: usize, streams: Map<usize, StreamStats>)
    ensures
        side_texts(id, streams).len() == if streams.contains_key(id) && streams[id].latency is Some {
            if streams[id].latency->0.throughput_bps.count > 0 {
                2nat
            } else {
                1nat
            }
        } else {
            0nat
        },
{
}

/// `x` stands in front of `y` in `table`.
pub open spec fn in_front(table: Seq<Seq<char>>, x: Seq<char>, y: Seq<char>) -> bool {
    exists|i: int, j: int|
        0 <= i < j < table.len() && #[trigger] table[i] == x && #[trigger] table[j] == y
}

/// `x` stands directly in front of `y` in `table`.
pub open spec fn right_in_front(table: Seq<Seq<char>>, x: Seq<char>, y: Seq<char>) -> bool {
    exists|i: int| 0 <= i < table.len() - 1 && #[trigger] table[i] == x && table[i + 1] == y
}

/// The side has latency figures of the stream.
pub open spec fn has_figures(id: usize, streams: Map<usize, StreamStats>) -> bool {
    streams.contains_key(id) && streams[id].latency is Some
}

/// The line of percentiles of a stream of which the side has figures.
pub open spec fn figures_line(id: usize, streams: Map<usize, StreamStats>) -> Seq<char> {
    interval_text(id, streams[id].sender, streams[id].latency->0.interval_ns)
}

proof fn lemma_all_ids(local: Map<usize, StreamStats>, remote: Map<usize, StreamStats>)
    requires
        local.dom().finite(),
        remote.dom().finite(),
    ensures
        forall|id: usize| #[trigger]
            all_ids(local, remote).contains(id) <==> local.contains_key(id) || remote.contains_key(
                id,
            ),
        forall|i: int, j: int|
            0 <= i < j < all_ids(local, remote).len() ==> all_ids(local, remote)[i] < all_ids(
                local,
                remote,
            )[j],
{
    let s = local.dom().union(remote.dom());
    let leq = |a: usize, b: usize| a <= b;
    let canonical = s.to_seq();
    let ids = all_ids(local, remote);
    lemma_set_seq(s);
    assert(vstd::relations::total_ordering(leq));
    canonical.lemma_sort_by_ensures(leq);
    canonical.to_multiset_ensures();
    ids.to_multiset_ensures();
    canonical.lemma_multiset_has_no_duplicates();
    ids.lemma_multiset_has_no_duplicates_conv();
    assert forall|id: usize| #[trigger] ids.contains(id) <==> local.contains_key(id)
        || remote.contains_key(id) by {
        assert(ids.contains(id) <==> ids.to_multiset().contains(id));
        assert(canonical.contains(id) <==> canonical.to_multiset().contains(id));
        assert(canonical.to_set().contains(id) <==> s.contains(id));
    }
    assert forall|i: int, j: int| 0 <= i < j < ids.len() implies ids[i] < ids[j] by {
        assert(leq(ids[i], ids[j]));
        assert(ids[i] != ids[j]);
    }
}

/// The lines that `f` and then `g` give for each of `ids`.
spec fn blocks(
    ids: Seq<usize>,
    f: spec_fn(usize) -> Seq<Seq<char>>,
    g: spec_fn(usize) -> Seq<Seq<char>>,
) -> Seq<Seq<char>>
    decreases ids.len(),
{
    if ids.len() == 0 {
        Seq::empty()
    } else {
        blocks(ids.drop_last(), f, g) + f(ids.last()) + g(ids.last())
    }
}

proof fn lemma_blocks_at(
    ids: Seq<usize>,
    k: int,
    f: spec_fn(usize) -> Seq<Seq<char>>,
    g: spec_fn(usize) -> Seq<Seq<char>>,
)
    requires
        0 <= k < ids.len(),
    ensures
        ({
            let all = blocks(ids, f, g);
            let at = blocks(ids.take(k), f, g).len() as int;
            let a = f(ids[k]);
            let b = g(ids[k]);
            &&& at + a.len() + b.len() <= all.len()
            &&& forall|j: int| 0 <= j < a.len() ==> all[at + j] == #[trigger] a[j]
            &&& forall|j: int| 0 <= j < b.len() ==> all[at + a.len() + j] == #[trigger] b[j]
            &&& forall|l: int|
                k < l <= ids.len() ==> at + a.len() + b.len() <= (#[trigger] blocks(
                    ids.take(l),
                    f,
                    g,
                )).len()
        }),
    decreases ids.len(),
{
    let all = blocks(ids, f, g);
    let rest = ids.drop_last();
    let at = blocks(ids.take(k), f, g).len() as int;
    let a = f(ids[k]);
    let b = g(ids[k]);
    assert(ids.take(ids.len() as int) =~= ids);
    if k == ids.len() - 1 {
        assert(ids.take(k) =~= rest);
    } else {
        lemma_blocks_at(rest, k, f, g);
        assert(rest.take(k) =~= ids.take(k));
        let before = blocks(rest, f, g);
        assert forall|j: int| 0 <= j < a.len() implies all[at + j] == #[trigger] a[j] by {
            assert(before[at + j] == a[j]);
        }
        assert forall|j: int| 0 <= j < b.len() implies all[at + a.len() + j]
            == #[trigger] b[j] by {
            assert(before[at + a.len() + j] == b[j]);
        }
        assert forall|l: int| k < l <= ids.len() implies at + a.len() + b.len() <= (
        #[trigger] blocks(ids.take(l), f, g)).len() by {
            if l < ids.len() {
                assert(rest.take(l) =~= ids.take(l));
            }
        }
    }
}

/// Of two blocks that are not the same, the one of the smaller number, or of the same number
/// and `f`, comes first.
proof fn lemma_blocks_in_order(
    ids: Seq<usize>,
    f: spec_fn(usize) -> Seq<Seq<char>>,
    g: spec_fn(usize) -> Seq<Seq<char>>,
    k: int,
    k_is_f: bool,
    l: int,
    l_is_f: bool,
    rule: Seq<char>,
) -> (at: (int, int))
    requires
        0 <= k <= l < ids.len(),
        k < l || (k_is_f && !l_is_f),
        (if k_is_f {
            f(ids[k])
        } else {
            g(ids[k])
        }).len() > 0,
        (if l_is_f {
            f(ids[l])
        } else {
            g(ids[l])
        }).len() > 0,
    ensures
        ({
            let table = seq![rule] + blocks(ids, f, g);
            &&& 0 <= at.0 < at.1 < table.len()
            &&& table[at.0] == (if k_is_f {
                f(ids[k])
            } else {
                g(ids[k])
            })[0]
            &&& table[at.1] == (if l_is_f {
                f(ids[l])
            } else {
                g(ids[l])
            })[0]
        }),
{
    lemma_blocks_at(ids, k, f, g);
    lemma_blocks_at(ids, l, f, g);
    let all = blocks(ids, f, g);
    let ak = blocks(ids.take(k), f, g).len() as int;
    let al = blocks(ids.take(l), f, g).len() as int;
    let i = if k_is_f {
        ak
    } else {
        ak + f(ids[k]).len()
    };
    let j = if l_is_f {
        al
    } else {
        al + f(ids[l]).len()
    };
    let x = if k_is_f {
        f(ids[k])
    } else {
        g(ids[k])
    };
    let y = if l_is_f {
        f(ids[l])
    } else {
        g(ids[l])
    };
    assert(all[i] == x[0]) by {
        assert(all[i + 0] == x[0]);
    }
    assert(all[j] == y[0]) by {
        assert(all[j + 0] == y[0]);
    }
    assert(i < j);
    let table = seq![rule] + all;
    assert(table[i + 1] == all[i]);
    assert(table[j + 1] == all[j]);
    (i + 1, j + 1)
}

/// Where a block stands behind the rule.
proof fn lemma_block_behind_rule(
    ids: Seq<usize>,
    f: spec_fn(usize) -> Seq<Seq<char>>,
    g: spec_fn(usize) -> Seq<Seq<char>>,
    k: int,
    is_f: bool,
    x: Seq<Seq<char>>,
    rule: Seq<char>,
) -> (at: int)
    requires
        0 <= k < ids.len(),
        is_f ==> x == f(ids[k]),
        !is_f ==> x == g(ids[k]),
    ensures
        ({
            let table = seq![rule] + blocks(ids, f, g);
            &&& 0 <= at
            &&& at + x.len() <= table.len()
            &&& forall|j: int| 0 <= j < x.len() ==> table[at + j] == #[trigger] x[j]
        }),
{
    lemma_blocks_at(ids, k, f, g);
    let all = blocks(ids, f, g);
    let first = blocks(ids.take(k), f, g).len() as int;
    let table = seq![rule] + all;
    let at = if is_f {
        first
    } else {
        first + f(ids[k]).len()
    };
    assert forall|j: int| 0 <= j < x.len() implies table[at + 1 + j] == #[trigger] x[j] by {
        assert(all[at + j] == x[j]);
        assert(table[at + 1 + j] == all[at + j]);
    }
    at + 1
}

/// The lines of each stream on one side.
spec fn lines_of(streams: Map<usize, StreamStats>) -> spec_fn(usize) -> Seq<Seq<char>> {
    |id: usize| side_texts(id, streams)
}

proof fn lemma_streams_are_blocks(
    ids: Seq<usize>,
    local: Map<usize, StreamStats>,
    remote: Map<usize, StreamStats>,
)
    ensures
        streams_texts(ids, local, remote) == blocks(ids, lines_of(local), lines_of(remote)),
    decreases ids.len(),
{
    if ids.len() > 0 {
        lemma_streams_are_blocks(ids.drop_last(), local, remote);
    }
}

proof fn lemma_lines_with_figures(id: usize, streams: Map<usize, StreamStats>)
    requires
        has_figures(id, streams),
    ensures
        ({
            let x = lines_of(streams)(id);
            let lat = streams[id].latency->0;
            &&& x.len() > 0
            &&& x[0] == figures_line(id, streams)
            &&& lat.throughput_bps.count > 0 ==> x.len() == 2 && x[1] == goodput_text(lat)
        }),
{
}

/// The line that the table starts with.
spec fn rule() -> Seq<char> {
    "- - - - - - - - - latency under load - - - - - - - - -"@
}

proof fn lemma_table_is_blocks(local: Map<usize, StreamStats>, remote: Map<usize, StreamStats>)
    requires
        any_latency(local) || any_latency(remote),
    ensures
        latency_texts(local, remote) == seq![rule()] + blocks(
            all_ids(local, remote),
            lines_of(local),
            lines_of(remote),
        ),
{
    lemma_streams_are_blocks(all_ids(local, remote), local, remote);
}

/// The table is empty exactly where no stream of either side has figures.
pub proof fn law_table_is_empty_only_without_figures(
    local: Map<usize, StreamStats>,
    remote: Map<usize, StreamStats>,
)
    ensures
        latency_texts(local, remote).len() == 0 <==> (forall|id: usize|
            !#[trigger] has_figures(id, local)) && (forall|id: usize|
            !#[trigger] has_figures(id, remote)),
{
    lemma_any_is_some_figure(local);
    lemma_any_is_some_figure(remote);
}

proof fn lemma_any_is_some_figure(streams: Map<usize, StreamStats>)
    ensures
        any_latency(streams) <==> exists|id: usize| #[trigger] has_figures(id, streams),
{
    if any_latency(streams) {
        let id = choose|id: usize| #[trigger]
            streams.contains_key(id) && streams[id].latency is Some;
        assert(has_figures(id, streams));
    }
    if exists|id: usize| #[trigger] has_figures(id, streams) {
        let id = choose|id: usize| #[trigger] has_figures(id, streams);
        assert(streams.contains_key(id));
    }
}

/// Wherever a side has figures of a stream, whichever side it is and whatever the other has,
/// the table holds their line, and behind it the goodput line where goodput was measured.
pub proof fn law_table_has_every_figure(
    local: Map<usize, StreamStats>,
    remote: Map<usize, StreamStats>,
    id: usize,
)
    requires
        local.dom().finite(),
        remote.dom().finite(),
    ensures
        has_figures(id, local) ==> {
            &&& latency_texts(local, remote).contains(figures_line(id, local))
            &&& local[id].latency->0.throughput_bps.count > 0 ==> right_in_front(
                latency_texts(local, remote),
                figures_line(id, local),
                goodput_text(local[id].latency->0),
            )
        },
        has_figures(id, remote) ==> {
            &&& latency_texts(local, remote).contains(figures_line(id, remote))
            &&& remote[id].latency->0.throughput_bps.count > 0 ==> right_in_front(
                latency_texts(local, remote),
                figures_line(id, remote),
                goodput_text(remote[id].latency->0),
            )
        },
{
    lemma_all_ids(local, remote);
    let ids = all_ids(local, remote);
    let table = latency_texts(local, remote);
    let f = lines_of(local);
    let g = lines_of(remote);
    lemma_any_is_some_figure(local);
    lemma_any_is_some_figure(remote);
    if has_figures(id, local) {
        assert(ids.contains(id));
        let k = choose|k: int| 0 <= k < ids.len() && ids[k] == id;
        lemma_table_is_blocks(local, remote);
        lemma_lines_with_figures(id, local);
        let at = lemma_block_behind_rule(ids, f, g, k, true, f(id), rule());
        assert(table[at + 0] == f(id)[0]);
        assert(f(id).len() > 1 ==> table[at + 1] == f(id)[1]);
        assert(table[at] == figures_line(id, local));
    }
    if has_figures(id, remote) {
        assert(ids.contains(id));
        let k = choose|k: int| 0 <= k < ids.len() && ids[k] == id;
        lemma_table_is_blocks(local, remote);
        lemma_lines_with_figures(id, remote);
        let at = lemma_block_behind_rule(ids, f, g, k, false, g(id), rule());
        assert(table[at + 0] == g(id)[0]);
        assert(g(id).len() > 1 ==> table[at + 1] == g(id)[1]);
        assert(table[at] == figures_line(id, remote));
    }
}

/// The lines of the table come by stream, in ascending order, and of a stream this side's
/// come before the other's.
pub proof fn law_table_is_in_order(
    local: Map<usize, StreamStats>,
    remote: Map<usize, StreamStats>,
    a: usize,
    b: usize,
)
    requires
        local.dom().finite(),
        remote.dom().finite(),
        a <= b,
    ensures
        ({
            let table = latency_texts(local, remote);
            &&& has_figures(a, local) && has_figures(b, remote) ==> in_front(
                table,
                figures_line(a, local),
                figures_line(b, remote),
            )
            &&& a < b && has_figures(a, local) && has_figures(b, local) ==> in_front(
                table,
                figures_line(a, local),
                figures_line(b, local),
            )
            &&& a < b && has_figures(a, remote) && has_figures(b, local) ==> in_front(
                table,
                figures_line(a, remote),
                figures_line(b, local),
            )
            &&& a < b && has_figures(a, remote) && has_figures(b, remote) ==> in_front(
                table,
                figures_line(a, remote),
                figures_line(b, remote),
            )
        }),
{
    if has_figures(a, local) && has_figures(b, remote) {
        lemma_in_order(local, remote, a, true, b, false);
    }
    if a < b && has_figures(a, local) && has_figures(b, local) {
        lemma_in_order(local, remote, a, true, b, true);
    }
    if a < b && has_figures(a, remote) && has_figures(b, local) {
        lemma_in_order(local, remote, a, false, b, true);
    }
    if a < b && has_figures(a, remote) && has_figures(b, remote) {
        lemma_in_order(local, remote, a, false, b, false);
    }
}

proof fn lemma_in_order(
    local: Map<usize, StreamStats>,
    remote: Map<usize, StreamStats>,
    a: usize,
    a_local: bool,
    b: usize,
    b_local: bool,
)
    requires
        local.dom().finite(),
        remote.dom().finite(),
        a < b || (a == b && a_local && !b_local),
        has_figures(
            a,
            if a_local {
                local
            } else {
                remote
            },
        ),
        has_figures(
            b,
            if b_local {
                local
            } else {
                remote
            },
        ),
    ensures
        in_front(
            latency_texts(local, remote),
            figures_line(
                a,
                if a_local {
                    local
                } else {
                    remote
                },
            ),
            figures_line(
                b,
                if b_local {
                    local
                } else {
                    remote
                },
            ),
        ),
{
    lemma_all_ids(local, remote);
    let ids = all_ids(local, remote);
    let table = latency_texts(local, remote);
    assert(ids.contains(a));
    assert(ids.contains(b));
    let k = choose|k: int| 0 <= k < ids.len() && ids[k] == a;
    let l = choose|l: int| 0 <= l < ids.len() && ids[l] == b;
    if a < b {
        assert(k < l) by {
            if l < k {
                assert(ids[l] < ids[k]);
            }
        }
    } else {
        assert(k == l) by {
            if k < l {
                assert(ids[k] < ids[l]);
            } else if l < k {
                assert(ids[l] < ids[k]);
            }
        }
    }
    let f = lines_of(local);
    let g = lines_of(remote);
    lemma_any_is_some_figure(local);
    lemma_any_is_some_figure(remote);
    lemma_table_is_blocks(local, remote);
    if a_local {
        lemma_lines_with_figures(a, local);
    } else {
        lemma_lines_with_figures(a, remote);
    }
    if b_local {
        lemma_lines_with_figures(b, local);
    } else {
        lemma_lines_with_figures(b, remote);
    }
    let (i, j) = lemma_blocks_in_order(ids, f, g, k, a_local, l, b_local, rule());
    assert(table[i] == figures_line(
        a,
        if a_local {
            local
        } else {
            remote
        },
    ));
    assert(table[j] == figures_line(
        b,
        if b_local {
            local
        } else {
            remote
        },
    ));
}

/// The line is one of those of a stream and side that has figures.
pub open spec fn is_line_of_side(
    line: Seq<char>,
    id: usize,
    streams: Map<usize, StreamStats>,
) -> bool {
    has_figures(id, streams) && (line == figures_line(id, streams) || (
    streams[id].latency->0.throughput_bps.count > 0 && line == goodput_text(
        streams[id].latency->0,
    )))
}

/// Which block a line comes from.
proof fn lemma_block_of_line(
    ids: Seq<usize>,
    f: spec_fn(usize) -> Seq<Seq<char>>,
    g: spec_fn(usize) -> Seq<Seq<char>>,
    i: int,
) -> (at: (usize, bool, int))
    requires
        0 <= i < blocks(ids, f, g).len(),
    ensures
        0 <= at.2,
        at.1 ==> at.2 < f(at.0).len() && blocks(ids, f, g)[i] == f(at.0)[at.2],
        !at.1 ==> at.2 < g(at.0).len() && blocks(ids, f, g)[i] == g(at.0)[at.2],
    decreases ids.len(),
{
    let rest = ids.drop_last();
    let before = blocks(rest, f, g);
    let a = f(ids.last());
    if i < before.len() {
        lemma_block_of_line(rest, f, g, i)
    } else if i < before.len() + a.len() {
        (ids.last(), true, i - before.len())
    } else {
        (ids.last(), false, i - before.len() - a.len())
    }
}

proof fn lemma_lines_of_side(id: usize, streams: Map<usize, StreamStats>, j: int)
    requires
        0 <= j < lines_of(streams)(id).len(),
    ensures
        is_line_of_side(lines_of(streams)(id)[j], id, streams),
{
}

/// Behind the rule the table has no other lines than those of streams and sides that have
/// figures, and a goodput line only where goodput was measured.
pub proof fn law_table_has_no_other_line(
    local: Map<usize, StreamStats>,
    remote: Map<usize, StreamStats>,
    i: int,
) -> (id: usize)
    requires
        1 <= i < latency_texts(local, remote).len(),
    ensures
        is_line_of_side(latency_texts(local, remote)[i], id, local) || is_line_of_side(
            latency_texts(local, remote)[i],
            id,
            remote,
        ),
{
    let ids = all_ids(local, remote);
    let f = lines_of(local);
    let g = lines_of(remote);
    lemma_table_is_blocks(local, remote);
    let (id, is_local, j) = lemma_block_of_line(ids, f, g, i - 1);
    assert(latency_texts(local, remote)[i] == blocks(ids, f, g)[i - 1]);
    if is_local {
        lemma_lines_of_side(id, local, j);
    } else {
        lemma_lines_of_side(id, remote, j);
    }
    id
}

/// The line of percentiles names the stream and shows each figure behind its name; what it
/// says of a sender and of a receiver differs only in the words for the two.
pub proof fn law_line_shows_each_percentile(id: usize, sender: bool, d: Dist)
    ensures
        ({
            let text = interval_text(id, sender, d);
            let other = interval_text(id, !sender, d);
            let none = Seq::<char>::empty();
            &&& shows(text, "["@, right_aligned(dec(id as nat), 3), "] "@)
            &&& shows(text, "  min "@, ns_text(d.min as nat), "  p50 "@)
            &&& shows(text, "  p50 "@, ns_text(d.p50 as nat), "  p90 "@)
            &&& shows(text, "  p90 "@, ns_text(d.p90 as nat), "  p99 "@)
            &&& shows(text, "  p99 "@, ns_text(d.p99 as nat), "  p100 "@)
            &&& shows(text, "  p100 "@, ns_text(d.p100 as nat), "  mean "@)
            &&& shows(text, "  mean "@, ns_text(d.mean as nat), none)
            &&& sender ==> shows(text, "] "@, "write-stall  (sender)  "@, "  min "@)
            &&& !sender ==> shows(text, "] "@, "arrival-gap  (receiver)"@, "  min "@)
            &&& text.len() == other.len()
            &&& text.skip(26 + right_aligned(dec(id as nat), 3).len() as int) == other.skip(
                26 + right_aligned(dec(id as nat), 3).len() as int,
            )
        }),
{
    reveal_strlit("[");
    reveal_strlit("] ");
    reveal_strlit("write-stall  (sender)  ");
    reveal_strlit("arrival-gap  (receiver)");
    let text = interval_text(id, sender, d);
    let none = Seq::<char>::empty();
    let number = right_aligned(dec(id as nat), 3);
    let name = interval_name(sender);
    let min = ns_text(d.min as nat);
    let p50 = ns_text(d.p50 as nat);
    let p90 = ns_text(d.p90 as nat);
    let p99 = ns_text(d.p99 as nat);
    let p100 = ns_text(d.p100 as nat);
    let mean = ns_text(d.mean as nat);
    let a0 = "["@ + number + "] "@ + name;
    let a1 = a0 + "  min "@ + min;
    let a2 = a1 + "  p50 "@ + p50;
    let a3 = a2 + "  p90 "@ + p90;
    let a4 = a3 + "  p99 "@ + p99;
    let a5 = a4 + "  p100 "@ + p100;
    let b4 = p100 + "  mean "@ + mean;
    let b3 = p99 + "  p100 "@ + b4;
    let b2 = p90 + "  p99 "@ + b3;
    let b1 = p50 + "  p90 "@ + b2;
    let b0 = min + "  p50 "@ + b1;
    lemma_peel(text, a4, "  p100 "@, p100, "  mean "@, mean);
    lemma_peel(text, a3, "  p99 "@, p99, "  p100 "@, b4);
    lemma_peel(text, a2, "  p90 "@, p90, "  p99 "@, b3);
    lemma_peel(text, a1, "  p50 "@, p50, "  p90 "@, b2);
    lemma_peel(text, a0, "  min "@, min, "  p50 "@, b1);
    lemma_peel(text, "["@ + number, "] "@, name, "  min "@, b0);
    assert(none + "["@ + number =~= "["@ + number);
    lemma_peel(text, none, "["@, number, "] "@, name + "  min "@ + b0);
    lemma_shows(text, a5, "  mean "@, mean, none, none);
    let other = interval_text(id, !sender, d);
    let c0 = "["@ + number + "] "@ + interval_name(!sender);
    let c1 = c0 + "  min "@ + min;
    let c2 = c1 + "  p50 "@ + p50;
    let c3 = c2 + "  p90 "@ + p90;
    let c4 = c3 + "  p99 "@ + p99;
    lemma_peel(other, c4, "  p100 "@, p100, "  mean "@, mean);
    lemma_peel(other, c3, "  p99 "@, p99, "  p100 "@, b4);
    lemma_peel(other, c2, "  p90 "@, p90, "  p99 "@, b3);
    lemma_peel(other, c1, "  p50 "@, p50, "  p90 "@, b2);
    lemma_peel(other, c0, "  min "@, min, "  p50 "@, b1);
    lemma_same_tail(a0, c0, "  min "@ + b0);
    assert(a0 + "  min "@ + b0 =~= a0 + ("  min "@ + b0));
    assert(c0 + "  min "@ + b0 =~= c0 + ("  min "@ + b0));
    assert(a0.len() == 26 + number.len());
}

proof fn lemma_same_tail(a: Seq<char>, b: Seq<char>, tail: Seq<char>)
    requires
        a.len() == b.len(),
    ensures
        (a + tail).skip(a.len() as int) == (b + tail).skip(a.len() as int),
{
    assert((a + tail).skip(a.len() as int) =~= tail);
    assert((b + tail).skip(a.len() as int) =~= tail);
}

/// The goodput line shows each figure of the windows behind its name, and the number of
/// samples, the cost of reading the clock and what was dropped in the warm-up.
pub proof fn law_goodput_line_shows_each_figure(lat: LatencyStats)
    ensures
        ({
            let text = goodput_text(lat);
            let t = lat.throughput_bps;
            &&& shows(text, " min "@, bps_text(t.min as nat), "  p50 "@)
            &&& shows(text, "  p50 "@, bps_text(t.p50 as nat), "  p99 "@)
            &&& shows(text, "  p99 "@, bps_text(t.p99 as nat), "  max "@)
            &&& shows(text, "  max "@, bps_text(t.p100 as nat), "   [n="@)
            &&& shows(text, "   [n="@, dec(lat.interval_ns.count as nat), ", clock~"@)
            &&& shows(text, ", clock~"@, ns_text(lat.clock_baseline_ns as nat), ", warmup-drop="@)
            &&& shows(text, ", warmup-drop="@, dec(lat.warmup_discarded as nat), "]"@)
        }),
{
    reveal_strlit("      goodput/10ms          min ");
    reveal_strlit("      goodput/10ms         ");
    reveal_strlit(" min ");
    let text = goodput_text(lat);
    let none = Seq::<char>::empty();
    let t = lat.throughput_bps;
    let min = bps_text(t.min as nat);
    let p50 = bps_text(t.p50 as nat);
    let p99 = bps_text(t.p99 as nat);
    let p100 = bps_text(t.p100 as nat);
    let n = dec(lat.interval_ns.count as nat);
    let clock = ns_text(lat.clock_baseline_ns as nat);
    let dropped = dec(lat.warmup_discarded as nat);
    let head = "      goodput/10ms         "@;
    assert("      goodput/10ms          min "@ =~= head + " min "@);
    let a1 = head + " min "@ + min;
    let a2 = a1 + "  p50 "@ + p50;
    let a3 = a2 + "  p99 "@ + p99;
    let a4 = a3 + "  max "@ + p100;
    let a5 = a4 + "   [n="@ + n;
    let a6 = a5 + ", clock~"@ + clock;
    let b6 = dropped + "]"@;
    let b5 = clock + ", warmup-drop="@ + b6;
    let b4 = n + ", clock~"@ + b5;
    let b3 = p100 + "   [n="@ + b4;
    let b2 = p99 + "  max "@ + b3;
    let b1 = p50 + "  p99 "@ + b2;
    assert(text == a6 + ", warmup-drop="@ + dropped + "]"@);
    assert(a6 + ", warmup-drop="@ + dropped + "]"@ =~= a6 + ", warmup-drop="@ + b6);
    lemma_peel(text, a5, ", clock~"@, clock, ", warmup-drop="@, b6);
    lemma_peel(text, a4, "   [n="@, n, ", clock~"@, b5);
    lemma_peel(text, a3, "  max "@, p100, "   [n="@, b4);
    lemma_peel(text, a2, "  p99 "@, p99, "  max "@, b3);
    lemma_peel(text, a1, "  p50 "@, p50, "  p99 "@, b2);
    lemma_peel(text, head, " min "@, min, "  p50 "@, b1);
    lemma_shows(text, a6, ", warmup-drop="@, dropped, "]"@, none);
}

} // verus!
