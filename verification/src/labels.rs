//! Labels shown beside commands: stale, new, hot and top.

use vstd::prelude::*;
use crate::dates::{
    date_since_fits, date_since_fits_check, day_string, days_ago_from, days_since, days_since_spec, epoch_date_string,
    lemma_epoch_date_roundtrip, today_str,
};
use crate::history::HistoryEntry;
use crate::sorting::{order_by_keys, sorted_positions};
use crate::stats::{
    all_selected_commands, count_in, days_of, dedup, first_seen_of, flat_pairs, keys_of, range_sum,
    range_sum_at_most, selections_in_range, Stats,
};
use crate::strmap::{
    alist_get, lemma_alist_get_push, lemma_alist_set_get, lemma_string_pairs_get, StrMap,
};
use crate::text::{dec, fmt_u64, lex_le, push_str, string_push, to_string_of};

verus! {

#[derive(Debug, Clone, Copy, PartialEq, Eq, Structural)]
pub enum Label {
    Stale,
    New,
    Hot { count: u32 },
    Top { count: u32 },
}

/// The text shown for a label: an emoji, with the count for hot and top.
pub open spec fn label_text(l: Label) -> Seq<char> {
    match l {
        Label::Stale => "💤"@,
        Label::New => "✅"@,
        Label::Hot { count } => "🔥"@ + dec(count as nat),
        Label::Top { count } => "⭐"@ + dec(count as nat),
    }
}

impl Label {
    /// The text shown for the label: an emoji, with the count for hot and top.
    pub fn display(&self) -> (s: String)
        ensures
            s@ == label_text(*self),
    {
        match self {
            Label::Stale => to_string_of("💤"),
            Label::New => to_string_of("✅"),
            Label::Hot { count } => {
                let mut s = to_string_of("🔥");
                let n = fmt_u64(*count as u64);
                push_str(&mut s, n.as_str());
                s
            },
            Label::Top { count } => {
                let mut s = to_string_of("⭐");
                let n = fmt_u64(*count as u64);
                push_str(&mut s, n.as_str());
                s
            },
        }
    }

    pub fn is_stale(&self) -> (b: bool)
        ensures
            b == (*self is Stale),
    {
        match self {
            Label::Stale => true,
            _ => false,
        }
    }
}

// ── What the labels are ────────────────────────────────────────────────

/// The date `n` days before day number `now_secs / 86400`.
pub open spec fn day_before(now_secs: int, n: int) -> Seq<char> {
    day_string(now_secs / 86400 - n)
}

/// The selection window queries of the labels, per command.
pub open spec fn sel_30d(stats: Stats, now_secs: int, c: Seq<char>) -> int {
    range_sum(days_of(stats.daily_selections), c, day_before(now_secs, 30), epoch_date_string(now_secs))
}

pub open spec fn sel_7d(stats: Stats, now_secs: int, c: Seq<char>) -> int {
    range_sum(days_of(stats.daily_selections), c, day_before(now_secs, 7), epoch_date_string(now_secs))
}

pub open spec fn sel_prev_7d(stats: Stats, now_secs: int, c: Seq<char>) -> int {
    range_sum(days_of(stats.daily_selections), c, day_before(now_secs, 14), day_before(now_secs, 8))
}

/// The computations of the labels stay within their integer types.
pub open spec fn labels_fit(stats: Stats, now_secs: int) -> bool {
    &&& first_seen_fit(stats, now_secs)
    &&& forall|c: Seq<char>| #[trigger] sel_30d(stats, now_secs, c) <= u32::MAX
    &&& forall|c: Seq<char>| #[trigger] sel_7d(stats, now_secs, c) <= u32::MAX
    &&& forall|c: Seq<char>| 2 * #[trigger] sel_prev_7d(stats, now_secs, c) <= u32::MAX
}

/// First seen more than 14 days ago.
pub open spec fn seen_long_ago(stats: Stats, now_secs: int, c: Seq<char>) -> bool {
    match alist_get(first_seen_of(stats.first_seen), c) {
        Some(date) => match days_since_spec(date, now_secs) {
            Some(k) => k > 14,
            None => false,
        },
        None => false,
    }
}

/// STALE: history frequency at most 2, first seen over 14 days ago, not
/// selected in the last 30 days.
pub open spec fn stale_entry(stats: Stats, now_secs: int, e: HistoryEntry) -> bool {
    e.frequency <= 2 && seen_long_ago(stats, now_secs, e.command@) && sel_30d(stats, now_secs, e.command@) == 0
}

pub open spec fn stale_writes(stats: Stats, now_secs: int, es: Seq<HistoryEntry>) -> Seq<(Seq<char>, Label)>
    decreases es.len(),
{
    if es.len() == 0 {
        Seq::empty()
    } else {
        let r = stale_writes(stats, now_secs, es.drop_last());
        if stale_entry(stats, now_secs, es.last()) {
            r.push((es.last().command@, Label::Stale))
        } else {
            r
        }
    }
}

/// The commands selected on any day, in order of first appearance.
pub open spec fn selected_cmds(stats: Stats) -> Seq<Seq<char>> {
    dedup(keys_of(flat_pairs(days_of(stats.daily_selections))))
}

/// The first command with the most selections in the last 30 days (if any was selected).
pub open spec fn top_of(stats: Stats, now_secs: int, cs: Seq<Seq<char>>) -> Option<(Seq<char>, int)>
    decreases cs.len(),
{
    if cs.len() == 0 {
        None
    } else {
        let r = top_of(stats, now_secs, cs.drop_last());
        let v = sel_30d(stats, now_secs, cs.last());
        let best = match r {
            Some(p) => p.1,
            None => 0,
        };
        if v > 0 && v > best {
            Some((cs.last(), v))
        } else {
            r
        }
    }
}

/// TOP: the most selected command of the last 30 days.
pub open spec fn top_writes(stats: Stats, now_secs: int) -> Seq<(Seq<char>, Label)> {
    match top_of(stats, now_secs, selected_cmds(stats)) {
        Some((c, n)) => seq![(c, Label::Top { count: n as u32 })],
        None => Seq::empty(),
    }
}

/// NEW: first seen within a day.
pub open spec fn new_writes(now_secs: int, fs: Seq<(Seq<char>, Seq<char>)>) -> Seq<(Seq<char>, Label)>
    decreases fs.len(),
{
    if fs.len() == 0 {
        Seq::empty()
    } else {
        let r = new_writes(now_secs, fs.drop_last());
        match days_since_spec(fs.last().1, now_secs) {
            Some(k) => if k <= 1 { r.push((fs.last().0, Label::New)) } else { r },
            None => r,
        }
    }
}

/// `c` has a first-seen date at most a day before now.
pub open spec fn recently_seen(now_secs: int, fs: Seq<(Seq<char>, Seq<char>)>, c: Seq<char>) -> bool {
    exists|j: int| 0 <= j < fs.len() && #[trigger] fs[j].0 == c && (days_since_spec(fs[j].1, now_secs) matches Some(k) && k <= 1)
}

/// HOT by selection trend: at least 5 selections in the last 7 days, and at
/// least twice as many as in the 7 days before.
pub open spec fn trend_writes(stats: Stats, now_secs: int, cs: Seq<Seq<char>>) -> Seq<(Seq<char>, Label)>
    decreases cs.len(),
{
    if cs.len() == 0 {
        Seq::empty()
    } else {
        let r = trend_writes(stats, now_secs, cs.drop_last());
        let c = cs.last();
        let recent = sel_7d(stats, now_secs, c);
        if recent >= 5 && recent >= 2 * sel_prev_7d(stats, now_secs, c) {
            r.push((c, Label::Hot { count: recent as u32 }))
        } else {
            r
        }
    }
}

/// Commands whose history frequency grew between the two snapshots, with the increase.
pub open spec fn increases(curr: Seq<(Seq<char>, usize)>, prev: Seq<(Seq<char>, usize)>) -> Seq<(Seq<char>, usize)>
    decreases curr.len(),
{
    if curr.len() == 0 {
        Seq::empty()
    } else {
        let r = increases(curr.drop_last(), prev);
        let (c, f) = curr.last();
        let pf: usize = match alist_get(prev, c) {
            Some(v) => v,
            None => 0,
        };
        if f > pf {
            r.push((c, (f - pf) as usize))
        } else {
            r
        }
    }
}

/// How many of the largest increases count as the top 5%: `ceil(n / 20)`.
pub open spec fn top_count(n: int) -> int {
    n / 20 + (if n % 20 != 0 { 1int } else { 0int })
}

/// The increase amounts, as sort keys.
pub open spec fn inc_keys(incs: Seq<(Seq<char>, usize)>) -> Seq<u128> {
    incs.map_values(|p: (Seq<char>, usize)| p.1 as u128)
}

pub open spec fn zero_keys(n: nat) -> Seq<u128> {
    Seq::new(n, |i: int| 0u128)
}

/// The smallest increase among the top 5% largest.
pub open spec fn spike_threshold(incs: Seq<(Seq<char>, usize)>) -> int {
    incs[sorted_positions(inc_keys(incs), zero_keys(incs.len()))[top_count(incs.len() as int) - 1]].1 as int
}

pub open spec fn spike_writes_from(incs: Seq<(Seq<char>, usize)>, threshold: int) -> Seq<(Seq<char>, Label)>
    decreases incs.len(),
{
    if incs.len() == 0 {
        Seq::empty()
    } else {
        let r = spike_writes_from(incs.drop_last(), threshold);
        let (c, inc) = incs.last();
        if inc >= 3 && inc >= threshold {
            r.push((c, Label::Hot { count: inc as u32 }))
        } else {
            r
        }
    }
}

/// HOT by history spike: the increase since the previous snapshot is at
/// least 3 and among the top 5%.
pub open spec fn spike_writes(stats: Stats) -> Seq<(Seq<char>, Label)> {
    match (stats.history_snapshot, stats.prev_snapshot) {
        (Some(curr), Some(prev)) => {
            let incs = increases(curr.frequencies@, prev.frequencies@);
            if incs.len() == 0 {
                Seq::empty()
            } else {
                spike_writes_from(incs, spike_threshold(incs))
            }
        },
        _ => Seq::empty(),
    }
}

/// Every label given, in order; a later one replaces an earlier one for the
/// same command (hot over new over top over stale).
pub open spec fn label_writes(stats: Stats, entries: Seq<HistoryEntry>, now_secs: int) -> Seq<(Seq<char>, Label)> {
    stale_writes(stats, now_secs, entries) + top_writes(stats, now_secs) + new_writes(
        now_secs,
        first_seen_of(stats.first_seen),
    ) + trend_writes(stats, now_secs, selected_cmds(stats)) + spike_writes(stats)
}

/// The label of `c`: the last one given to it.
pub open spec fn label_of(stats: Stats, entries: Seq<HistoryEntry>, now_secs: int, c: Seq<char>) -> Option<Label> {
    alist_get(label_writes(stats, entries, now_secs), c)
}


// ── Computing them ─────────────────────────────────────────────────────

/// The date `n` days before today, from today's date string.
pub(crate) fn day_before_str(today: &str, n: i64, now_secs: u64) -> (s: String)
    requires
        today@ == epoch_date_string(now_secs as int),
        0 <= n <= 30,
    ensures
        s@ == day_before(now_secs as int, n as int),
{
    proof {
        lemma_epoch_date_roundtrip(now_secs as int);
    }
    match days_ago_from(today, n) {
        Some(s) => s,
        None => String::new(),
    }
}

/// Gives `c` the label `l`, keeping the labels equal to the writes so far.
fn give_label(labels: &mut StrMap<Label>, c: String, l: Label, Ghost(w): Ghost<Seq<(Seq<char>, Label)>>)
    requires
        forall|q: Seq<char>| #[trigger] alist_get(old(labels)@, q) == alist_get(w, q),
    ensures
        forall|q: Seq<char>| #[trigger] alist_get(final(labels)@, q) == alist_get(w.push((c@, l)), q),
{
    let ghost before = labels@;
    let ghost k = c@;
    proof {
        use_type_invariant(&*labels);
    }
    labels.insert(c, l);
    proof {
        assert forall|q: Seq<char>| #[trigger] alist_get(labels@, q) == alist_get(w.push((k, l)), q) by {
            lemma_alist_set_get(before, k, l, q);
            lemma_alist_get_push(w, k, l, q);
        }
    }
}

/// Whether the history entry `e` is stale.
fn entry_is_stale(stats: &Stats, e: &HistoryEntry, now_secs: u64, today: &str, from_30d: &str) -> (b: bool)
    requires
        today@ == epoch_date_string(now_secs as int),
        from_30d@ == day_before(now_secs as int, 30),
        first_seen_fit(*stats, now_secs as int),
        forall|c: Seq<char>| #[trigger] sel_30d(*stats, now_secs as int, c) <= u32::MAX,
    ensures
        b == stale_entry(*stats, now_secs as int, *e),
{
    let ghost now = now_secs as int;
    let ghost fs = first_seen_of(stats.first_seen);
    if e.frequency > 2 {
        return false;
    }
    proof {
        lemma_string_pairs_get(stats.first_seen@, e.command@);
    }
    let old_enough = match stats.first_seen.get(e.command.as_str()) {
        Some(date) => {
            proof {
                crate::strmap::lemma_alist_get_some(fs, e.command@);
                let j = choose|j: int| 0 <= j < fs.len() && fs[j].0 == e.command@ && fs[j].1 == alist_get(fs, e.command@).unwrap();
                assert(date_since_fits(fs[j].1, now));
            }
            match days_since(date.as_str(), now_secs) {
                Some(k) => k > 14,
                None => false,
            }
        },
        None => false,
    };
    if !old_enough {
        return false;
    }
    proof {
        assert(sel_30d(*stats, now, e.command@) <= u32::MAX);
    }
    let recent = selections_in_range(&stats.daily_selections, e.command.as_str(), from_30d, today);
    recent == 0
}

/// Dates of `first_seen` can be compared with today.
pub open spec fn first_seen_fit(stats: Stats, now_secs: int) -> bool {
    forall|i: int| 0 <= i < stats.first_seen@.len() ==>
        date_since_fits(#[trigger] first_seen_of(stats.first_seen)[i].1, now_secs)
}

/// Applies the STALE labels of `entries`.
fn stale_phase(labels: &mut StrMap<Label>, stats: &Stats, entries: &[HistoryEntry], now_secs: u64, today: &str, from_30d: &str)
    requires
        old(labels)@.len() == 0,
        today@ == epoch_date_string(now_secs as int),
        from_30d@ == day_before(now_secs as int, 30),
        first_seen_fit(*stats, now_secs as int),
        forall|c: Seq<char>| #[trigger] sel_30d(*stats, now_secs as int, c) <= u32::MAX,
    ensures
        forall|c: Seq<char>| #[trigger] alist_get(final(labels)@, c) == alist_get(
            stale_writes(*stats, now_secs as int, entries@),
            c,
        ),
{
    let ghost now = now_secs as int;
    let mut i: usize = 0;
    assert(forall|c: Seq<char>| #[trigger] alist_get(labels@, c) == alist_get(stale_writes(*stats, now, entries@.take(0)), c));
    while i < entries.len()
        invariant
            now == now_secs as int,
            i <= entries@.len(),
            today@ == epoch_date_string(now),
            from_30d@ == day_before(now, 30),
            first_seen_fit(*stats, now),
            forall|c: Seq<char>| #[trigger] sel_30d(*stats, now, c) <= u32::MAX,
            forall|c: Seq<char>| #[trigger] alist_get(labels@, c) == alist_get(
                stale_writes(*stats, now, entries@.take(i as int)),
                c,
            ),
        decreases entries@.len() - i,
    {
        let e = &entries[i];
        let ghost w0 = stale_writes(*stats, now, entries@.take(i as int));
        proof {
            assert(entries@.take(i + 1).drop_last() =~= entries@.take(i as int));
            assert(entries@.take(i + 1).last() == *e);
        }
        if entry_is_stale(stats, e, now_secs, today, from_30d) {
            give_label(labels, e.command.clone(), Label::Stale, Ghost(w0));
        }
        i = i + 1;
    }
    assert(entries@.take(entries@.len() as int) =~= entries@);
}

/// The first command with the most selections in the last 30 days, with that count.
fn top_phase(stats: &Stats, all_cmds: &Vec<String>, now_secs: u64, today: &str, from_30d: &str) -> (r: Option<(usize, u32)>)
    requires
        all_cmds@.map_values(|x: String| x@) == selected_cmds(*stats),
        today@ == epoch_date_string(now_secs as int),
        from_30d@ == day_before(now_secs as int, 30),
        forall|c: Seq<char>| #[trigger] sel_30d(*stats, now_secs as int, c) <= u32::MAX,
    ensures
        match r {
            Some((j, n)) => j < all_cmds@.len() && top_of(*stats, now_secs as int, selected_cmds(*stats)) == Some((all_cmds@[j as int]@, n as int)),
            None => top_of(*stats, now_secs as int, selected_cmds(*stats)) is None,
        },
{
    let ghost now = now_secs as int;
    let ghost cmds = selected_cmds(*stats);
    let mut best: Option<(usize, u32)> = None;
    let mut k: usize = 0;
    while k < all_cmds.len()
        invariant
            now == now_secs as int,
            k <= all_cmds@.len() == cmds.len(),
            all_cmds@.map_values(|x: String| x@) == cmds,
            today@ == epoch_date_string(now),
            from_30d@ == day_before(now, 30),
            forall|c: Seq<char>| #[trigger] sel_30d(*stats, now, c) <= u32::MAX,
            match best {
                Some((j, n)) => j < k && top_of(*stats, now, cmds.take(k as int)) == Some((cmds[j as int], n as int)),
                None => top_of(*stats, now, cmds.take(k as int)) is None,
            },
        decreases all_cmds@.len() - k,
    {
        let cmd = &all_cmds[k];
        proof {
            assert(cmds[k as int] == cmd@);
            assert(cmds.take(k + 1).drop_last() =~= cmds.take(k as int));
            assert(cmds.take(k + 1).last() == cmd@);
        }
        proof {
            assert(sel_30d(*stats, now, cmd@) <= u32::MAX);
        }
        let count = selections_in_range(&stats.daily_selections, cmd.as_str(), from_30d, today);
        let better = match best {
            Some((_, n)) => count > n,
            None => count > 0,
        };
        if count > 0 && better {
            best = Some((k, count));
        }
        k = k + 1;
    }
    assert(cmds.take(cmds.len() as int) =~= cmds);
    match best {
        Some((j, n)) => {
            assert(cmds[j as int] == all_cmds@[j as int]@);
        },
        None => {},
    }
    best
}

/// Applies the NEW labels of `first_seen`.
fn new_phase(labels: &mut StrMap<Label>, stats: &Stats, now_secs: u64, Ghost(w0): Ghost<Seq<(Seq<char>, Label)>>)
    requires
        first_seen_fit(*stats, now_secs as int),
        forall|c: Seq<char>| #[trigger] alist_get(old(labels)@, c) == alist_get(w0, c),
    ensures
        forall|c: Seq<char>| #[trigger] alist_get(final(labels)@, c) == alist_get(
            w0 + new_writes(now_secs as int, first_seen_of(stats.first_seen)),
            c,
        ),
{
    let ghost now = now_secs as int;
    let ghost fs = first_seen_of(stats.first_seen);
    let mut i: usize = 0;
    let nfs = stats.first_seen.len();
    while i < nfs
        invariant
            now == now_secs as int,
            i <= nfs == fs.len() == stats.first_seen@.len(),
            fs == first_seen_of(stats.first_seen),
            first_seen_fit(*stats, now),
            forall|c: Seq<char>| #[trigger] alist_get(labels@, c) == alist_get(
                w0 + new_writes(now, fs.take(i as int)),
                c,
            ),
        decreases nfs - i,
    {
        let cmd = stats.first_seen.key_at(i);
        let date = stats.first_seen.value_at(i);
        let ghost w1 = w0 + new_writes(now, fs.take(i as int));
        proof {
            assert(fs.take(i + 1).drop_last() =~= fs.take(i as int));
            assert(fs[i as int] == (cmd@, date@));
            assert(fs.take(i + 1).last() == (cmd@, date@));
            assert(date_since_fits(fs[i as int].1, now));
        }
        let is_new = match days_since(date.as_str(), now_secs) {
            Some(days) => days <= 1,
            None => false,
        };
        if is_new {
            give_label(labels, cmd.clone(), Label::New, Ghost(w1));
            assert(w0 + new_writes(now, fs.take(i + 1)) =~= w1.push((cmd@, Label::New)));
        } else {
            assert(w0 + new_writes(now, fs.take(i + 1)) =~= w1);
        }
        i = i + 1;
    }
    assert(fs.take(nfs as int) =~= fs);
}

/// Applies the HOT labels of the selection trend.
fn trend_phase(labels: &mut StrMap<Label>, stats: &Stats, all_cmds: &Vec<String>, now_secs: u64, today: &str, Ghost(w0): Ghost<Seq<(Seq<char>, Label)>>)
    requires
        all_cmds@.map_values(|x: String| x@) == selected_cmds(*stats),
        today@ == epoch_date_string(now_secs as int),
        forall|c: Seq<char>| #[trigger] sel_7d(*stats, now_secs as int, c) <= u32::MAX,
        forall|c: Seq<char>| 2 * #[trigger] sel_prev_7d(*stats, now_secs as int, c) <= u32::MAX,
        forall|c: Seq<char>| #[trigger] alist_get(old(labels)@, c) == alist_get(w0, c),
    ensures
        forall|c: Seq<char>| #[trigger] alist_get(final(labels)@, c) == alist_get(
            w0 + trend_writes(*stats, now_secs as int, selected_cmds(*stats)),
            c,
        ),
{
    let ghost now = now_secs as int;
    let ghost cmds = selected_cmds(*stats);
    let from_7d = day_before_str(today, 7, now_secs);
    let from_14d = day_before_str(today, 14, now_secs);
    let prev_7d_end = day_before_str(today, 8, now_secs);
    let mut k: usize = 0;
    while k < all_cmds.len()
        invariant
            now == now_secs as int,
            k <= all_cmds@.len() == cmds.len(),
            all_cmds@.map_values(|x: String| x@) == cmds,
            today@ == epoch_date_string(now),
            from_7d@ == day_before(now, 7),
            from_14d@ == day_before(now, 14),
            prev_7d_end@ == day_before(now, 8),
            forall|c: Seq<char>| #[trigger] sel_7d(*stats, now, c) <= u32::MAX,
            forall|c: Seq<char>| 2 * #[trigger] sel_prev_7d(*stats, now, c) <= u32::MAX,
            forall|c: Seq<char>| #[trigger] alist_get(labels@, c) == alist_get(
                w0 + trend_writes(*stats, now, cmds.take(k as int)),
                c,
            ),
        decreases all_cmds@.len() - k,
    {
        let cmd = &all_cmds[k];
        let ghost w1 = w0 + trend_writes(*stats, now, cmds.take(k as int));
        proof {
            assert(cmds[k as int] == cmd@);
            assert(cmds.take(k + 1).drop_last() =~= cmds.take(k as int));
            assert(cmds.take(k + 1).last() == cmd@);
        }
        proof {
            assert(sel_7d(*stats, now, cmd@) <= u32::MAX);
            assert(2 * sel_prev_7d(*stats, now, cmd@) <= u32::MAX);
        }
        let recent = selections_in_range(&stats.daily_selections, cmd.as_str(), from_7d.as_str(), today);
        let prev = selections_in_range(&stats.daily_selections, cmd.as_str(), from_14d.as_str(), prev_7d_end.as_str());
        if recent >= 5 && recent >= prev * 2 {
            give_label(labels, cmd.clone(), Label::Hot { count: recent }, Ghost(w1));
            assert(w0 + trend_writes(*stats, now, cmds.take(k + 1)) =~= w1.push((cmd@, Label::Hot { count: recent })));
        } else {
            assert(w0 + trend_writes(*stats, now, cmds.take(k + 1)) =~= w1);
        }
        k = k + 1;
    }
    assert(cmds.take(cmds.len() as int) =~= cmds);
}

/// Labels for the commands of `stats` and of the history `entries`, as of
/// the clock reading `now_secs`.
pub fn compute_labels_with(stats: &Stats, entries: &[HistoryEntry], now_secs: u64) -> (r: StrMap<Label>)
    requires
        labels_fit(*stats, now_secs as int),
    ensures
        forall|c: Seq<char>| #[trigger] alist_get(r@, c) == label_of(*stats, entries@, now_secs as int, c),
{
    let ghost now = now_secs as int;
    let mut labels: StrMap<Label> = StrMap::new();
    let today = today_str(now_secs);
    let from_30d = day_before_str(today.as_str(), 30, now_secs);

    // 0. STALE (frequency <= 2, first seen over 14 days ago, not selected in 30 days)
    stale_phase(&mut labels, stats, entries, now_secs, today.as_str(), from_30d.as_str());
    let ghost w_stale = stale_writes(*stats, now, entries@);

    // 1. TOP (replaces STALE)
    let all_cmds = all_selected_commands(&stats.daily_selections);
    match top_phase(stats, &all_cmds, now_secs, today.as_str(), from_30d.as_str()) {
        Some((j, n)) => {
            let ghost before = labels@;
            let ghost c0 = all_cmds@[j as int]@;
            proof {
                use_type_invariant(&labels);
            }
            labels.insert(all_cmds[j].clone(), Label::Top { count: n });
            proof {
                assert(top_writes(*stats, now) == seq![(c0, Label::Top { count: n })]);
                assert(w_stale + top_writes(*stats, now) =~= w_stale.push((c0, Label::Top { count: n })));
                assert forall|c: Seq<char>| #[trigger] alist_get(labels@, c) == alist_get(
                    w_stale + top_writes(*stats, now),
                    c,
                ) by {
                    lemma_alist_set_get(before, c0, Label::Top { count: n }, c);
                    lemma_alist_get_push(w_stale, c0, Label::Top { count: n }, c);
                }
            }
        },
        None => {
            assert(w_stale + top_writes(*stats, now) =~= w_stale);
        },
    }
    let ghost w_top = w_stale + top_writes(*stats, now);

    // 2. NEW (replaces TOP)
    new_phase(&mut labels, stats, now_secs, Ghost(w_top));
    let ghost w_new = w_top + new_writes(now, first_seen_of(stats.first_seen));

    // 3. HOT by selection trend (replaces NEW and TOP)
    trend_phase(&mut labels, stats, &all_cmds, now_secs, today.as_str(), Ghost(w_new));
    let ghost w_trend = w_new + trend_writes(*stats, now, selected_cmds(*stats));

    // 4. HOT by history spike
    match (&stats.history_snapshot, &stats.prev_snapshot) {
        (Some(curr), Some(prev)) => {
            spike_phase(&mut labels, curr, prev, Ghost(w_trend));
        },
        _ => {
            assert(w_trend + spike_writes(*stats) =~= w_trend);
        },
    }
    labels
}

/// The increases of command frequencies from `prev` to `curr`.
fn increases_of(curr: &StrMap<usize>, prev: &StrMap<usize>) -> (r: Vec<(String, usize)>)
    ensures
        r@.map_values(|p: (String, usize)| (p.0@, p.1)) == increases(curr@, prev@),
{
    let mut r: Vec<(String, usize)> = Vec::new();
    let mut i: usize = 0;
    let n = curr.len();
    while i < n
        invariant
            i <= n == curr@.len(),
            r@.map_values(|p: (String, usize)| (p.0@, p.1)) == increases(curr@.take(i as int), prev@),
        decreases n - i,
    {
        let c = curr.key_at(i);
        let f = *curr.value_at(i);
        proof {
            assert(curr@.take(i + 1).drop_last() =~= curr@.take(i as int));
            assert(curr@.take(i + 1).last() == (c@, f));
        }
        let pf: usize = match prev.get(c.as_str()) {
            Some(v) => *v,
            None => 0,
        };
        let ghost before = r@.map_values(|p: (String, usize)| (p.0@, p.1));
        if f > pf {
            r.push((c.clone(), f - pf));
            assert(r@.map_values(|p: (String, usize)| (p.0@, p.1)) =~= before.push((c@, (f - pf) as usize)));
        }
        i = i + 1;
    }
    assert(curr@.take(n as int) =~= curr@);
    r
}

/// Labels HOT the commands whose frequency spiked between two snapshots.
fn spike_phase(labels: &mut StrMap<Label>, curr: &crate::stats::Snapshot, prev: &crate::stats::Snapshot, Ghost(w0): Ghost<Seq<(Seq<char>, Label)>>)
    requires
        forall|c: Seq<char>| #[trigger] alist_get(old(labels)@, c) == alist_get(w0, c),
    ensures
        forall|c: Seq<char>| #[trigger] alist_get(final(labels)@, c) == alist_get(
            w0 + ({
                let incs = increases(curr.frequencies@, prev.frequencies@);
                if incs.len() == 0 {
                    Seq::empty()
                } else {
                    spike_writes_from(incs, spike_threshold(incs))
                }
            }),
            c,
        ),
{
    let incs = increases_of(&curr.frequencies, &prev.frequencies);
    let ghost iv = increases(curr.frequencies@, prev.frequencies@);
    let n = incs.len();
    assert(iv.len() == n);
    if n == 0 {
        assert(w0 + Seq::<(Seq<char>, Label)>::empty() =~= w0);
        return;
    }
    let mut keys: Vec<u128> = Vec::new();
    let mut zeros: Vec<u128> = Vec::new();
    let mut i: usize = 0;
    while i < n
        invariant
            i <= n == incs@.len() == iv.len(),
            iv == incs@.map_values(|p: (String, usize)| (p.0@, p.1)),
            keys@ == inc_keys(iv).take(i as int),
            zeros@ == zero_keys(n as nat).take(i as int),
        decreases n - i,
    {
        keys.push(incs[i].1 as u128);
        zeros.push(0);
        i = i + 1;
        assert(keys@ =~= inc_keys(iv).take(i as int));
        assert(zeros@ =~= zero_keys(n as nat).take(i as int));
    }
    assert(keys@ =~= inc_keys(iv));
    assert(zeros@ =~= zero_keys(n as nat));
    let order = order_by_keys(&keys, &zeros);
    let top = n / 20 + if n % 20 != 0 { 1 } else { 0 };
    let threshold = incs[order[top - 1]].1;
    assert(threshold == spike_threshold(iv));
    let mut j: usize = 0;
    while j < n
        invariant
            j <= n == incs@.len() == iv.len(),
            iv == incs@.map_values(|p: (String, usize)| (p.0@, p.1)),
            threshold == spike_threshold(iv),
            forall|c: Seq<char>| #[trigger] alist_get(labels@, c) == alist_get(
                w0 + spike_writes_from(iv.take(j as int), threshold as int),
                c,
            ),
        decreases n - j,
    {
        let c = &incs[j].0;
        let inc = incs[j].1;
        let ghost w1 = w0 + spike_writes_from(iv.take(j as int), threshold as int);
        proof {
            assert(iv.take(j + 1).drop_last() =~= iv.take(j as int));
            assert(iv.take(j + 1).last() == (c@, inc));
        }
        if inc >= 3 && inc >= threshold {
            let count = #[verifier::truncate] (inc as u32);
            give_label(labels, c.clone(), Label::Hot { count }, Ghost(w1));
            assert(w0 + spike_writes_from(iv.take(j + 1), threshold as int) =~= w1.push((c@, Label::Hot { count })));
        } else {
            assert(w0 + spike_writes_from(iv.take(j + 1), threshold as int) =~= w1);
        }
        j = j + 1;
    }
    assert(iv.take(n as int) =~= iv);
}

/// Labels for the commands of `stats` alone.
pub fn compute_labels(stats: &Stats, now_secs: u64) -> (r: StrMap<Label>)
    requires
        labels_fit(*stats, now_secs as int),
    ensures
        forall|c: Seq<char>| #[trigger] alist_get(r@, c) == label_of(*stats, Seq::empty(), now_secs as int, c),
{
    let none: Vec<HistoryEntry> = Vec::new();
    let r = compute_labels_with(stats, none.as_slice(), now_secs);
    assert(none@ =~= Seq::<HistoryEntry>::empty());
    r
}

// ── Laws ───────────────────────────────────────────────────────────────

proof fn lemma_alist_get_concat<V>(a: Seq<(Seq<char>, V)>, b: Seq<(Seq<char>, V)>, c: Seq<char>)
    ensures
        alist_get(a + b, c) == (match alist_get(b, c) {
            Some(v) => Some(v),
            None => alist_get(a, c),
        }),
    decreases b.len(),
{
    if b.len() == 0 {
        assert(a + b =~= a);
    } else {
        assert((a + b).drop_last() =~= a + b.drop_last());
        assert((a + b).last() == b.last());
        lemma_alist_get_concat(a, b.drop_last(), c);
    }
}

proof fn lemma_trend_writes_hot(stats: Stats, now_secs: int, cs: Seq<Seq<char>>, c: Seq<char>)
    ensures
        alist_get(trend_writes(stats, now_secs, cs), c) matches Some(l) ==> l == (Label::Hot {
            count: sel_7d(stats, now_secs, c) as u32,
        }),
        cs.contains(c) && sel_7d(stats, now_secs, c) >= 5 && sel_7d(stats, now_secs, c) >= 2 * sel_prev_7d(stats, now_secs, c)
            ==> alist_get(trend_writes(stats, now_secs, cs), c) is Some,
    decreases cs.len(),
{
    if cs.len() > 0 {
        let init = cs.drop_last();
        lemma_trend_writes_hot(stats, now_secs, init, c);
        let r = trend_writes(stats, now_secs, init);
        let recent = sel_7d(stats, now_secs, cs.last());
        if recent >= 5 && recent >= 2 * sel_prev_7d(stats, now_secs, cs.last()) {
            lemma_alist_get_push(r, cs.last(), Label::Hot { count: recent as u32 }, c);
        }
        if cs.contains(c) && cs.last() != c {
            let i = choose|i: int| 0 <= i < cs.len() && cs[i] == c;
            assert(i < init.len());
            assert(init[i] == c);
        }
    }
}

proof fn lemma_spike_writes_hot(incs: Seq<(Seq<char>, usize)>, threshold: int, c: Seq<char>)
    ensures
        alist_get(spike_writes_from(incs, threshold), c) matches Some(l) ==> l is Hot,
    decreases incs.len(),
{
    if incs.len() > 0 {
        lemma_spike_writes_hot(incs.drop_last(), threshold, c);
        let r = spike_writes_from(incs.drop_last(), threshold);
        let (k, inc) = incs.last();
        if inc >= 3 && inc >= threshold {
            lemma_alist_get_push(r, k, Label::Hot { count: inc as u32 }, c);
        }
    }
}

proof fn lemma_new_writes_new(now_secs: int, fs: Seq<(Seq<char>, Seq<char>)>, c: Seq<char>, i: int)
    ensures
        alist_get(new_writes(now_secs, fs), c) matches Some(l) ==> l is New,
        alist_get(new_writes(now_secs, fs), c) is Some ==> recently_seen(now_secs, fs, c),
        0 <= i < fs.len() && fs[i].0 == c && (days_since_spec(fs[i].1, now_secs) matches Some(k) && k <= 1)
            ==> alist_get(new_writes(now_secs, fs), c) == Some(Label::New),
    decreases fs.len(),
{
    if fs.len() > 0 {
        let init = fs.drop_last();
        lemma_new_writes_new(now_secs, init, c, i);
        let r = new_writes(now_secs, init);
        lemma_alist_get_push(r, fs.last().0, Label::New, c);
        if 0 <= i < init.len() {
            assert(init[i] == fs[i]);
        }
        if alist_get(new_writes(now_secs, fs), c) is Some {
            if alist_get(r, c) is Some && recently_seen(now_secs, init, c) {
                let j = choose|j: int| 0 <= j < init.len() && #[trigger] init[j].0 == c
                    && (days_since_spec(init[j].1, now_secs) matches Some(k) && k <= 1);
                assert(fs[j] == init[j]);
            } else {
                let j = fs.len() - 1;
                assert(fs[j].0 == c);
            }
        }
    }
}

proof fn lemma_spike_hot(stats: Stats, c: Seq<char>)
    ensures
        alist_get(spike_writes(stats), c) matches Some(l) ==> l is Hot,
{
    match (stats.history_snapshot, stats.prev_snapshot) {
        (Some(curr), Some(prev)) => {
            let incs = increases(curr.frequencies@, prev.frequencies@);
            if incs.len() > 0 {
                lemma_spike_writes_hot(incs, spike_threshold(incs), c);
            }
        },
        _ => {},
    }
}

/// Label priority: a HOT label wins over NEW, NEW over TOP, TOP over STALE.
pub proof fn lemma_label_priority(stats: Stats, entries: Seq<HistoryEntry>, now_secs: int, c: Seq<char>)
    ensures
        ({
            let hot = alist_get(trend_writes(stats, now_secs, selected_cmds(stats)) + spike_writes(stats), c);
            let new = alist_get(new_writes(now_secs, first_seen_of(stats.first_seen)), c);
            let top = alist_get(top_writes(stats, now_secs), c);
            let stale = alist_get(stale_writes(stats, now_secs, entries), c);
            label_of(stats, entries, now_secs, c) == (if hot is Some {
                hot
            } else if new is Some {
                new
            } else if top is Some {
                top
            } else {
                stale
            })
        }),
{
    let sw = stale_writes(stats, now_secs, entries);
    let tw = top_writes(stats, now_secs);
    let nw = new_writes(now_secs, first_seen_of(stats.first_seen));
    let hw = trend_writes(stats, now_secs, selected_cmds(stats));
    let pw = spike_writes(stats);
    assert(label_writes(stats, entries, now_secs) == (((sw + tw) + nw) + hw) + pw);
    lemma_alist_get_concat(((sw + tw) + nw) + hw, pw, c);
    lemma_alist_get_concat((sw + tw) + nw, hw, c);
    lemma_alist_get_concat(sw + tw, nw, c);
    lemma_alist_get_concat(sw, tw, c);
    lemma_alist_get_concat(hw, pw, c);
}

/// A command selected at least 5 times in the last 7 days, and at least
/// twice as often as in the 7 days before, is labeled HOT.
pub proof fn lemma_trending_is_hot(stats: Stats, entries: Seq<HistoryEntry>, now_secs: int, c: Seq<char>)
    requires
        selected_cmds(stats).contains(c),
        sel_7d(stats, now_secs, c) >= 5,
        sel_7d(stats, now_secs, c) >= 2 * sel_prev_7d(stats, now_secs, c),
    ensures
        label_of(stats, entries, now_secs, c) matches Some(l) && l is Hot,
{
    let hw = trend_writes(stats, now_secs, selected_cmds(stats));
    let pw = spike_writes(stats);
    lemma_label_priority(stats, entries, now_secs, c);
    lemma_trend_writes_hot(stats, now_secs, selected_cmds(stats), c);
    lemma_spike_hot(stats, c);
    lemma_alist_get_concat(hw, pw, c);
}

/// A command first seen at most a day ago is labeled NEW, unless it is HOT.
pub proof fn lemma_new_unless_hot(stats: Stats, entries: Seq<HistoryEntry>, now_secs: int, c: Seq<char>, i: int)
    requires
        0 <= i < first_seen_of(stats.first_seen).len(),
        first_seen_of(stats.first_seen)[i].0 == c,
        days_since_spec(first_seen_of(stats.first_seen)[i].1, now_secs) matches Some(k) && k <= 1,
        alist_get(trend_writes(stats, now_secs, selected_cmds(stats)) + spike_writes(stats), c) is None,
    ensures
        label_of(stats, entries, now_secs, c) == Some(Label::New),
{
    lemma_label_priority(stats, entries, now_secs, c);
    lemma_new_writes_new(now_secs, first_seen_of(stats.first_seen), c, i);
}


/// The HOT label that `c` gets, by selection trend or history spike.
pub open spec fn hot_label(stats: Stats, now_secs: int, c: Seq<char>) -> Option<Label> {
    alist_get(trend_writes(stats, now_secs, selected_cmds(stats)) + spike_writes(stats), c)
}

/// `c` is the most selected command of the last 30 days.
pub open spec fn is_top(stats: Stats, now_secs: int, c: Seq<char>) -> bool {
    top_of(stats, now_secs, selected_cmds(stats)) matches Some(p) && p.0 == c
}

/// Some history entry of command `c` is stale.
pub open spec fn stale_for(stats: Stats, now_secs: int, entries: Seq<HistoryEntry>, c: Seq<char>) -> bool {
    exists|i: int| 0 <= i < entries.len() && #[trigger] entries[i].command@ == c && stale_entry(stats, now_secs, entries[i])
}

proof fn lemma_stale_writes_get(stats: Stats, now_secs: int, es: Seq<HistoryEntry>, c: Seq<char>)
    ensures
        alist_get(stale_writes(stats, now_secs, es), c) == (if stale_for(stats, now_secs, es, c) {
            Some(Label::Stale)
        } else {
            None
        }),
    decreases es.len(),
{
    if es.len() > 0 {
        let init = es.drop_last();
        lemma_stale_writes_get(stats, now_secs, init, c);
        lemma_alist_get_push(stale_writes(stats, now_secs, init), es.last().command@, Label::Stale, c);
        if stale_for(stats, now_secs, init, c) {
            let j = choose|j: int| 0 <= j < init.len() && #[trigger] init[j].command@ == c && stale_entry(stats, now_secs, init[j]);
            assert(es[j] == init[j]);
        }
        if stale_for(stats, now_secs, es, c) {
            let j = choose|j: int| 0 <= j < es.len() && #[trigger] es[j].command@ == c && stale_entry(stats, now_secs, es[j]);
            if j < init.len() {
                assert(init[j] == es[j]);
            }
        }
    }
}

proof fn lemma_top_writes_get(stats: Stats, now_secs: int, c: Seq<char>)
    ensures
        alist_get(top_writes(stats, now_secs), c) == (match top_of(stats, now_secs, selected_cmds(stats)) {
            Some((t, n)) => if t == c { Some(Label::Top { count: n as u32 }) } else { None },
            None => None,
        }),
{
    if let Some((t, n)) = top_of(stats, now_secs, selected_cmds(stats)) {
        lemma_alist_get_push(Seq::<(Seq<char>, Label)>::empty(), t, Label::Top { count: n as u32 }, c);
        assert(top_writes(stats, now_secs) =~= Seq::<(Seq<char>, Label)>::empty().push((t, Label::Top { count: n as u32 })));
    }
}

/// What `top_of` finds: a command of `cs` with the most selections in the
/// last 30 days, more than none; nothing when none of `cs` was selected.
proof fn lemma_top_of(stats: Stats, now_secs: int, cs: Seq<Seq<char>>)
    ensures
        top_of(stats, now_secs, cs) matches Some(p) ==> {
            &&& cs.contains(p.0)
            &&& p.1 == sel_30d(stats, now_secs, p.0)
            &&& p.1 > 0
            &&& forall|i: int| 0 <= i < cs.len() ==> sel_30d(stats, now_secs, #[trigger] cs[i]) <= p.1
        },
        top_of(stats, now_secs, cs) is None ==> forall|i: int| 0 <= i < cs.len() ==> sel_30d(stats, now_secs, #[trigger] cs[i]) <= 0,
    decreases cs.len(),
{
    if cs.len() > 0 {
        let init = cs.drop_last();
        let n = cs.len() - 1;
        lemma_top_of(stats, now_secs, init);
        let r = top_of(stats, now_secs, init);
        let v = sel_30d(stats, now_secs, cs[n]);
        let best = match r {
            Some(p) => p.1,
            None => 0,
        };
        assert(forall|i: int| 0 <= i < n ==> sel_30d(stats, now_secs, #[trigger] cs[i]) <= best) by {
            assert forall|i: int| 0 <= i < n implies sel_30d(stats, now_secs, #[trigger] cs[i]) <= best by {
                assert(init[i] == cs[i]);
            }
        }
        if v > 0 && v > best {
            assert(top_of(stats, now_secs, cs) == Some((cs[n], v)));
            assert(cs.contains(cs[n]));
        } else {
            assert(top_of(stats, now_secs, cs) == r);
            if let Some(p) = r {
                let j = choose|j: int| 0 <= j < init.len() && init[j] == p.0;
                assert(cs[j] == p.0);
            }
        }
    }
}

proof fn lemma_spike_writes_get(incs: Seq<(Seq<char>, usize)>, threshold: int, c: Seq<char>, inc: usize)
    requires
        alist_get(incs, c) == Some(inc),
        inc >= 3,
        inc >= threshold,
    ensures
        alist_get(spike_writes_from(incs, threshold), c) == Some(Label::Hot { count: inc as u32 }),
    decreases incs.len(),
{
    let init = incs.drop_last();
    let (k, v) = incs.last();
    let r = spike_writes_from(init, threshold);
    if v >= 3 && v >= threshold {
        lemma_alist_get_push(r, k, Label::Hot { count: v as u32 }, c);
    }
    if k != c {
        lemma_spike_writes_get(init, threshold, c, inc);
    }
}

/// The labels in the order in which they win: what each kind gives.
proof fn lemma_label_kinds(stats: Stats, entries: Seq<HistoryEntry>, now_secs: int, c: Seq<char>)
    ensures
        hot_label(stats, now_secs, c) matches Some(l) ==> l is Hot,
        alist_get(new_writes(now_secs, first_seen_of(stats.first_seen)), c) is Some
            <==> recently_seen(now_secs, first_seen_of(stats.first_seen), c),
        alist_get(new_writes(now_secs, first_seen_of(stats.first_seen)), c) matches Some(l) ==> l is New,
        alist_get(top_writes(stats, now_secs), c) is Some <==> is_top(stats, now_secs, c),
        alist_get(top_writes(stats, now_secs), c) matches Some(l) ==> l is Top,
        alist_get(stale_writes(stats, now_secs, entries), c) == (if stale_for(stats, now_secs, entries, c) {
            Some(Label::Stale)
        } else {
            None
        }),
{
    let fs = first_seen_of(stats.first_seen);
    lemma_trend_writes_hot(stats, now_secs, selected_cmds(stats), c);
    lemma_spike_hot(stats, c);
    lemma_alist_get_concat(trend_writes(stats, now_secs, selected_cmds(stats)), spike_writes(stats), c);
    lemma_new_writes_new(now_secs, fs, c, 0);
    if recently_seen(now_secs, fs, c) {
        let j = choose|j: int| 0 <= j < fs.len() && #[trigger] fs[j].0 == c
            && (days_since_spec(fs[j].1, now_secs) matches Some(k) && k <= 1);
        lemma_new_writes_new(now_secs, fs, c, j);
    }
    lemma_top_writes_get(stats, now_secs, c);
    lemma_stale_writes_get(stats, now_secs, entries, c);
}

/// STALE exactly: a command is labeled STALE when and only when one of its
/// history entries is stale and it gets no HOT, NEW or TOP label.
pub proof fn lemma_stale_exactly(stats: Stats, entries: Seq<HistoryEntry>, now_secs: int, c: Seq<char>)
    ensures
        label_of(stats, entries, now_secs, c) == Some(Label::Stale) <==> {
            &&& stale_for(stats, now_secs, entries, c)
            &&& hot_label(stats, now_secs, c) is None
            &&& !recently_seen(now_secs, first_seen_of(stats.first_seen), c)
            &&& !is_top(stats, now_secs, c)
        },
{
    lemma_label_priority(stats, entries, now_secs, c);
    lemma_label_kinds(stats, entries, now_secs, c);
}

/// Without history entries no command is labeled STALE (`compute_labels`).
pub proof fn lemma_no_stale_without_entries(stats: Stats, now_secs: int, c: Seq<char>)
    ensures
        label_of(stats, Seq::empty(), now_secs, c) != Some(Label::Stale),
{
    lemma_stale_exactly(stats, Seq::empty(), now_secs, c);
}

/// NEW exactly: a command is labeled NEW when and only when it was first
/// seen at most a day ago and gets no HOT label.
pub proof fn lemma_new_exactly(stats: Stats, entries: Seq<HistoryEntry>, now_secs: int, c: Seq<char>)
    ensures
        label_of(stats, entries, now_secs, c) == Some(Label::New) <==> {
            &&& recently_seen(now_secs, first_seen_of(stats.first_seen), c)
            &&& hot_label(stats, now_secs, c) is None
        },
{
    lemma_label_priority(stats, entries, now_secs, c);
    lemma_label_kinds(stats, entries, now_secs, c);
}

/// A trending command that no history spike labels is HOT with its number
/// of selections in the last 7 days.
pub proof fn lemma_trend_hot_count(stats: Stats, entries: Seq<HistoryEntry>, now_secs: int, c: Seq<char>)
    requires
        selected_cmds(stats).contains(c),
        sel_7d(stats, now_secs, c) >= 5,
        sel_7d(stats, now_secs, c) >= 2 * sel_prev_7d(stats, now_secs, c),
        alist_get(spike_writes(stats), c) is None,
    ensures
        label_of(stats, entries, now_secs, c) == Some(Label::Hot { count: sel_7d(stats, now_secs, c) as u32 }),
{
    let hw = trend_writes(stats, now_secs, selected_cmds(stats));
    lemma_label_priority(stats, entries, now_secs, c);
    lemma_trend_writes_hot(stats, now_secs, selected_cmds(stats), c);
    lemma_alist_get_concat(hw, spike_writes(stats), c);
}

/// History spikes: a command whose frequency grew between the two
/// snapshots by at least 3 and at least the top-5% threshold is HOT with
/// that increase.
pub proof fn lemma_spike_hot_count(stats: Stats, entries: Seq<HistoryEntry>, now_secs: int, c: Seq<char>, inc: usize)
    requires
        stats.history_snapshot is Some,
        stats.prev_snapshot is Some,
        alist_get(increases(stats.history_snapshot->0.frequencies@, stats.prev_snapshot->0.frequencies@), c) == Some(inc),
        inc >= 3,
        inc >= spike_threshold(increases(stats.history_snapshot->0.frequencies@, stats.prev_snapshot->0.frequencies@)),
    ensures
        label_of(stats, entries, now_secs, c) == Some(Label::Hot { count: inc as u32 }),
{
    let incs = increases(stats.history_snapshot->0.frequencies@, stats.prev_snapshot->0.frequencies@);
    lemma_spike_writes_get(incs, spike_threshold(incs), c, inc);
    lemma_label_priority(stats, entries, now_secs, c);
    lemma_alist_get_concat(trend_writes(stats, now_secs, selected_cmds(stats)), spike_writes(stats), c);
}

/// TOP: a command labeled TOP is the most selected of the last 30 days,
/// with that count, more than none; no other command is labeled TOP.
pub proof fn lemma_top_exactly(stats: Stats, entries: Seq<HistoryEntry>, now_secs: int, c: Seq<char>, d: Seq<char>, n: u32)
    requires
        label_of(stats, entries, now_secs, c) == Some(Label::Top { count: n }),
    ensures
        is_top(stats, now_secs, c),
        n == sel_30d(stats, now_secs, c) as u32,
        sel_30d(stats, now_secs, c) > 0,
        forall|i: int| 0 <= i < selected_cmds(stats).len() ==>
            sel_30d(stats, now_secs, #[trigger] selected_cmds(stats)[i]) <= sel_30d(stats, now_secs, c),
        label_of(stats, entries, now_secs, d) matches Some(l) && l is Top ==> d == c,
{
    lemma_label_priority(stats, entries, now_secs, c);
    lemma_label_kinds(stats, entries, now_secs, c);
    lemma_label_priority(stats, entries, now_secs, d);
    lemma_label_kinds(stats, entries, now_secs, d);
    lemma_top_writes_get(stats, now_secs, c);
    lemma_top_of(stats, now_secs, selected_cmds(stats));
}

/// When some command was selected in the last 30 days, one of them is the
/// most selected.
pub proof fn lemma_top_exists(stats: Stats, now_secs: int, c: Seq<char>)
    requires
        selected_cmds(stats).contains(c),
        sel_30d(stats, now_secs, c) > 0,
    ensures
        top_of(stats, now_secs, selected_cmds(stats)) is Some,
{
    lemma_top_of(stats, now_secs, selected_cmds(stats));
    let i = choose|i: int| 0 <= i < selected_cmds(stats).len() && selected_cmds(stats)[i] == c;
    assert(sel_30d(stats, now_secs, selected_cmds(stats)[i]) > 0);
}


/// The commands of `entries` labeled STALE, in order: what `C-g` deletes.
pub open spec fn stale_commands(entries: Seq<HistoryEntry>, labels: Seq<(Seq<char>, Label)>) -> Seq<Seq<char>>
    decreases entries.len(),
{
    if entries.len() == 0 {
        Seq::empty()
    } else {
        let r = stale_commands(entries.drop_last(), labels);
        let c = entries.last().command@;
        if alist_get(labels, c) == Some(Label::Stale) {
            r.push(c)
        } else {
            r
        }
    }
}

/// The commands of `entries` that `labels` marks STALE, in order.
pub fn stale_targets(entries: &[HistoryEntry], labels: &StrMap<Label>) -> (r: Vec<String>)
    ensures
        r@.map_values(|s: String| s@) == stale_commands(entries@, labels@),
{
    let mut out: Vec<String> = Vec::new();
    let mut i: usize = 0;
    while i < entries.len()
        invariant
            i <= entries@.len(),
            out@.map_values(|s: String| s@) == stale_commands(entries@.take(i as int), labels@),
        decreases entries@.len() - i,
    {
        let ghost before = out@;
        let c = &entries[i].command;
        let stale = match labels.get(c.as_str()) {
            Some(l) => l.is_stale(),
            None => false,
        };
        if stale {
            out.push(c.clone());
            assert(out@.map_values(|s: String| s@) =~= before.map_values(|s: String| s@).push(c@));
        }
        assert(entries@.take(i + 1).drop_last() =~= entries@.take(i as int));
        i = i + 1;
    }
    assert(entries@.take(entries@.len() as int) =~= entries@);
    out
}


/// What follows a command in the picker when stats are on: a space and its
/// label, if it has one, then a space and its number of selections, if it
/// was selected.
pub open spec fn extras_spec(cmd: Seq<char>, labels: Seq<(Seq<char>, Label)>, counts: Seq<(Seq<char>, u32)>) -> Seq<char> {
    (match alist_get(labels, cmd) {
        Some(l) => seq![' '] + label_text(l),
        None => Seq::empty(),
    }) + (match alist_get(counts, cmd) {
        Some(n) => seq![' '] + dec(n as nat),
        None => Seq::empty(),
    })
}

/// The label and selection count shown after `cmd`.
pub fn entry_extras(cmd: &str, labels: &StrMap<Label>, counts: &StrMap<u32>) -> (s: String)
    ensures
        s@ == extras_spec(cmd@, labels@, counts@),
{
    let mut s = String::new();
    let ghost head: Seq<char>;
    match labels.get(cmd) {
        Some(l) => {
            string_push(&mut s, ' ');
            let t = l.display();
            push_str(&mut s, t.as_str());
            proof {
                head = seq![' '] + label_text(*l);
            }
            assert(s@ =~= head);
        },
        None => {
            proof {
                head = Seq::empty();
            }
            assert(s@ =~= head);
        },
    }
    match counts.get(cmd) {
        Some(n) => {
            string_push(&mut s, ' ');
            let t = fmt_u64(*n as u64);
            push_str(&mut s, t.as_str());
            assert(s@ =~= head + (seq![' '] + dec(*n as nat)));
        },
        None => {
            assert(s@ =~= head + Seq::<char>::empty());
        },
    }
    s
}


/// Whether the labels can be computed within their integer types
/// (`labels_fit`): the check a caller makes before `compute_labels_with`.
pub fn labels_fit_check(stats: &Stats, now_secs: u64) -> (b: bool)
    ensures
        b == labels_fit(*stats, now_secs as int),
{
    let ghost now = now_secs as int;
    let ghost fs = first_seen_of(stats.first_seen);
    let mut i: usize = 0;
    while i < stats.first_seen.len()
        invariant
            i <= stats.first_seen@.len() == fs.len(),
            now == now_secs as int,
            fs == first_seen_of(stats.first_seen),
            forall|j: int| 0 <= j < i ==> date_since_fits(#[trigger] fs[j].1, now),
        decreases stats.first_seen@.len() - i,
    {
        let date = stats.first_seen.value_at(i);
        assert(fs[i as int].1 == date@);
        if !date_since_fits_check(date.as_str(), now_secs) {
            return false;
        }
        i = i + 1;
    }
    assert(first_seen_fit(*stats, now));
    let today = today_str(now_secs);
    let from_30d = day_before_str(today.as_str(), 30, now_secs);
    let from_7d = day_before_str(today.as_str(), 7, now_secs);
    let from_14d = day_before_str(today.as_str(), 14, now_secs);
    let prev_end = day_before_str(today.as_str(), 8, now_secs);
    let cmds = all_selected_commands(&stats.daily_selections);
    let ghost cs = selected_cmds(*stats);
    let mut k: usize = 0;
    while k < cmds.len()
        invariant
            k <= cmds@.len() == cs.len(),
            cmds@.map_values(|x: String| x@) == cs,
            now == now_secs as int,
            first_seen_fit(*stats, now),
            today@ == epoch_date_string(now),
            from_30d@ == day_before(now, 30),
            from_7d@ == day_before(now, 7),
            from_14d@ == day_before(now, 14),
            prev_end@ == day_before(now, 8),
            forall|j: int| 0 <= j < k ==> {
                &&& sel_30d(*stats, now, #[trigger] cs[j]) <= u32::MAX
                &&& sel_7d(*stats, now, cs[j]) <= u32::MAX
                &&& 2 * sel_prev_7d(*stats, now, cs[j]) <= u32::MAX
            },
        decreases cmds@.len() - k,
    {
        let c = &cmds[k];
        assert(cs[k as int] == c@);
        let d = &stats.daily_selections;
        if !range_sum_at_most(d, c.as_str(), from_30d.as_str(), today.as_str(), u32::MAX) {
            assert(sel_30d(*stats, now, c@) > u32::MAX);
            return false;
        }
        if !range_sum_at_most(d, c.as_str(), from_7d.as_str(), today.as_str(), u32::MAX) {
            assert(sel_7d(*stats, now, c@) > u32::MAX);
            return false;
        }
        if !range_sum_at_most(d, c.as_str(), from_14d.as_str(), prev_end.as_str(), 2147483647) {
            assert(2 * sel_prev_7d(*stats, now, c@) > u32::MAX);
            return false;
        }
        k = k + 1;
    }
    proof {
        let all = keys_of(flat_pairs(days_of(stats.daily_selections)));
        crate::stats::lemma_dedup(all);
        let dd = days_of(stats.daily_selections);
        assert forall|c: Seq<char>| {
            &&& #[trigger] sel_30d(*stats, now, c) <= u32::MAX
            &&& sel_7d(*stats, now, c) <= u32::MAX
            &&& 2 * sel_prev_7d(*stats, now, c) <= u32::MAX
        } by {
            if cs.contains(c) {
                let j = choose|j: int| 0 <= j < cs.len() && cs[j] == c;
                assert(sel_30d(*stats, now, cs[j]) <= u32::MAX);
            } else {
                crate::stats::lemma_range_sum_unselected(dd, c, day_before(now, 30), epoch_date_string(now));
                crate::stats::lemma_range_sum_unselected(dd, c, day_before(now, 7), epoch_date_string(now));
                crate::stats::lemma_range_sum_unselected(dd, c, day_before(now, 14), day_before(now, 8));
            }
        }
        assert forall|c: Seq<char>| #[trigger] sel_7d(*stats, now, c) <= u32::MAX by {
            assert(sel_30d(*stats, now, c) <= u32::MAX);
        }
        assert forall|c: Seq<char>| 2 * #[trigger] sel_prev_7d(*stats, now, c) <= u32::MAX by {
            assert(sel_30d(*stats, now, c) <= u32::MAX);
        }
    }
    true
}


/// A command labeled STALE was not selected in the last 30 days: no day
/// from 30 days ago to today records a selection of it. It also has a
/// history entry used at most twice, and was first seen more than 14 days
/// ago.
pub proof fn lemma_stale_unselected(stats: Stats, entries: Seq<HistoryEntry>, now_secs: int, c: Seq<char>)
    requires
        label_of(stats, entries, now_secs, c) == Some(Label::Stale),
    ensures
        forall|i: int| 0 <= i < days_of(stats.daily_selections).len()
            && lex_le(day_before(now_secs, 30), days_of(stats.daily_selections)[i].0)
            && lex_le(days_of(stats.daily_selections)[i].0, epoch_date_string(now_secs))
            ==> count_in(#[trigger] days_of(stats.daily_selections)[i].1, c) == 0,
        exists|i: int| 0 <= i < entries.len() && #[trigger] entries[i].command@ == c && entries[i].frequency <= 2,
        seen_long_ago(stats, now_secs, c),
{
    lemma_stale_exactly(stats, entries, now_secs, c);
    let i = choose|i: int| 0 <= i < entries.len() && #[trigger] entries[i].command@ == c && stale_entry(stats, now_secs, entries[i]);
    crate::stats::lemma_range_sum_zero(
        days_of(stats.daily_selections),
        c,
        day_before(now_secs, 30),
        epoch_date_string(now_secs),
    );
}

} // verus!
