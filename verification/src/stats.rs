//! Usage statistics: first-seen dates, daily selection counts and history
//! snapshots, with the queries the labels and reports are built from.

use vstd::prelude::*;
use crate::dates::{days_ago_str, days_ago_string, epoch_date_string, fits_i64};
pub use crate::dates::{
    date_str_from_epoch, date_to_days, days_ago_from, days_since, days_to_ymd, today_str, ymd_to_days,
};
use crate::history::HistoryEntry;
use crate::strmap::{
    alist_distinct, alist_get, alist_set, filter_marked, lemma_alist_get_at, lemma_alist_set_get,
    string_pairs, StrMap,
};
use crate::text::{join_path, lex_le, lex_lt, path_join, str_eq, str_le, to_string_of};

verus! {

/// Command frequencies of the history on one date.
pub struct Snapshot {
    pub date: String,
    pub frequencies: StrMap<usize>,
}

/// Everything recorded about usage.
pub struct Stats {
    pub version: u32,
    /// Command → date (`YYYY-MM-DD`) on which it was first seen.
    pub first_seen: StrMap<String>,
    /// Date → (command → number of selections that day).
    pub daily_selections: StrMap<StrMap<u32>>,
    pub history_snapshot: Option<Snapshot>,
    pub prev_snapshot: Option<Snapshot>,
}

impl Default for Stats {
    fn default() -> (s: Self)
        ensures
            s.version == 1,
            s.first_seen@.len() == 0,
            s.daily_selections@.len() == 0,
            s.history_snapshot is None,
            s.prev_snapshot is None,
    {
        Stats {
            version: 1,
            first_seen: StrMap::new(),
            daily_selections: StrMap::new(),
            history_snapshot: None,
            prev_snapshot: None,
        }
    }
}

/// A day's counts as plain values.
pub type DayView = Seq<(Seq<char>, u32)>;

/// The daily selections as plain values: date → (command → count).
pub open spec fn days_of(daily: StrMap<StrMap<u32>>) -> Seq<(Seq<char>, DayView)> {
    daily@.map_values(|p: (Seq<char>, StrMap<u32>)| (p.0, p.1@))
}

/// The first-seen dates as plain values.
pub open spec fn first_seen_of(m: StrMap<String>) -> Seq<(Seq<char>, Seq<char>)> {
    string_pairs(m@)
}

/// Selections of `cmd` recorded in one day.
pub open spec fn count_in(day: DayView, cmd: Seq<char>) -> int {
    match alist_get(day, cmd) {
        Some(c) => c as int,
        None => 0,
    }
}

/// Selections of `cmd` on the dates in `[from, to]` (string order).
pub open spec fn range_sum(d: Seq<(Seq<char>, DayView)>, cmd: Seq<char>, from: Seq<char>, to: Seq<char>) -> int
    decreases d.len(),
{
    if d.len() == 0 {
        0
    } else {
        range_sum(d.drop_last(), cmd, from, to) + (if lex_le(from, d.last().0) && lex_le(d.last().0, to) {
            count_in(d.last().1, cmd)
        } else {
            0
        })
    }
}

proof fn lemma_range_sum_prefix(d: Seq<(Seq<char>, DayView)>, cmd: Seq<char>, from: Seq<char>, to: Seq<char>, i: int)
    requires
        0 <= i <= d.len(),
    ensures
        0 <= range_sum(d.take(i), cmd, from, to) <= range_sum(d, cmd, from, to),
    decreases d.len() - i,
{
    if i < d.len() {
        lemma_range_sum_prefix(d, cmd, from, to, i + 1);
        assert(d.take(i + 1).drop_last() =~= d.take(i));
        lemma_range_sum_nonneg(d.take(i), cmd, from, to);
        let t = d.take(i + 1);
        assert(range_sum(t, cmd, from, to) == range_sum(t.drop_last(), cmd, from, to) + (if lex_le(from, t.last().0) && lex_le(t.last().0, to) {
            count_in(t.last().1, cmd)
        } else {
            0
        }));
    } else {
        assert(d.take(i) =~= d);
        lemma_range_sum_nonneg(d, cmd, from, to);
    }
}

proof fn lemma_range_sum_nonneg(d: Seq<(Seq<char>, DayView)>, cmd: Seq<char>, from: Seq<char>, to: Seq<char>)
    ensures
        0 <= range_sum(d, cmd, from, to),
    decreases d.len(),
{
    if d.len() > 0 {
        lemma_range_sum_nonneg(d.drop_last(), cmd, from, to);
    }
}

/// Sum of the selections of `command` on the dates from `from_date` to `to_date`
/// inclusive (compared as strings).
pub fn selections_in_range(
    daily: &StrMap<StrMap<u32>>,
    command: &str,
    from_date: &str,
    to_date: &str,
) -> (r: u32)
    requires
        range_sum(days_of(*daily), command@, from_date@, to_date@) <= u32::MAX,
    ensures
        r == range_sum(days_of(*daily), command@, from_date@, to_date@),
{
    let ghost d = days_of(*daily);
    let mut total: u32 = 0;
    let mut i: usize = 0;
    let n = daily.len();
    while i < n
        invariant
            i <= n == d.len(),
            d == days_of(*daily),
            range_sum(d, command@, from_date@, to_date@) <= u32::MAX,
            total == range_sum(d.take(i as int), command@, from_date@, to_date@),
        decreases n - i,
    {
        let date = daily.key_at(i);
        let cmds = daily.value_at(i);
        proof {
            assert(d.take(i + 1).drop_last() =~= d.take(i as int));
            assert(d[i as int] == (date@, cmds@));
            lemma_range_sum_prefix(d, command@, from_date@, to_date@, i + 1);
        }
        if str_le(from_date, date.as_str()) && str_le(date.as_str(), to_date) {
            match cmds.get(command) {
                Some(c) => {
                    total = total + *c;
                },
                None => {},
            }
        }
        i = i + 1;
    }
    assert(d.take(n as int) =~= d);
    total
}

/// `stats_dir`: `~/.bh` under the home directory `home`.
pub fn stats_dir(home: &str) -> (r: String)
    ensures
        r@ == path_join(home@, ".bh"@),
{
    join_path(home, ".bh")
}

/// `stats_path`: `~/.bh/stats.json` under the home directory `home`.
pub fn stats_path(home: &str) -> (r: String)
    ensures
        r@ == path_join(path_join(home@, ".bh"@), "stats.json"@),
{
    let dir = stats_dir(home);
    join_path(dir.as_str(), "stats.json")
}


// ── Recording ──────────────────────────────────────────────────────────

/// The counts recorded for `date`, or none.
pub open spec fn day_or_empty(d: Seq<(Seq<char>, DayView)>, date: Seq<char>) -> DayView {
    match alist_get(d, date) {
        Some(day) => day,
        None => Seq::empty(),
    }
}

proof fn lemma_days_of_get(daily: StrMap<StrMap<u32>>, date: Seq<char>)
    ensures
        alist_get(days_of(daily), date) == (match alist_get(daily@, date) {
            Some(m) => Some(m@),
            None => None,
        }),
    decreases daily@.len(),
{
    lemma_days_of_get_seq(daily@, date);
}

proof fn lemma_days_of_get_seq(s: Seq<(Seq<char>, StrMap<u32>)>, date: Seq<char>)
    ensures
        alist_get(s.map_values(|p: (Seq<char>, StrMap<u32>)| (p.0, p.1@)), date) == (match alist_get(s, date) {
            Some(m) => Some(m@),
            None => None,
        }),
    decreases s.len(),
{
    let f = |p: (Seq<char>, StrMap<u32>)| (p.0, p.1@);
    if s.len() > 0 {
        assert(s.map_values(f).drop_last() =~= s.drop_last().map_values(f));
        lemma_days_of_get_seq(s.drop_last(), date);
    }
}

/// Counts one selection of `command` today.
pub fn record_selection(stats: &mut Stats, command: &str, now_secs: u64)
    requires
        count_in(day_or_empty(days_of(old(stats).daily_selections), epoch_date_string(now_secs as int)), command@) < u32::MAX,
    ensures
        days_of(final(stats).daily_selections) == alist_set(
            days_of(old(stats).daily_selections),
            epoch_date_string(now_secs as int),
            alist_set(
                day_or_empty(days_of(old(stats).daily_selections), epoch_date_string(now_secs as int)),
                command@,
                (count_in(day_or_empty(days_of(old(stats).daily_selections), epoch_date_string(now_secs as int)), command@) + 1) as u32,
            ),
        ),
        final(stats).first_seen == old(stats).first_seen,
        final(stats).history_snapshot == old(stats).history_snapshot,
        final(stats).prev_snapshot == old(stats).prev_snapshot,
        final(stats).version == old(stats).version,
{
    let today = today_str(now_secs);
    let ghost d = days_of(stats.daily_selections);
    let ghost old_daily = stats.daily_selections@;
    proof {
        use_type_invariant(&stats.daily_selections);
        lemma_days_of_get(stats.daily_selections, today@);
    }
    match stats.daily_selections.find(today.as_str()) {
        Some(i) => {
            let mut day = stats.daily_selections.replace_value_at(i, StrMap::new());
            proof {
                lemma_alist_get_at(old_daily, i as int);
                use_type_invariant(&day);
            }
            let c: u32 = match day.get(command) {
                Some(c) => *c,
                None => 0,
            };
            let ghost old_day = day@;
            day.insert(to_string_of(command), c + 1);
            let ghost new_day = day@;
            stats.daily_selections.replace_value_at(i, day);
            proof {
                let f = |p: (Seq<char>, StrMap<u32>)| (p.0, p.1@);
                assert(exists|j: int| 0 <= j < d.len() && d[j].0 == today@) by {
                    assert(d[i as int].0 == today@);
                }
                let j = choose|j: int| 0 <= j < d.len() && d[j].0 == today@;
                assert(j == i) by {
                    assert(alist_distinct(old_daily));
                    assert(d[j].0 == old_daily[j].0);
                }
                assert(days_of(stats.daily_selections) =~= d.update(i as int, (today@, new_day)));
            }
        },
        None => {
            let mut day: StrMap<u32> = StrMap::new();
            day.insert(to_string_of(command), 1);
            let ghost new_day = day@;
            proof {
                crate::strmap::lemma_alist_get_absent(old_daily, today@);
                assert forall|j: int| 0 <= j < d.len() implies d[j].0 != today@ by {
                    assert(d[j].0 == old_daily[j].0);
                }
                crate::strmap::lemma_alist_get_absent(d, today@);
                assert(new_day =~= alist_set(Seq::<(Seq<char>, u32)>::empty(), command@, 1u32));
            }
            stats.daily_selections.insert(today, day);
            proof {
                assert(!(exists|j: int| 0 <= j < old_daily.len() && old_daily[j].0 == today@));
                assert(!(exists|j: int| 0 <= j < d.len() && d[j].0 == today@));
                assert(days_of(stats.daily_selections) =~= d.push((today@, new_day)));
            }
        },
    }
}


/// Adds `(c, v)` for each command `c` of `cmds` not yet a key, in order.
pub open spec fn add_missing(s: Seq<(Seq<char>, Seq<char>)>, cmds: Seq<Seq<char>>, v: Seq<char>) -> Seq<(Seq<char>, Seq<char>)>
    decreases cmds.len(),
{
    if cmds.len() == 0 {
        s
    } else {
        let r = add_missing(s, cmds.drop_last(), v);
        if alist_get(r, cmds.last()) is Some {
            r
        } else {
            r.push((cmds.last(), v))
        }
    }
}

/// The date given to commands seen for the first time: 30 days ago on the
/// first run (nothing recorded yet), else today.
pub open spec fn first_seen_date(first_seen: Seq<(Seq<char>, Seq<char>)>, now_secs: int) -> Seq<char> {
    if first_seen.len() == 0 {
        days_ago_string(30, now_secs)
    } else {
        epoch_date_string(now_secs)
    }
}

proof fn lemma_first_seen_get(s: Seq<(Seq<char>, String)>, k: Seq<char>)
    ensures
        alist_get(s.map_values(|p: (Seq<char>, String)| (p.0, p.1@)), k) is Some == alist_get(s, k) is Some,
    decreases s.len(),
{
    let f = |p: (Seq<char>, String)| (p.0, p.1@);
    if s.len() > 0 {
        assert(s.map_values(f).drop_last() =~= s.drop_last().map_values(f));
        lemma_first_seen_get(s.drop_last(), k);
    }
}

/// Gives each command not yet seen a first-seen date (existing dates are kept).
pub fn update_first_seen(stats: &mut Stats, commands: &[String], now_secs: u64)
    ensures
        first_seen_of(final(stats).first_seen) == add_missing(
            first_seen_of(old(stats).first_seen),
            commands@.map_values(|c: String| c@),
            first_seen_date(first_seen_of(old(stats).first_seen), now_secs as int),
        ),
        final(stats).daily_selections == old(stats).daily_selections,
        final(stats).history_snapshot == old(stats).history_snapshot,
        final(stats).prev_snapshot == old(stats).prev_snapshot,
        final(stats).version == old(stats).version,
{
    let today = today_str(now_secs);
    let is_first_run = stats.first_seen.len() == 0;
    let date_for_existing = if is_first_run { days_ago_str(30, now_secs) } else { today };
    let ghost base = first_seen_of(stats.first_seen);
    let ghost cmds = commands@.map_values(|c: String| c@);
    let ghost v = date_for_existing@;
    assert(v == first_seen_date(base, now_secs as int));
    let mut i: usize = 0;
    while i < commands.len()
        invariant
            i <= commands@.len() == cmds.len(),
            cmds == commands@.map_values(|c: String| c@),
            v == date_for_existing@,
            first_seen_of(stats.first_seen) == add_missing(base, cmds.take(i as int), v),
            stats.daily_selections == old(stats).daily_selections,
            stats.history_snapshot == old(stats).history_snapshot,
            stats.prev_snapshot == old(stats).prev_snapshot,
            stats.version == old(stats).version,
        decreases commands@.len() - i,
    {
        let cmd = &commands[i];
        proof {
            assert(cmds.take(i + 1).drop_last() =~= cmds.take(i as int));
            assert(cmds.take(i + 1).last() == cmd@);
            lemma_first_seen_get(stats.first_seen@, cmd@);
        }
        if !stats.first_seen.contains_key(cmd.as_str()) {
            let ghost before = stats.first_seen@;
            proof {
                use_type_invariant(&stats.first_seen);
                crate::strmap::lemma_alist_get_some(before, cmd@);
            }
            stats.first_seen.insert(cmd.clone(), date_for_existing.clone());
            proof {
                assert(stats.first_seen@ == before.push((cmd@, date_for_existing)));
                assert(first_seen_of(stats.first_seen) =~= add_missing(base, cmds.take(i as int), v).push((cmd@, v)));
            }
        }
        i = i + 1;
    }
    assert(cmds.take(commands@.len() as int) =~= cmds);
}

/// Stores `v` under each key of `pairs` in turn (later pairs win).
pub open spec fn alist_from_pairs(pairs: Seq<(Seq<char>, usize)>) -> Seq<(Seq<char>, usize)>
    decreases pairs.len(),
{
    if pairs.len() == 0 {
        Seq::empty()
    } else {
        alist_set(alist_from_pairs(pairs.drop_last()), pairs.last().0, pairs.last().1)
    }
}

/// Commands and frequencies of history entries.
pub open spec fn entry_freqs(entries: Seq<HistoryEntry>) -> Seq<(Seq<char>, usize)> {
    entries.map_values(|e: HistoryEntry| (e.command@, e.frequency))
}

/// Takes today's snapshot of command frequencies, once per day; the previous
/// snapshot moves to `prev_snapshot`.
pub fn update_snapshot(stats: &mut Stats, entries: &[HistoryEntry], now_secs: u64)
    ensures
        ({
            let today = epoch_date_string(now_secs as int);
            if old(stats).history_snapshot is Some && old(stats).history_snapshot->0.date@ == today {
                *final(stats) == *old(stats)
            } else {
                &&& final(stats).history_snapshot is Some
                &&& final(stats).history_snapshot->0.date@ == today
                &&& final(stats).history_snapshot->0.frequencies@ == alist_from_pairs(entry_freqs(entries@))
                &&& final(stats).prev_snapshot == (if old(stats).history_snapshot is Some {
                    old(stats).history_snapshot
                } else {
                    old(stats).prev_snapshot
                })
                &&& final(stats).first_seen == old(stats).first_seen
                &&& final(stats).daily_selections == old(stats).daily_selections
                &&& final(stats).version == old(stats).version
            }
        }),
{
    let today = today_str(now_secs);
    let same_day = match &stats.history_snapshot {
        Some(snap) => str_eq(snap.date.as_str(), today.as_str()),
        None => false,
    };
    if same_day {
        return;
    }
    let mut frequencies: StrMap<usize> = StrMap::new();
    let mut i: usize = 0;
    let ghost pairs = entry_freqs(entries@);
    while i < entries.len()
        invariant
            i <= entries@.len() == pairs.len(),
            pairs == entry_freqs(entries@),
            frequencies@ == alist_from_pairs(pairs.take(i as int)),
        decreases entries@.len() - i,
    {
        let e = &entries[i];
        proof {
            assert(pairs.take(i + 1).drop_last() =~= pairs.take(i as int));
        }
        frequencies.insert(e.command.clone(), e.frequency);
        i = i + 1;
    }
    assert(pairs.take(entries@.len() as int) =~= pairs);
    if stats.history_snapshot.is_some() {
        let mut taken: Option<Snapshot> = None;
        std::mem::swap(&mut taken, &mut stats.history_snapshot);
        stats.prev_snapshot = taken;
    }
    stats.history_snapshot = Some(Snapshot { date: today, frequencies });
}

/// Marks, per date of `d`, whether it is on or after `cutoff`.
pub open spec fn keep_from(d: Seq<(Seq<char>, StrMap<u32>)>, cutoff: Seq<char>) -> Seq<bool> {
    Seq::new(d.len(), |i: int| lex_le(cutoff, d[i].0))
}

/// Drops the daily selections of dates before 30 days ago.
pub fn prune_old_data(stats: &mut Stats, now_secs: u64)
    ensures
        final(stats).daily_selections@ == filter_marked(
            old(stats).daily_selections@,
            keep_from(old(stats).daily_selections@, days_ago_string(30, now_secs as int)),
        ),
        final(stats).first_seen == old(stats).first_seen,
        final(stats).history_snapshot == old(stats).history_snapshot,
        final(stats).prev_snapshot == old(stats).prev_snapshot,
        final(stats).version == old(stats).version,
{
    let cutoff = days_ago_str(30, now_secs);
    let mut keep: Vec<bool> = Vec::new();
    let mut i: usize = 0;
    let n = stats.daily_selections.len();
    let ghost d = stats.daily_selections@;
    while i < n
        invariant
            i <= n == d.len(),
            d == stats.daily_selections@,
            keep@ == keep_from(d, cutoff@).take(i as int),
        decreases n - i,
    {
        let date = stats.daily_selections.key_at(i);
        keep.push(str_le(cutoff.as_str(), date.as_str()));
        i = i + 1;
        assert(keep@ =~= keep_from(d, cutoff@).take(i as int));
    }
    assert(keep@ =~= keep_from(d, cutoff@));
    stats.daily_selections.retain_marked(&keep);
}


// ── Over all days ──────────────────────────────────────────────────────

/// All (command, count) pairs, day by day.
pub open spec fn flat_pairs(d: Seq<(Seq<char>, DayView)>) -> DayView
    decreases d.len(),
{
    if d.len() == 0 {
        Seq::empty()
    } else {
        flat_pairs(d.drop_last()) + d.last().1
    }
}

/// The distinct items of `s`, in order of first appearance.
pub open spec fn dedup(s: Seq<Seq<char>>) -> Seq<Seq<char>>
    decreases s.len(),
{
    if s.len() == 0 {
        Seq::empty()
    } else {
        let r = dedup(s.drop_last());
        if r.contains(s.last()) {
            r
        } else {
            r.push(s.last())
        }
    }
}

/// The commands of a list of pairs.
pub open spec fn keys_of(p: DayView) -> Seq<Seq<char>> {
    p.map_values(|x: (Seq<char>, u32)| x.0)
}

/// Sum of the counts paired with `c`.
pub open spec fn pair_total(p: DayView, c: Seq<char>) -> int
    decreases p.len(),
{
    if p.len() == 0 {
        0
    } else {
        pair_total(p.drop_last(), c) + (if p.last().0 == c { p.last().1 as int } else { 0 })
    }
}

/// The commands selected on any day, each once, in order of first appearance.
pub fn all_selected_commands(daily: &StrMap<StrMap<u32>>) -> (r: Vec<String>)
    ensures
        r@.map_values(|s: String| s@) == dedup(keys_of(flat_pairs(days_of(*daily)))),
{
    let ghost d = days_of(*daily);
    let mut r: Vec<String> = Vec::new();
    let mut i: usize = 0;
    let n = daily.len();
    while i < n
        invariant
            i <= n == d.len(),
            d == days_of(*daily),
            r@.map_values(|s: String| s@) == dedup(keys_of(flat_pairs(d.take(i as int)))),
        decreases n - i,
    {
        let day = daily.value_at(i);
        let ghost prefix = keys_of(flat_pairs(d.take(i as int)));
        let ghost dk = keys_of(day@);
        proof {
            assert(d[i as int] == (daily@[i as int].0, day@));
        }
        let mut j: usize = 0;
        let m = day.len();
        while j < m
            invariant
                j <= m == dk.len(),
                dk == keys_of(day@),
                r@.map_values(|s: String| s@) == dedup(prefix + dk.take(j as int)),
            decreases m - j,
        {
            let c = day.key_at(j);
            let ghost s = prefix + dk.take(j as int);
            proof {
                assert((prefix + dk.take(j + 1)).drop_last() =~= s);
                assert((prefix + dk.take(j + 1)).last() == c@);
            }
            let mut found = false;
            let mut k: usize = 0;
            while k < r.len()
                invariant
                    k <= r@.len(),
                    !found ==> forall|q: int| 0 <= q < k ==> r@[q]@ != c@,
                    found ==> exists|q: int| 0 <= q < r@.len() && r@[q]@ == c@,
                decreases r@.len() - k,
            {
                if str_eq(r[k].as_str(), c.as_str()) {
                    found = true;
                }
                k = k + 1;
            }
            let ghost rv = r@.map_values(|s: String| s@);
            proof {
                if found {
                    let q = choose|q: int| 0 <= q < r@.len() && r@[q]@ == c@;
                    assert(rv[q] == c@);
                    assert(rv.contains(c@));
                } else {
                    assert forall|q: int| 0 <= q < rv.len() implies rv[q] != c@ by {
                        assert(rv[q] == r@[q]@);
                    }
                    assert(!rv.contains(c@));
                }
            }
            if !found {
                r.push(c.clone());
                assert(r@.map_values(|s: String| s@) =~= rv.push(c@));
            }
            j = j + 1;
        }
        proof {
            assert(d.take(i + 1).drop_last() =~= d.take(i as int));
            assert(d.take(i + 1).last() == d[i as int]);
            assert(dk.take(m as int) =~= dk);
            assert(keys_of(flat_pairs(d.take(i + 1))) =~= prefix + dk);
        }
        i = i + 1;
    }
    assert(d.take(n as int) =~= d);
    r
}

proof fn lemma_pair_total_prefix(p: DayView, c: Seq<char>, i: int)
    requires
        0 <= i <= p.len(),
    ensures
        0 <= pair_total(p.take(i), c) <= pair_total(p, c),
    decreases p.len() - i,
{
    if i < p.len() {
        lemma_pair_total_prefix(p, c, i + 1);
        assert(p.take(i + 1).drop_last() =~= p.take(i));
        lemma_pair_total_nonneg(p.take(i), c);
        let t = p.take(i + 1);
        assert(pair_total(t, c) == pair_total(t.drop_last(), c) + (if t.last().0 == c { t.last().1 as int } else { 0 }));
    } else {
        assert(p.take(i) =~= p);
        lemma_pair_total_nonneg(p, c);
    }
}

proof fn lemma_pair_total_nonneg(p: DayView, c: Seq<char>)
    ensures
        0 <= pair_total(p, c),
    decreases p.len(),
{
    if p.len() > 0 {
        lemma_pair_total_nonneg(p.drop_last(), c);
    }
}

/// Total selections per command over all dates.
pub fn total_selections(daily: &StrMap<StrMap<u32>>) -> (r: StrMap<u32>)
    requires
        forall|c: Seq<char>| pair_total(flat_pairs(days_of(*daily)), c) <= u32::MAX,
    ensures
        forall|c: Seq<char>| #[trigger] alist_get(r@, c) == (if keys_of(flat_pairs(days_of(*daily))).contains(c) {
            Some(pair_total(flat_pairs(days_of(*daily)), c) as u32)
        } else {
            None
        }),
{
    let ghost d = days_of(*daily);
    let ghost all = flat_pairs(d);
    let mut totals: StrMap<u32> = StrMap::new();
    let mut i: usize = 0;
    let n = daily.len();
    proof {
        assert forall|c: Seq<char>| #[trigger] alist_get(totals@, c) == (if keys_of(flat_pairs(d.take(0))).contains(c) {
            Some(pair_total(flat_pairs(d.take(0)), c) as u32)
        } else {
            None
        }) by {
            assert(flat_pairs(d.take(0)) =~= Seq::<(Seq<char>, u32)>::empty());
        }
        assert forall|c: Seq<char>| pair_total(flat_pairs(d.take(0)), c) <= pair_total(all, c) by {
            assert(flat_pairs(d.take(0)) =~= Seq::<(Seq<char>, u32)>::empty());
            lemma_pair_total_nonneg(all, c);
        }
    }
    while i < n
        invariant
            i <= n == d.len(),
            d == days_of(*daily),
            all == flat_pairs(d),
            forall|c: Seq<char>| pair_total(all, c) <= u32::MAX,
            forall|c: Seq<char>| #[trigger] alist_get(totals@, c) == (if keys_of(flat_pairs(d.take(i as int))).contains(c) {
                Some(pair_total(flat_pairs(d.take(i as int)), c) as u32)
            } else {
                None
            }),
            forall|c: Seq<char>| pair_total(flat_pairs(d.take(i as int)), c) <= pair_total(all, c),
        decreases n - i,
    {
        let day = daily.value_at(i);
        let ghost prefix = flat_pairs(d.take(i as int));
        let ghost dp = day@;
        proof {
            assert(d[i as int] == (daily@[i as int].0, day@));
            assert(d.take(i + 1).drop_last() =~= d.take(i as int));
            assert(flat_pairs(d.take(i + 1)) == prefix + dp);
            assert forall|c: Seq<char>| pair_total(prefix + dp, c) <= pair_total(all, c) by {
                lemma_flat_prefix(d, i + 1, c);
            }
        }
        let mut j: usize = 0;
        let m = day.len();
        while j < m
            invariant
                j <= m == dp.len(),
                dp == day@,
                forall|c: Seq<char>| pair_total(all, c) <= u32::MAX,
                forall|c: Seq<char>| pair_total(prefix + dp, c) <= pair_total(all, c),
                forall|c: Seq<char>| #[trigger] alist_get(totals@, c) == (if keys_of(prefix + dp.take(j as int)).contains(c) {
                    Some(pair_total(prefix + dp.take(j as int), c) as u32)
                } else {
                    None
                }),
            decreases m - j,
        {
            let c = day.key_at(j);
            let k = *day.value_at(j);
            let ghost s0 = prefix + dp.take(j as int);
            let ghost s1 = prefix + dp.take(j + 1);
            proof {
                assert(s1.drop_last() =~= s0);
                assert(s1.last() == (c@, k));
                assert(keys_of(s1) =~= keys_of(s0).push(c@));
                assert((prefix + dp).take(s1.len() as int) =~= s1);
                lemma_pair_total_prefix(prefix + dp, c@, s1.len() as int);
                lemma_pair_total_nonneg(s0, c@);
                assert(pair_total(s1, c@) == pair_total(s0, c@) + k);
                assert(pair_total(prefix + dp, c@) <= pair_total(all, c@));
                assert(pair_total(all, c@) <= u32::MAX);
                assert(pair_total(s1, c@) <= u32::MAX);
                use_type_invariant(&totals);
            }
            let cur: u32 = match totals.get(c.as_str()) {
                Some(v) => *v,
                None => 0,
            };
            proof {
                if !keys_of(s0).contains(c@) {
                    lemma_pair_total_absent(s0, c@);
                }
                assert(cur == pair_total(s0, c@));
            }
            let ghost before = totals@;
            totals.insert(c.clone(), cur + k);
            proof {
                assert forall|q: Seq<char>| #[trigger] alist_get(totals@, q) == (if keys_of(s1).contains(q) {
                    Some(pair_total(s1, q) as u32)
                } else {
                    None
                }) by {
                    lemma_alist_set_get(before, c@, (cur + k) as u32, q);
                    if q != c@ {
                        assert(keys_of(s1).contains(q) == keys_of(s0).contains(q)) by {
                            if keys_of(s1).contains(q) {
                                let w = choose|w: int| 0 <= w < keys_of(s1).len() && keys_of(s1)[w] == q;
                                assert(keys_of(s0)[w] == q);
                            }
                            if keys_of(s0).contains(q) {
                                let w = choose|w: int| 0 <= w < keys_of(s0).len() && keys_of(s0)[w] == q;
                                assert(keys_of(s1)[w] == q);
                            }
                        }
                    } else {
                        assert(keys_of(s1)[keys_of(s1).len() - 1] == q);
                        assert(alist_get(totals@, q) == Some((cur + k) as u32));
                        assert(pair_total(s1, q) == cur + k);
                    }
                }
            }
            j = j + 1;
        }
        proof {
            assert(dp.take(m as int) =~= dp);
            assert forall|c: Seq<char>| pair_total(flat_pairs(d.take(i + 1)), c) <= pair_total(all, c) by {
                lemma_flat_prefix(d, i + 1, c);
            }
        }
        i = i + 1;
    }
    assert(d.take(n as int) =~= d);
    totals
}

proof fn lemma_pair_total_absent(p: DayView, c: Seq<char>)
    requires
        !keys_of(p).contains(c),
    ensures
        pair_total(p, c) == 0,
    decreases p.len(),
{
    if p.len() > 0 {
        assert(keys_of(p)[p.len() - 1] == p.last().0);
        assert(!keys_of(p.drop_last()).contains(c)) by {
            if keys_of(p.drop_last()).contains(c) {
                let w = choose|w: int| 0 <= w < keys_of(p.drop_last()).len() && keys_of(p.drop_last())[w] == c;
                assert(keys_of(p)[w] == c);
            }
        }
        lemma_pair_total_absent(p.drop_last(), c);
    }
}

proof fn lemma_pair_total_concat(a: DayView, b: DayView, c: Seq<char>)
    ensures
        pair_total(a + b, c) == pair_total(a, c) + pair_total(b, c),
    decreases b.len(),
{
    if b.len() == 0 {
        assert(a + b =~= a);
    } else {
        assert((a + b).drop_last() =~= a + b.drop_last());
        lemma_pair_total_concat(a, b.drop_last(), c);
    }
}

proof fn lemma_flat_prefix(d: Seq<(Seq<char>, DayView)>, i: int, c: Seq<char>)
    requires
        0 <= i <= d.len(),
    ensures
        pair_total(flat_pairs(d.take(i)), c) <= pair_total(flat_pairs(d), c),
    decreases d.len() - i,
{
    if i < d.len() {
        lemma_flat_prefix(d, i + 1, c);
        assert(d.take(i + 1).drop_last() =~= d.take(i));
        lemma_pair_total_concat(flat_pairs(d.take(i)), d[i].1, c);
        lemma_pair_total_nonneg(d[i].1, c);
    } else {
        assert(d.take(i) =~= d);
    }
}

// ── Laws ───────────────────────────────────────────────────────────────

/// Recording a selection adds one to today's count of that command and
/// leaves every other count, of every day, as it was.
pub proof fn lemma_record_selection_counts(
    d: Seq<(Seq<char>, DayView)>,
    today: Seq<char>,
    cmd: Seq<char>,
    date: Seq<char>,
    x: Seq<char>,
)
    requires
        alist_distinct(d),
        alist_distinct(day_or_empty(d, today)),
        count_in(day_or_empty(d, today), cmd) < u32::MAX,
    ensures
        ({
            let day = day_or_empty(d, today);
            let d2 = alist_set(d, today, alist_set(day, cmd, (count_in(day, cmd) + 1) as u32));
            count_in(day_or_empty(d2, date), x) == count_in(day_or_empty(d, date), x) + (if date == today && x == cmd {
                1int
            } else {
                0int
            })
        }),
{
    let day = day_or_empty(d, today);
    let nd = alist_set(day, cmd, (count_in(day, cmd) + 1) as u32);
    lemma_alist_set_get(d, today, nd, date);
    lemma_alist_set_get(day, cmd, (count_in(day, cmd) + 1) as u32, x);
}

/// First-seen dates: a command that had one keeps it; a new command of the
/// list gets `v`; others stay without one.
pub proof fn lemma_add_missing_get(s: Seq<(Seq<char>, Seq<char>)>, cmds: Seq<Seq<char>>, v: Seq<char>, c: Seq<char>)
    ensures
        alist_get(add_missing(s, cmds, v), c) == (match alist_get(s, c) {
            Some(d) => Some(d),
            None => if cmds.contains(c) {
                Some(v)
            } else {
                None
            },
        }),
    decreases cmds.len(),
{
    if cmds.len() > 0 {
        let init = cmds.drop_last();
        lemma_add_missing_get(s, init, v, c);
        lemma_add_missing_get(s, init, v, cmds.last());
        let r = add_missing(s, init, v);
        if alist_get(r, cmds.last()) is None {
            crate::strmap::lemma_alist_get_push(r, cmds.last(), v, c);
        }
        assert(cmds.contains(c) == (init.contains(c) || cmds.last() == c)) by {
            if cmds.contains(c) {
                let i = choose|i: int| 0 <= i < cmds.len() && cmds[i] == c;
                if i < init.len() {
                    assert(init[i] == c);
                }
            }
            if init.contains(c) {
                let i = choose|i: int| 0 <= i < init.len() && init[i] == c;
                assert(cmds[i] == c);
            }
            assert(cmds[cmds.len() - 1] == cmds.last());
        }
    }
}

/// Pruning keeps exactly the days on or after the cutoff: every kept day is
/// on or after it, and every such day is kept.
pub proof fn lemma_prune_keeps_recent(d: Seq<(Seq<char>, StrMap<u32>)>, cutoff: Seq<char>)
    ensures
        forall|j: int| 0 <= j < filter_marked(d, keep_from(d, cutoff)).len() ==> lex_le(
            cutoff,
            (#[trigger] filter_marked(d, keep_from(d, cutoff))[j]).0,
        ),
        forall|i: int| 0 <= i < d.len() && lex_le(cutoff, (#[trigger] d[i]).0) ==> filter_marked(d, keep_from(d, cutoff)).contains(
            d[i],
        ),
    decreases d.len(),
{
    if d.len() > 0 {
        let t = d.drop_last();
        lemma_prune_keeps_recent(t, cutoff);
        assert(keep_from(d, cutoff).drop_last() =~= keep_from(t, cutoff));
        let r = filter_marked(t, keep_from(t, cutoff));
        let f = filter_marked(d, keep_from(d, cutoff));
        assert(keep_from(d, cutoff).last() == lex_le(cutoff, d.last().0));
        assert forall|j: int| 0 <= j < f.len() implies lex_le(cutoff, (#[trigger] f[j]).0) by {
            if j < r.len() {
                assert(f[j] == r[j]);
            }
        }
        assert forall|i: int| 0 <= i < d.len() && lex_le(cutoff, (#[trigger] d[i]).0) implies f.contains(d[i]) by {
            if i < t.len() {
                assert(t[i] == d[i]);
                assert(r.contains(t[i]));
                let j = choose|j: int| 0 <= j < r.len() && r[j] == t[i];
                assert(f[j] == r[j]);
            } else {
                assert(f[f.len() - 1] == d.last());
            }
        }
    }
}


proof fn lemma_add_missing_present(t: Seq<(Seq<char>, Seq<char>)>, cmds: Seq<Seq<char>>, w: Seq<char>)
    requires
        forall|i: int| 0 <= i < cmds.len() ==> alist_get(t, #[trigger] cmds[i]) is Some,
    ensures
        add_missing(t, cmds, w) == t,
    decreases cmds.len(),
{
    if cmds.len() > 0 {
        let init = cmds.drop_last();
        assert forall|i: int| 0 <= i < init.len() implies alist_get(t, #[trigger] init[i]) is Some by {
            assert(init[i] == cmds[i]);
        }
        lemma_add_missing_present(t, init, w);
        assert(alist_get(t, cmds[cmds.len() - 1]) is Some);
    }
}

/// Recording first-seen dates twice for the same commands changes nothing
/// the second time: `update_first_seen` is idempotent.
pub proof fn lemma_update_first_seen_twice(s: Seq<(Seq<char>, Seq<char>)>, cmds: Seq<Seq<char>>, v: Seq<char>, w: Seq<char>)
    ensures
        add_missing(add_missing(s, cmds, v), cmds, w) == add_missing(s, cmds, v),
{
    let t = add_missing(s, cmds, v);
    assert forall|i: int| 0 <= i < cmds.len() implies alist_get(t, #[trigger] cmds[i]) is Some by {
        lemma_add_missing_get(s, cmds, v, cmds[i]);
        assert(cmds.contains(cmds[i]));
    }
    lemma_add_missing_present(t, cmds, w);
}

proof fn lemma_filter_all_kept(d: Seq<(Seq<char>, StrMap<u32>)>, cutoff: Seq<char>)
    requires
        forall|j: int| 0 <= j < d.len() ==> lex_le(cutoff, (#[trigger] d[j]).0),
    ensures
        filter_marked(d, keep_from(d, cutoff)) == d,
    decreases d.len(),
{
    if d.len() > 0 {
        let t = d.drop_last();
        assert forall|j: int| 0 <= j < t.len() implies lex_le(cutoff, (#[trigger] t[j]).0) by {
            assert(t[j] == d[j]);
        }
        lemma_filter_all_kept(t, cutoff);
        assert(keep_from(d, cutoff).drop_last() =~= keep_from(t, cutoff));
        assert(keep_from(d, cutoff).last() == lex_le(cutoff, d[d.len() - 1].0));
        assert(t.push(d.last()) =~= d);
    }
}

/// Pruning twice at the same time keeps what the first pruning kept:
/// `prune_old_data` is idempotent.
pub proof fn lemma_prune_twice(d: Seq<(Seq<char>, StrMap<u32>)>, cutoff: Seq<char>)
    ensures
        ({
            let f = filter_marked(d, keep_from(d, cutoff));
            filter_marked(f, keep_from(f, cutoff)) == f
        }),
{
    lemma_prune_keeps_recent(d, cutoff);
    lemma_filter_all_kept(filter_marked(d, keep_from(d, cutoff)), cutoff);
}


/// A date range whose end comes before its start holds no selections.
pub proof fn lemma_range_sum_empty(d: Seq<(Seq<char>, DayView)>, cmd: Seq<char>, from: Seq<char>, to: Seq<char>)
    requires
        lex_lt(to, from),
    ensures
        range_sum(d, cmd, from, to) == 0,
    decreases d.len(),
{
    if d.len() > 0 {
        lemma_range_sum_empty(d.drop_last(), cmd, from, to);
        crate::text::lemma_lex_le_transitive(from, d.last().0, to);
        crate::text::lemma_lex_le_transitive(to, from, from);
    }
}

/// A wider date range holds at least as many selections.
pub proof fn lemma_range_sum_monotone(
    d: Seq<(Seq<char>, DayView)>,
    cmd: Seq<char>,
    from: Seq<char>,
    to: Seq<char>,
    wide_from: Seq<char>,
    wide_to: Seq<char>,
)
    requires
        lex_le(wide_from, from),
        lex_le(to, wide_to),
    ensures
        range_sum(d, cmd, from, to) <= range_sum(d, cmd, wide_from, wide_to),
    decreases d.len(),
{
    if d.len() > 0 {
        lemma_range_sum_monotone(d.drop_last(), cmd, from, to, wide_from, wide_to);
        crate::text::lemma_lex_le_transitive(wide_from, from, d.last().0);
        crate::text::lemma_lex_le_transitive(d.last().0, to, wide_to);
    }
}


/// Selections of `c` summed day by day.
pub open spec fn day_by_day_total(d: Seq<(Seq<char>, DayView)>, c: Seq<char>) -> int
    decreases d.len(),
{
    if d.len() == 0 {
        0
    } else {
        day_by_day_total(d.drop_last(), c) + count_in(d.last().1, c)
    }
}

proof fn lemma_pair_total_one_day(day: DayView, c: Seq<char>)
    requires
        alist_distinct(day),
    ensures
        pair_total(day, c) == count_in(day, c),
    decreases day.len(),
{
    if day.len() > 0 {
        let init = day.drop_last();
        assert(alist_distinct(init)) by {
            assert forall|i: int, j: int| 0 <= i < j < init.len() implies init[i].0 != init[j].0 by {
                assert(init[i] == day[i] && init[j] == day[j]);
            }
        }
        lemma_pair_total_one_day(init, c);
        if day.last().0 == c {
            assert forall|j: int| 0 <= j < init.len() implies (#[trigger] init[j]).0 != c by {
                assert(init[j] == day[j]);
                assert(day[j].0 != day[day.len() - 1].0);
            }
            lemma_alist_get_absent(init, c);
        }
    }
}

proof fn lemma_alist_get_absent(s: DayView, c: Seq<char>)
    requires
        forall|j: int| 0 <= j < s.len() ==> (#[trigger] s[j]).0 != c,
    ensures
        alist_get(s, c) is None,
        pair_total(s, c) == 0,
    decreases s.len(),
{
    if s.len() > 0 {
        let init = s.drop_last();
        assert forall|j: int| 0 <= j < init.len() implies (#[trigger] init[j]).0 != c by {
            assert(init[j] == s[j]);
        }
        lemma_alist_get_absent(init, c);
        assert(s[s.len() - 1].0 != c);
    }
}

/// The total selections of a command over all dates are the sum of its
/// counts day by day (`total_selections` against `selections_in_range`).
pub proof fn lemma_total_is_sum_of_days(d: Seq<(Seq<char>, DayView)>, c: Seq<char>)
    requires
        forall|i: int| 0 <= i < d.len() ==> alist_distinct(#[trigger] d[i].1),
    ensures
        pair_total(flat_pairs(d), c) == day_by_day_total(d, c),
    decreases d.len(),
{
    if d.len() > 0 {
        let init = d.drop_last();
        assert forall|i: int| 0 <= i < init.len() implies alist_distinct(#[trigger] init[i].1) by {
            assert(init[i] == d[i]);
        }
        lemma_total_is_sum_of_days(init, c);
        lemma_pair_total_concat(flat_pairs(init), d.last().1, c);
        assert(alist_distinct(d[d.len() - 1].1));
        lemma_pair_total_one_day(d.last().1, c);
    }
}


/// `dedup` keeps every item once: the same items, no duplicates
/// (`all_selected_commands`).
pub proof fn lemma_dedup(s: Seq<Seq<char>>)
    ensures
        forall|x: Seq<char>| dedup(s).contains(x) <==> s.contains(x),
        dedup(s).no_duplicates(),
    decreases s.len(),
{
    if s.len() > 0 {
        let init = s.drop_last();
        lemma_dedup(init);
        let r = dedup(init);
        assert forall|x: Seq<char>| dedup(s).contains(x) <==> s.contains(x) by {
            if s.contains(x) && x != s.last() {
                let j = choose|j: int| 0 <= j < s.len() && s[j] == x;
                assert(init[j] == x);
            }
            if init.contains(x) {
                let j = choose|j: int| 0 <= j < init.len() && init[j] == x;
                assert(s[j] == x);
            }
            if !r.contains(s.last()) {
                let t = r.push(s.last());
                if t.contains(x) {
                    let j = choose|j: int| 0 <= j < t.len() && t[j] == x;
                    if j < r.len() {
                        assert(r[j] == x);
                    }
                }
                if r.contains(x) {
                    let j = choose|j: int| 0 <= j < r.len() && r[j] == x;
                    assert(t[j] == x);
                }
                assert(t[r.len() as int] == s.last());
            }
            assert(s[s.len() - 1] == s.last());
        }
        if !r.contains(s.last()) {
            let t = r.push(s.last());
            assert forall|i: int, j: int| 0 <= i < t.len() && 0 <= j < t.len() && i != j implies t[i] != t[j] by {
                if i < r.len() && j < r.len() {
                    assert(t[i] == r[i] && t[j] == r[j]);
                } else if i < r.len() {
                    assert(t[i] == r[i]);
                } else {
                    assert(t[j] == r[j]);
                }
            }
        }
    }
}

/// A command never selected has no selections in any date range.
pub proof fn lemma_range_sum_unselected(d: Seq<(Seq<char>, DayView)>, cmd: Seq<char>, from: Seq<char>, to: Seq<char>)
    requires
        !keys_of(flat_pairs(d)).contains(cmd),
    ensures
        range_sum(d, cmd, from, to) == 0,
    decreases d.len(),
{
    if d.len() > 0 {
        let init = d.drop_last();
        let day = d.last().1;
        assert(flat_pairs(d) == flat_pairs(init) + day);
        assert(!keys_of(flat_pairs(init)).contains(cmd)) by {
            if keys_of(flat_pairs(init)).contains(cmd) {
                let j = choose|j: int| 0 <= j < keys_of(flat_pairs(init)).len() && keys_of(flat_pairs(init))[j] == cmd;
                assert(keys_of(flat_pairs(d))[j] == cmd);
            }
        }
        lemma_range_sum_unselected(init, cmd, from, to);
        assert forall|j: int| 0 <= j < day.len() implies (#[trigger] day[j]).0 != cmd by {
            let k = flat_pairs(init).len() + j;
            assert(flat_pairs(d)[k] == day[j]);
            assert(keys_of(flat_pairs(d))[k] == day[j].0);
        }
        lemma_alist_get_absent(day, cmd);
    }
}

/// Whether the selections of `command` on the dates from `from_date` to
/// `to_date` number at most `limit`.
pub fn range_sum_at_most(
    daily: &StrMap<StrMap<u32>>,
    command: &str,
    from_date: &str,
    to_date: &str,
    limit: u32,
) -> (b: bool)
    ensures
        b == (range_sum(days_of(*daily), command@, from_date@, to_date@) <= limit),
{
    let ghost d = days_of(*daily);
    let mut total: u64 = 0;
    let mut i: usize = 0;
    let n = daily.len();
    while i < n
        invariant
            i <= n == d.len(),
            d == days_of(*daily),
            total == range_sum(d.take(i as int), command@, from_date@, to_date@),
            total <= limit,
        decreases n - i,
    {
        let date = daily.key_at(i);
        let cmds = daily.value_at(i);
        proof {
            assert(d.take(i + 1).drop_last() =~= d.take(i as int));
            assert(d[i as int] == (date@, cmds@));
        }
        if str_le(from_date, date.as_str()) && str_le(date.as_str(), to_date) {
            match cmds.get(command) {
                Some(c) => {
                    total = total + *c as u64;
                },
                None => {},
            }
        }
        i = i + 1;
        if total > limit as u64 {
            proof {
                lemma_range_sum_prefix(d, command@, from_date@, to_date@, i as int);
            }
            return false;
        }
    }
    assert(d.take(n as int) =~= d);
    true
}


/// A date range with no selections of a command has none on any of its days.
pub proof fn lemma_range_sum_zero(d: Seq<(Seq<char>, DayView)>, cmd: Seq<char>, from: Seq<char>, to: Seq<char>)
    requires
        range_sum(d, cmd, from, to) == 0,
    ensures
        forall|i: int| 0 <= i < d.len() && lex_le(from, d[i].0) && lex_le(d[i].0, to)
            ==> count_in(#[trigger] d[i].1, cmd) == 0,
    decreases d.len(),
{
    if d.len() > 0 {
        let init = d.drop_last();
        lemma_range_sum_nonneg(init, cmd, from, to);
        lemma_range_sum_zero(init, cmd, from, to);
        assert forall|i: int| 0 <= i < d.len() && lex_le(from, d[i].0) && lex_le(d[i].0, to)
            implies count_in(#[trigger] d[i].1, cmd) == 0 by {
            if i < init.len() {
                assert(init[i] == d[i]);
            }
        }
    }
}

} // verus!
