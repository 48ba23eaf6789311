//! What `bh stats` reports: the most selected commands, the trending ones,
//! the new ones and the totals. Printing the report is left to the caller.

use vstd::prelude::*;
use crate::dates::{date_since_fits, date_since_fits_check, days_since, days_since_spec, epoch_date_string, today_str};
use crate::labels::{
    compute_labels, day_before, day_before_str, label_of, labels_fit, labels_fit_check, sel_30d, sel_7d, sel_prev_7d,
    selected_cmds, zero_keys, Label,
};
use crate::sorting::{order_by_keys, sorted_positions};
use crate::stats::{
    all_selected_commands, days_of, first_seen_of, flat_pairs, selections_in_range, DayView, Stats,
};
use crate::strmap::{alist_get, StrMap};
use crate::text::{lex_le, str_le};

verus! {

/// The least of some strings in the order of `str`, if there are any.
pub open spec fn least(s: Seq<Seq<char>>) -> Option<Seq<char>>
    decreases s.len(),
{
    if s.len() == 0 {
        None
    } else {
        match least(s.drop_last()) {
            Some(m) => if lex_le(m, s.last()) { Some(m) } else { Some(s.last()) },
            None => Some(s.last()),
        }
    }
}

/// The dates that occur in the statistics: the days with selections, then
/// the first-seen dates.
pub open spec fn dates_in(stats: Stats) -> Seq<Seq<char>> {
    days_of(stats.daily_selections).map_values(|p: (Seq<char>, DayView)| p.0) + first_seen_of(
        stats.first_seen,
    ).map_values(|p: (Seq<char>, Seq<char>)| p.1)
}

/// The earliest date in the statistics, or today when there is none.
pub open spec fn earliest_spec(stats: Stats, now_secs: int) -> Seq<char> {
    match least(dates_in(stats)) {
        Some(m) => m,
        None => epoch_date_string(now_secs),
    }
}

/// The commands of `cs` selected in the last 30 days, with those counts.
pub open spec fn counts_30d(stats: Stats, now_secs: int, cs: Seq<Seq<char>>) -> Seq<(Seq<char>, u32)>
    decreases cs.len(),
{
    if cs.len() == 0 {
        Seq::empty()
    } else {
        let r = counts_30d(stats, now_secs, cs.drop_last());
        let v = sel_30d(stats, now_secs, cs.last());
        if v > 0 {
            r.push((cs.last(), v as u32))
        } else {
            r
        }
    }
}

pub open spec fn count_keys(ps: Seq<(Seq<char>, u32)>) -> Seq<u128> {
    ps.map_values(|p: (Seq<char>, u32)| p.1 as u128)
}

/// Commands selected in the last 30 days, most selected first (equal
/// counts in order of first selection).
pub open spec fn top_selected_spec(stats: Stats, now_secs: int) -> Seq<(Seq<char>, u32)> {
    let ps = counts_30d(stats, now_secs, selected_cmds(stats));
    sorted_positions(count_keys(ps), zero_keys(ps.len())).map_values(|k: int| ps[k])
}

/// The commands of `cs` selected more in the last 7 days than in the 7
/// days before, and at least once then: `(command, before, recent)`.
pub open spec fn rising(stats: Stats, now_secs: int, cs: Seq<Seq<char>>) -> Seq<(Seq<char>, u32, u32)>
    decreases cs.len(),
{
    if cs.len() == 0 {
        Seq::empty()
    } else {
        let r = rising(stats, now_secs, cs.drop_last());
        let c = cs.last();
        let prev = sel_prev_7d(stats, now_secs, c);
        let recent = sel_7d(stats, now_secs, c);
        if recent > prev && prev > 0 {
            r.push((c, prev as u32, recent as u32))
        } else {
            r
        }
    }
}

/// The growth `(recent - prev) / prev` as a key: scaled by `2^64` and
/// rounded down. Growths of counts below `2^32` that differ are at least
/// `2^-64` apart, so the keys order them exactly as the growths.
pub open spec fn growth_key(prev: int, recent: int) -> u128 {
    (((recent - prev) * 0x1_0000_0000_0000_0000) / prev) as u128
}

pub open spec fn growth_keys(ts: Seq<(Seq<char>, u32, u32)>) -> Seq<u128> {
    ts.map_values(|t: (Seq<char>, u32, u32)| growth_key(t.1 as int, t.2 as int))
}

/// Trending commands, fastest growing first (equal growth in order of
/// first selection).
pub open spec fn trending_spec(stats: Stats, now_secs: int) -> Seq<(Seq<char>, u32, u32)> {
    let ts = rising(stats, now_secs, selected_cmds(stats));
    sorted_positions(growth_keys(ts), zero_keys(ts.len())).map_values(|k: int| ts[k])
}

/// Commands first seen at most 3 days ago, in order.
pub open spec fn new_in(now_secs: int, fs: Seq<(Seq<char>, Seq<char>)>) -> Seq<Seq<char>>
    decreases fs.len(),
{
    if fs.len() == 0 {
        Seq::empty()
    } else {
        let r = new_in(now_secs, fs.drop_last());
        match days_since_spec(fs.last().1, now_secs) {
            Some(k) => if k <= 3 { r.push(fs.last().0) } else { r },
            None => r,
        }
    }
}

/// Sum of all counts.
pub open spec fn count_sum(p: DayView) -> int
    decreases p.len(),
{
    if p.len() == 0 {
        0
    } else {
        count_sum(p.drop_last()) + p.last().1
    }
}

/// The report can be computed within its integer types: the labels', the
/// earliest date's and the total's.
pub open spec fn report_fits(stats: Stats, now_secs: int) -> bool {
    &&& labels_fit(stats, now_secs)
    &&& (least(dates_in(stats)) matches Some(m) ==> date_since_fits(m, now_secs))
    &&& count_sum(flat_pairs(days_of(stats.daily_selections))) <= u32::MAX
}

/// What `bh stats` shows.
pub struct StatsReport {
    /// The earliest date recorded (today when there is none).
    pub earliest: String,
    /// Days from the earliest date to today.
    pub days_tracked: i64,
    /// Commands selected in the last 30 days, most first, with the counts.
    pub top_selected: Vec<(String, u32)>,
    /// Commands selected more often lately: `(command, previous 7 days, last 7 days)`.
    pub trending: Vec<(String, u32, u32)>,
    /// Commands first seen in the last 3 days.
    pub new_commands: Vec<String>,
    /// Number of commands with a first-seen date.
    pub total_commands: usize,
    /// Selections recorded over all days.
    pub total_selections: u32,
    /// The labels of the commands.
    pub labels: StrMap<Label>,
}

fn earliest_date(stats: &Stats, now_secs: u64) -> (r: String)
    ensures
        r@ == earliest_spec(*stats, now_secs as int),
{
    let ghost ds = dates_in(*stats);
    let ghost k1 = days_of(stats.daily_selections).map_values(|p: (Seq<char>, DayView)| p.0);
    let ghost k2 = first_seen_of(stats.first_seen).map_values(|p: (Seq<char>, Seq<char>)| p.1);
    let mut best: Option<String> = None;
    let mut i: usize = 0;
    let n1 = stats.daily_selections.len();
    while i < n1
        invariant
            i <= n1 == k1.len(),
            ds == k1 + k2,
            k1 == days_of(stats.daily_selections).map_values(|p: (Seq<char>, DayView)| p.0),
            match best {
                Some(b) => least(ds.take(i as int)) == Some(b@),
                None => least(ds.take(i as int)) is None,
            },
        decreases n1 - i,
    {
        let d = stats.daily_selections.key_at(i);
        proof {
            assert(ds.take(i + 1).drop_last() =~= ds.take(i as int));
            assert(ds.take(i + 1).last() == d@);
        }
        let replace = match &best {
            Some(b) => !str_le(b.as_str(), d.as_str()),
            None => true,
        };
        if replace {
            best = Some(d.clone());
        }
        i = i + 1;
    }
    let mut j: usize = 0;
    let n2 = stats.first_seen.len();
    while j < n2
        invariant
            j <= n2 == k2.len(),
            ds == k1 + k2,
            n1 == k1.len(),
            k2 == first_seen_of(stats.first_seen).map_values(|p: (Seq<char>, Seq<char>)| p.1),
            match best {
                Some(b) => least(ds.take(n1 + j)) == Some(b@),
                None => least(ds.take(n1 + j)) is None,
            },
        decreases n2 - j,
    {
        let d = stats.first_seen.value_at(j);
        proof {
            assert(ds.take(n1 + j + 1).drop_last() =~= ds.take(n1 + j));
            assert(ds.take(n1 + j + 1).last() == d@);
        }
        let replace = match &best {
            Some(b) => !str_le(b.as_str(), d.as_str()),
            None => true,
        };
        if replace {
            best = Some(d.clone());
        }
        j = j + 1;
    }
    assert(ds.take(n1 + n2) =~= ds);
    match best {
        Some(b) => b,
        None => today_str(now_secs),
    }
}

/// Computes the report of `bh stats` as of the clock reading `now_secs`.
pub fn stats_report(stats: &Stats, now_secs: u64) -> (r: StatsReport)
    requires
        report_fits(*stats, now_secs as int),
    ensures
        r.earliest@ == earliest_spec(*stats, now_secs as int),
        r.days_tracked as int == (match days_since_spec(earliest_spec(*stats, now_secs as int), now_secs as int) {
            Some(k) => k,
            None => 0,
        }),
        r.top_selected@.map_values(|p: (String, u32)| (p.0@, p.1)) == top_selected_spec(*stats, now_secs as int),
        r.trending@.map_values(|t: (String, u32, u32)| (t.0@, t.1, t.2)) == trending_spec(*stats, now_secs as int),
        r.new_commands@.map_values(|s: String| s@) == new_in(now_secs as int, first_seen_of(stats.first_seen)),
        r.total_commands == stats.first_seen@.len(),
        r.total_selections == count_sum(flat_pairs(days_of(stats.daily_selections))),
        forall|c: Seq<char>| #[trigger] alist_get(r.labels@, c) == label_of(*stats, Seq::empty(), now_secs as int, c),
{
    let ghost now = now_secs as int;
    let today = today_str(now_secs);
    let earliest = earliest_date(stats, now_secs);
    proof {
        let ds = dates_in(*stats);
        if least(ds) is Some {
            assert(date_since_fits(least(ds).unwrap(), now));
        } else {
            crate::dates::lemma_epoch_date_roundtrip(now);
            assert(date_since_fits(epoch_date_string(now), now));
        }
    }
    let days_tracked = match days_since(earliest.as_str(), now_secs) {
        Some(k) => k,
        None => 0,
    };
    let from_30d = day_before_str(today.as_str(), 30, now_secs);
    let from_7d = day_before_str(today.as_str(), 7, now_secs);
    let from_14d = day_before_str(today.as_str(), 14, now_secs);
    let prev_end = day_before_str(today.as_str(), 8, now_secs);
    let all_cmds = all_selected_commands(&stats.daily_selections);
    let ghost cs = selected_cmds(*stats);
    // Counts of the last 30 days, and the rising commands.
    let mut counts: Vec<(String, u32)> = Vec::new();
    let mut ckeys: Vec<u128> = Vec::new();
    let mut rises: Vec<(String, u32, u32)> = Vec::new();
    let mut gkeys: Vec<u128> = Vec::new();
    let mut k: usize = 0;
    while k < all_cmds.len()
        invariant
            now == now_secs as int,
            k <= all_cmds@.len() == cs.len(),
            all_cmds@.map_values(|x: String| x@) == cs,
            today@ == epoch_date_string(now),
            from_30d@ == day_before(now, 30),
            from_7d@ == day_before(now, 7),
            from_14d@ == day_before(now, 14),
            prev_end@ == day_before(now, 8),
            labels_fit(*stats, now),
            counts@.map_values(|p: (String, u32)| (p.0@, p.1)) == counts_30d(*stats, now, cs.take(k as int)),
            ckeys@ == count_keys(counts_30d(*stats, now, cs.take(k as int))),
            rises@.map_values(|t: (String, u32, u32)| (t.0@, t.1, t.2)) == rising(*stats, now, cs.take(k as int)),
            gkeys@ == growth_keys(rising(*stats, now, cs.take(k as int))),
        decreases all_cmds@.len() - k,
    {
        let cmd = &all_cmds[k];
        proof {
            assert(cs[k as int] == cmd@);
            assert(cs.take(k + 1).drop_last() =~= cs.take(k as int));
            assert(cs.take(k + 1).last() == cmd@);
            assert(sel_30d(*stats, now, cmd@) <= u32::MAX);
            assert(sel_7d(*stats, now, cmd@) <= u32::MAX);
            assert(2 * sel_prev_7d(*stats, now, cmd@) <= u32::MAX);
        }
        let c30 = selections_in_range(&stats.daily_selections, cmd.as_str(), from_30d.as_str(), today.as_str());
        let ghost cb = counts@.map_values(|p: (String, u32)| (p.0@, p.1));
        if c30 > 0 {
            counts.push((cmd.clone(), c30));
            ckeys.push(c30 as u128);
            assert(counts@.map_values(|p: (String, u32)| (p.0@, p.1)) =~= cb.push((cmd@, c30)));
            assert(ckeys@ =~= count_keys(counts_30d(*stats, now, cs.take(k + 1))));
        } else {
            assert(counts_30d(*stats, now, cs.take(k + 1)) == counts_30d(*stats, now, cs.take(k as int)));
        }
        let recent = selections_in_range(&stats.daily_selections, cmd.as_str(), from_7d.as_str(), today.as_str());
        let prev = selections_in_range(&stats.daily_selections, cmd.as_str(), from_14d.as_str(), prev_end.as_str());
        let ghost rb = rises@.map_values(|t: (String, u32, u32)| (t.0@, t.1, t.2));
        if recent > prev && prev > 0 {
            rises.push((cmd.clone(), prev, recent));
            let key: u128 = ((recent - prev) as u128) * 0x1_0000_0000_0000_0000u128 / (prev as u128);
            gkeys.push(key);
            assert(rises@.map_values(|t: (String, u32, u32)| (t.0@, t.1, t.2)) =~= rb.push((cmd@, prev, recent)));
            assert(gkeys@ =~= growth_keys(rising(*stats, now, cs.take(k + 1))));
        } else {
            assert(rising(*stats, now, cs.take(k + 1)) == rising(*stats, now, cs.take(k as int)));
        }
        k = k + 1;
    }
    assert(cs.take(cs.len() as int) =~= cs);
    let ghost ps = counts_30d(*stats, now, cs);
    let ghost ts = rising(*stats, now, cs);
    // Most selected first.
    let zeros_c = zeros(counts.len());
    let order_c = order_by_keys(&ckeys, &zeros_c);
    proof {
        crate::sorting::lemma_sorted_positions_len(ckeys@, zeros_c@);
    }
    let top_selected = pick_counts(&counts, &order_c);
    proof {
        assert(top_selected@.map_values(|p: (String, u32)| (p.0@, p.1)) =~= top_selected_spec(*stats, now));
    }
    // Fastest growing first.
    let zeros_g = zeros(rises.len());
    let order_g = order_by_keys(&gkeys, &zeros_g);
    proof {
        crate::sorting::lemma_sorted_positions_len(gkeys@, zeros_g@);
    }
    let trending = pick_rises(&rises, &order_g);
    proof {
        assert(trending@.map_values(|t: (String, u32, u32)| (t.0@, t.1, t.2)) =~= trending_spec(*stats, now));
    }
    // New commands.
    let ghost fs = first_seen_of(stats.first_seen);
    let mut new_commands: Vec<String> = Vec::new();
    let mut j: usize = 0;
    while j < stats.first_seen.len()
        invariant
            now == now_secs as int,
            j <= stats.first_seen@.len() == fs.len(),
            fs == first_seen_of(stats.first_seen),
            labels_fit(*stats, now),
            new_commands@.map_values(|s: String| s@) == new_in(now, fs.take(j as int)),
        decreases stats.first_seen@.len() - j,
    {
        let c = stats.first_seen.key_at(j);
        let d = stats.first_seen.value_at(j);
        proof {
            assert(fs[j as int] == (c@, d@));
            assert(fs.take(j + 1).drop_last() =~= fs.take(j as int));
            assert(fs.take(j + 1).last() == (c@, d@));
            assert(date_since_fits(fs[j as int].1, now));
        }
        let ghost before = new_commands@.map_values(|s: String| s@);
        match days_since(d.as_str(), now_secs) {
            Some(k) => {
                if k <= 3 {
                    new_commands.push(c.clone());
                    assert(new_commands@.map_values(|s: String| s@) =~= before.push(c@));
                }
            },
            None => {},
        }
        j = j + 1;
    }
    assert(fs.take(fs.len() as int) =~= fs);
    let total_selections = sum_selections(&stats.daily_selections);
    let labels = compute_labels(stats, now_secs);
    StatsReport {
        earliest,
        days_tracked,
        top_selected,
        trending,
        new_commands,
        total_commands: stats.first_seen.len(),
        total_selections,
        labels,
    }
}

/// The items of `v` at the positions `order`.
#[verifier::spinoff_prover]
fn pick_counts(v: &Vec<(String, u32)>, order: &Vec<usize>) -> (r: Vec<(String, u32)>)
    requires
        forall|j: int| 0 <= j < order@.len() ==> order@[j] < v@.len(),
    ensures
        r@.len() == order@.len(),
        forall|j: int| 0 <= j < order@.len() ==> #[trigger] r@[j].0@ == v@[order@[j] as int].0@ && r@[j].1 == v@[order@[j] as int].1,
{
    let mut r: Vec<(String, u32)> = Vec::new();
    let mut t: usize = 0;
    while t < order.len()
        invariant
            t <= order@.len(),
            forall|j: int| 0 <= j < order@.len() ==> order@[j] < v@.len(),
            r@.len() == t,
            forall|j: int| 0 <= j < t ==> #[trigger] r@[j].0@ == v@[order@[j] as int].0@ && r@[j].1 == v@[order@[j] as int].1,
        decreases order@.len() - t,
    {
        let p = &v[order[t]];
        r.push((p.0.clone(), p.1));
        t = t + 1;
    }
    r
}

/// The items of `v` at the positions `order`.
fn pick_rises(v: &Vec<(String, u32, u32)>, order: &Vec<usize>) -> (r: Vec<(String, u32, u32)>)
    requires
        forall|j: int| 0 <= j < order@.len() ==> order@[j] < v@.len(),
    ensures
        r@.len() == order@.len(),
        forall|j: int| 0 <= j < order@.len() ==> #[trigger] r@[j].0@ == v@[order@[j] as int].0@ && r@[j].1 == v@[order@[j] as int].1
            && r@[j].2 == v@[order@[j] as int].2,
{
    let mut r: Vec<(String, u32, u32)> = Vec::new();
    let mut t: usize = 0;
    while t < order.len()
        invariant
            t <= order@.len(),
            forall|j: int| 0 <= j < order@.len() ==> order@[j] < v@.len(),
            r@.len() == t,
            forall|j: int| 0 <= j < t ==> #[trigger] r@[j].0@ == v@[order@[j] as int].0@ && r@[j].1 == v@[order@[j] as int].1
                && r@[j].2 == v@[order@[j] as int].2,
        decreases order@.len() - t,
    {
        let x = &v[order[t]];
        r.push((x.0.clone(), x.1, x.2));
        t = t + 1;
    }
    r
}

fn zeros(n: usize) -> (r: Vec<u128>)
    ensures
        r@ == zero_keys(n as nat),
{
    let mut r: Vec<u128> = Vec::new();
    let mut i: usize = 0;
    while i < n
        invariant
            i <= n,
            r@ == zero_keys(n as nat).take(i as int),
        decreases n - i,
    {
        r.push(0);
        i = i + 1;
        assert(r@ =~= zero_keys(n as nat).take(i as int));
    }
    assert(r@ =~= zero_keys(n as nat));
    r
}

proof fn lemma_count_sum_concat(a: DayView, b: DayView)
    ensures
        count_sum(a + b) == count_sum(a) + count_sum(b),
    decreases b.len(),
{
    if b.len() == 0 {
        assert(a + b =~= a);
    } else {
        assert((a + b).drop_last() =~= a + b.drop_last());
        lemma_count_sum_concat(a, b.drop_last());
    }
}

proof fn lemma_count_sum_nonneg(p: DayView)
    ensures
        count_sum(p) >= 0,
    decreases p.len(),
{
    if p.len() > 0 {
        lemma_count_sum_nonneg(p.drop_last());
    }
}

proof fn lemma_flat_sum_prefix(d: Seq<(Seq<char>, DayView)>, i: int)
    requires
        0 <= i <= d.len(),
    ensures
        count_sum(flat_pairs(d.take(i))) <= count_sum(flat_pairs(d)),
    decreases d.len() - i,
{
    if i < d.len() {
        lemma_flat_sum_prefix(d, i + 1);
        assert(d.take(i + 1).drop_last() =~= d.take(i));
        lemma_count_sum_concat(flat_pairs(d.take(i)), d[i].1);
        lemma_count_sum_nonneg(d[i].1);
    } else {
        assert(d.take(i) =~= d);
    }
}

/// All selections recorded, over all days.
fn sum_selections(daily: &StrMap<StrMap<u32>>) -> (r: u32)
    requires
        count_sum(flat_pairs(days_of(*daily))) <= u32::MAX,
    ensures
        r == count_sum(flat_pairs(days_of(*daily))),
{
    let ghost d = days_of(*daily);
    let mut total: u32 = 0;
    let mut i: usize = 0;
    while i < daily.len()
        invariant
            i <= daily@.len() == d.len(),
            d == days_of(*daily),
            count_sum(flat_pairs(d)) <= u32::MAX,
            total == count_sum(flat_pairs(d.take(i as int))),
        decreases daily@.len() - i,
    {
        let day = daily.value_at(i);
        let ghost prefix = flat_pairs(d.take(i as int));
        proof {
            assert(d[i as int] == (daily@[i as int].0, day@));
            assert(d.take(i + 1).drop_last() =~= d.take(i as int));
            assert(flat_pairs(d.take(i + 1)) == prefix + day@);
            lemma_flat_sum_prefix(d, i + 1);
            lemma_count_sum_concat(prefix, day@);
        }
        let mut j: usize = 0;
        while j < day.len()
            invariant
                j <= day@.len(),
                count_sum(prefix + day@) <= u32::MAX,
                count_sum(prefix + day@) == count_sum(prefix) + count_sum(day@),
                total == count_sum(prefix) + count_sum(day@.take(j as int)),
            decreases day@.len() - j,
        {
            proof {
                assert(day@.take(j + 1).drop_last() =~= day@.take(j as int));
                lemma_count_sum_concat(day@.take(j + 1), day@.skip(j + 1));
                assert(day@.take(j + 1) + day@.skip(j + 1) =~= day@);
                lemma_count_sum_nonneg(day@.skip(j + 1));
                lemma_count_sum_nonneg(prefix);
            }
            total = total + *day.value_at(j);
            j = j + 1;
        }
        assert(day@.take(day@.len() as int) =~= day@);
        i = i + 1;
    }
    assert(d.take(d.len() as int) =~= d);
    total
}

// ── Laws ───────────────────────────────────────────────────────────────

proof fn lemma_floor_order(a1: int, p1: int, a2: int, p2: int, d: int)
    requires
        0 < p1,
        0 < p2,
        p1 * p2 <= d,
        0 <= a1,
        0 <= a2,
        a1 * p2 >= a2 * p1 + d,
    ensures
        a1 / p1 > a2 / p2,
{
    let k1 = a1 / p1;
    let k2 = a2 / p2;
    vstd::arithmetic::div_mod::lemma_fundamental_div_mod(a1, p1);
    vstd::arithmetic::div_mod::lemma_fundamental_div_mod(a2, p2);
    vstd::arithmetic::div_mod::lemma_mod_bound(a1, p1);
    vstd::arithmetic::div_mod::lemma_mod_bound(a2, p2);
    if k1 <= k2 {
        assert(a1 < (k2 + 1) * p1) by (nonlinear_arith)
            requires
                a1 == p1 * k1 + a1 % p1,
                a1 % p1 < p1,
                k1 <= k2,
                0 < p1,
        ;
        assert(a2 >= k2 * p2) by (nonlinear_arith)
            requires
                a2 == p2 * k2 + a2 % p2,
                0 <= a2 % p2,
        ;
        assert(a1 * p2 < (k2 + 1) * p1 * p2) by (nonlinear_arith)
            requires
                a1 < (k2 + 1) * p1,
                0 < p2,
        ;
        assert(a2 * p1 >= k2 * p2 * p1) by (nonlinear_arith)
            requires
                a2 >= k2 * p2,
                0 < p1,
        ;
        assert(a1 * p2 - a2 * p1 < p1 * p2) by (nonlinear_arith)
            requires
                a1 * p2 < (k2 + 1) * p1 * p2,
                a2 * p1 >= k2 * p2 * p1,
        ;
        assert(false);
    }
}

proof fn lemma_floor_equal(a1: int, p1: int, a2: int, p2: int)
    requires
        0 < p1,
        0 < p2,
        0 <= a1,
        0 <= a2,
        a1 * p2 == a2 * p1,
    ensures
        a1 / p1 == a2 / p2,
{
    let k1 = a1 / p1;
    let k2 = a2 / p2;
    vstd::arithmetic::div_mod::lemma_fundamental_div_mod(a1, p1);
    vstd::arithmetic::div_mod::lemma_fundamental_div_mod(a2, p2);
    vstd::arithmetic::div_mod::lemma_mod_bound(a1, p1);
    vstd::arithmetic::div_mod::lemma_mod_bound(a2, p2);
    assert(k1 * p1 * p2 <= a1 * p2) by (nonlinear_arith)
        requires
            a1 == p1 * k1 + a1 % p1,
            0 <= a1 % p1,
            0 < p2,
    ;
    assert(a2 * p1 < (k2 + 1) * p2 * p1) by (nonlinear_arith)
        requires
            a2 == p2 * k2 + a2 % p2,
            a2 % p2 < p2,
            0 < p1,
    ;
    assert(k2 * p2 * p1 <= a2 * p1) by (nonlinear_arith)
        requires
            a2 == p2 * k2 + a2 % p2,
            0 <= a2 % p2,
            0 < p1,
    ;
    assert(a1 * p2 < (k1 + 1) * p1 * p2) by (nonlinear_arith)
        requires
            a1 == p1 * k1 + a1 % p1,
            a1 % p1 < p1,
            0 < p2,
    ;
    assert(k1 < k2 + 1) by (nonlinear_arith)
        requires
            k1 * p1 * p2 <= a1 * p2,
            a1 * p2 == a2 * p1,
            a2 * p1 < (k2 + 1) * p2 * p1,
            0 < p1,
            0 < p2,
    ;
    assert(k2 < k1 + 1) by (nonlinear_arith)
        requires
            k2 * p2 * p1 <= a2 * p1,
            a1 * p2 == a2 * p1,
            a1 * p2 < (k1 + 1) * p1 * p2,
            0 < p1,
            0 < p2,
    ;
}

/// The growth keys order trending commands exactly as their growths
/// `(recent - prev) / prev` do, for counts below `2^32`: one growth is
/// larger than another exactly when its key is, and equal exactly when its
/// key is.
pub proof fn lemma_growth_key_exact(p1: int, r1: int, p2: int, r2: int)
    requires
        0 < p1 <= r1 < 0x1_0000_0000,
        0 < p2 <= r2 < 0x1_0000_0000,
    ensures
        ((r1 - p1) * p2 > (r2 - p2) * p1) == (growth_key(p1, r1) > growth_key(p2, r2)),
        ((r1 - p1) * p2 == (r2 - p2) * p1) == (growth_key(p1, r1) == growth_key(p2, r2)),
{
    let d: int = 0x1_0000_0000_0000_0000;
    let n1 = r1 - p1;
    let n2 = r2 - p2;
    let a1 = n1 * d;
    let a2 = n2 * d;
    assert(0 <= a1 && 0 <= a2) by (nonlinear_arith)
        requires
            a1 == n1 * d,
            a2 == n2 * d,
            n1 >= 0,
            n2 >= 0,
            d > 0,
    ;
    assert(p1 * p2 <= d) by (nonlinear_arith)
        requires
            0 < p1 < 0x1_0000_0000,
            0 < p2 < 0x1_0000_0000,
            d == 0x1_0000_0000_0000_0000,
    ;
    vstd::arithmetic::div_mod::lemma_div_is_ordered_by_denominator(a1, 1, p1);
    vstd::arithmetic::div_mod::lemma_div_is_ordered_by_denominator(a2, 1, p2);
    assert(a1 < 0x1_0000_0000_0000_0000_0000_0000) by (nonlinear_arith)
        requires
            a1 == n1 * d,
            0 <= n1 < 0x1_0000_0000,
            d == 0x1_0000_0000_0000_0000,
    ;
    assert(a2 < 0x1_0000_0000_0000_0000_0000_0000) by (nonlinear_arith)
        requires
            a2 == n2 * d,
            0 <= n2 < 0x1_0000_0000,
            d == 0x1_0000_0000_0000_0000,
    ;
    vstd::arithmetic::div_mod::lemma_div_pos_is_pos(a1, p1);
    vstd::arithmetic::div_mod::lemma_div_pos_is_pos(a2, p2);
    assert(growth_key(p1, r1) as int == a1 / p1);
    assert(growth_key(p2, r2) as int == a2 / p2);
    if n1 * p2 > n2 * p1 {
        assert(a1 * p2 >= a2 * p1 + d) by (nonlinear_arith)
            requires
                n1 * p2 >= n2 * p1 + 1,
                a1 == n1 * d,
                a2 == n2 * d,
                d > 0,
        ;
        lemma_floor_order(a1, p1, a2, p2, d);
    } else if n1 * p2 == n2 * p1 {
        assert(a1 * p2 == a2 * p1) by (nonlinear_arith)
            requires
                n1 * p2 == n2 * p1,
                a1 == n1 * d,
                a2 == n2 * d,
        ;
        lemma_floor_equal(a1, p1, a2, p2);
    } else {
        assert(a2 * p1 >= a1 * p2 + d) by (nonlinear_arith)
            requires
                n2 * p1 >= n1 * p2 + 1,
                a1 == n1 * d,
                a2 == n2 * d,
                d > 0,
        ;
        assert(p2 * p1 <= d) by (nonlinear_arith)
            requires
                p1 * p2 <= d,
        ;
        lemma_floor_order(a2, p2, a1, p1, d);
    }
}


/// Whether all the selections together number at most `limit`.
fn total_at_most(daily: &StrMap<StrMap<u32>>, limit: u32) -> (b: bool)
    ensures
        b == (count_sum(flat_pairs(days_of(*daily))) <= limit),
{
    let ghost d = days_of(*daily);
    let cap: u64 = limit as u64 + 1;
    let mut total: u64 = 0;
    let mut i: usize = 0;
    while i < daily.len()
        invariant
            i <= daily@.len() == d.len(),
            d == days_of(*daily),
            cap == limit + 1,
            total == (if count_sum(flat_pairs(d.take(i as int))) <= cap {
                count_sum(flat_pairs(d.take(i as int)))
            } else {
                cap as int
            }),
        decreases daily@.len() - i,
    {
        let day = daily.value_at(i);
        let ghost p = flat_pairs(d.take(i as int));
        assert(d[i as int].1 == day@);
        let mut j: usize = 0;
        while j < day.len()
            invariant
                j <= day@.len(),
                cap == limit + 1,
                total == (if count_sum(p + day@.take(j as int)) <= cap {
                    count_sum(p + day@.take(j as int))
                } else {
                    cap as int
                }),
            decreases day@.len() - j,
        {
            let c = *day.value_at(j) as u64;
            assert((p + day@.take(j + 1)).drop_last() =~= p + day@.take(j as int));
            assert((p + day@.take(j + 1)).last() == day@[j as int]);
            total = if total + c > cap { cap } else { total + c };
            j = j + 1;
        }
        proof {
            assert(d.take(i + 1).drop_last() =~= d.take(i as int));
            assert(day@.take(day@.len() as int) =~= day@);
            assert(flat_pairs(d.take(i + 1)) == p + day@);
        }
        i = i + 1;
    }
    assert(d.take(d.len() as int) =~= d);
    total <= limit as u64
}

/// Whether the report of `bh stats` can be computed within its integer
/// types (`report_fits`): the check a caller makes before `stats_report`.
pub fn report_fits_check(stats: &Stats, now_secs: u64) -> (b: bool)
    ensures
        b == report_fits(*stats, now_secs as int),
{
    if !labels_fit_check(stats, now_secs) {
        return false;
    }
    let earliest = earliest_date(stats, now_secs);
    if !date_since_fits_check(earliest.as_str(), now_secs) {
        proof {
            if least(dates_in(*stats)) is None {
                crate::dates::lemma_epoch_date_roundtrip(now_secs as int);
                assert(date_since_fits(epoch_date_string(now_secs as int), now_secs as int));
            }
        }
        return false;
    }
    total_at_most(&stats.daily_selections, u32::MAX)
}


/// The rising commands grew: each has some selections in the previous
/// week and more in the last one.
proof fn lemma_rising_grew(stats: Stats, now_secs: int, cs: Seq<Seq<char>>)
    requires
        labels_fit(stats, now_secs),
    ensures
        rising(stats, now_secs, cs).len() <= cs.len(),
        forall|k: int| 0 <= k < rising(stats, now_secs, cs).len() ==> {
            let t = #[trigger] rising(stats, now_secs, cs)[k];
            0 < t.1 < t.2
        },
    decreases cs.len(),
{
    if cs.len() > 0 {
        let init = cs.drop_last();
        lemma_rising_grew(stats, now_secs, init);
        let c = cs.last();
        assert(sel_7d(stats, now_secs, c) <= u32::MAX);
        assert(2 * sel_prev_7d(stats, now_secs, c) <= u32::MAX);
        let r = rising(stats, now_secs, init);
        assert forall|k: int| 0 <= k < rising(stats, now_secs, cs).len() implies {
            let t = #[trigger] rising(stats, now_secs, cs)[k];
            0 < t.1 < t.2
        } by {
            if k < r.len() {
                assert(rising(stats, now_secs, cs)[k] == r[k]);
            }
        }
    }
}

/// Floors of `x / p` and `y / q` scaled by `2^64` keep the strict order of
/// the fractions when `p * q < 2^64`.
proof fn lemma_growth_key_strict(xa: int, pa: int, xb: int, pb: int)
    requires
        1 <= pa,
        1 <= pb,
        pa * pb < 0x1_0000_0000_0000_0000,
        0 <= xa,
        0 <= xb,
        xa * pb < xb * pa,
    ensures
        (xa * 0x1_0000_0000_0000_0000) / pa < (xb * 0x1_0000_0000_0000_0000) / pb,
{
    let k: int = 0x1_0000_0000_0000_0000;
    let ka = (xa * k) / pa;
    let kb = (xb * k) / pb;
    vstd::arithmetic::div_mod::lemma_fundamental_div_mod(xa * k, pa);
    vstd::arithmetic::div_mod::lemma_fundamental_div_mod(xb * k, pb);
    vstd::arithmetic::div_mod::lemma_mod_bound(xa * k, pa);
    vstd::arithmetic::div_mod::lemma_mod_bound(xb * k, pb);
    assert(ka * pa <= xa * k) by (nonlinear_arith)
        requires
            xa * k == pa * ka + (xa * k) % pa,
            (xa * k) % pa >= 0,
    ;
    assert(xb * k < (kb + 1) * pb) by (nonlinear_arith)
        requires
            xb * k == pb * kb + (xb * k) % pb,
            (xb * k) % pb < pb,
    ;
    if kb <= ka {
        assert((kb + 1) * pb <= (ka + 1) * pb) by (nonlinear_arith)
            requires
                kb <= ka,
                pb >= 1,
        ;
        assert(xb * k * pa < (ka + 1) * pb * pa) by (nonlinear_arith)
            requires
                xb * k < (ka + 1) * pb,
                pa >= 1,
        ;
        assert((ka + 1) * pb * pa <= xa * k * pb + pa * pb) by (nonlinear_arith)
            requires
                ka * pa <= xa * k,
                pb >= 1,
        ;
        assert(xb * k * pa >= xa * k * pb + k) by (nonlinear_arith)
            requires
                xb * pa >= xa * pb + 1,
                k > 0,
        ;
        assert(false);
    }
}

/// Trending commands are listed fastest-growing first: every listed command
/// grew (`0 < prev < recent`), and of two listed commands the earlier grew
/// by no smaller fraction: `(recent - prev) / prev` never increases down
/// the list.
pub proof fn lemma_trending_order(stats: Stats, now_secs: int, a: int, b: int)
    requires
        labels_fit(stats, now_secs),
        selected_cmds(stats).len() <= usize::MAX,
        0 <= a < b < trending_spec(stats, now_secs).len(),
    ensures
        ({
            let ta = trending_spec(stats, now_secs)[a];
            let tb = trending_spec(stats, now_secs)[b];
            &&& 0 < ta.1 < ta.2
            &&& 0 < tb.1 < tb.2
            &&& (ta.2 - ta.1) * tb.1 >= (tb.2 - tb.1) * ta.1
        }),
{
    let ts = rising(stats, now_secs, selected_cmds(stats));
    lemma_rising_grew(stats, now_secs, selected_cmds(stats));
    let keys = growth_keys(ts);
    let zs = zero_keys(ts.len());
    crate::sorting::lemma_sorted_positions_len(keys, zs);
    crate::sorting::lemma_sorted_positions_order(keys, zs, a, b);
    let sp = sorted_positions(keys, zs);
    let (x, y) = (sp[a], sp[b]);
    let ta = ts[x];
    let tb = ts[y];
    assert(trending_spec(stats, now_secs)[a] == ta);
    assert(trending_spec(stats, now_secs)[b] == tb);
    let (pa, ra, pb, rb) = (ta.1 as int, ta.2 as int, tb.1 as int, tb.2 as int);
    assert(pa * pb < 0x1_0000_0000_0000_0000) by (nonlinear_arith)
        requires
            1 <= pa < 0x1_0000_0000,
            1 <= pb < 0x1_0000_0000,
    ;
    let k: int = 0x1_0000_0000_0000_0000;
    assert((ra - pa) * k / pa < 0x1_0000_0000_0000_0000_0000_0000) by (nonlinear_arith)
        requires
            0 <= ra - pa < 0x1_0000_0000,
            pa >= 1,
            k == 0x1_0000_0000_0000_0000,
    ;
    assert((rb - pb) * k / pb < 0x1_0000_0000_0000_0000_0000_0000) by (nonlinear_arith)
        requires
            0 <= rb - pb < 0x1_0000_0000,
            pb >= 1,
            k == 0x1_0000_0000_0000_0000,
    ;
    assert((ra - pa) * k / pa >= 0 && (rb - pb) * k / pb >= 0) by (nonlinear_arith)
        requires
            ra - pa >= 0,
            rb - pb >= 0,
            pa >= 1,
            pb >= 1,
            k > 0,
    ;
    assert(keys[x] == ((ra - pa) * k / pa) as u128);
    assert(keys[y] == ((rb - pb) * k / pb) as u128);
    if (ra - pa) * pb < (rb - pb) * pa {
        lemma_growth_key_strict(ra - pa, pa, rb - pb, pb);
    }
}


proof fn lemma_counts_30d(stats: Stats, now_secs: int, cs: Seq<Seq<char>>)
    requires
        labels_fit(stats, now_secs),
    ensures
        counts_30d(stats, now_secs, cs).len() <= cs.len(),
        forall|k: int| 0 <= k < counts_30d(stats, now_secs, cs).len() ==> {
            let p = #[trigger] counts_30d(stats, now_secs, cs)[k];
            &&& p.1 as int == sel_30d(stats, now_secs, p.0)
            &&& p.1 > 0
        },
    decreases cs.len(),
{
    if cs.len() > 0 {
        let init = cs.drop_last();
        lemma_counts_30d(stats, now_secs, init);
        let c = cs.last();
        assert(sel_30d(stats, now_secs, c) <= u32::MAX);
        let r = counts_30d(stats, now_secs, init);
        assert forall|k: int| 0 <= k < counts_30d(stats, now_secs, cs).len() implies {
            let p = #[trigger] counts_30d(stats, now_secs, cs)[k];
            &&& p.1 as int == sel_30d(stats, now_secs, p.0)
            &&& p.1 > 0
        } by {
            if k < r.len() {
                assert(counts_30d(stats, now_secs, cs)[k] == r[k]);
            }
        }
    }
}

/// The top selected commands are listed most selected first: each shows
/// its number of selections in the last 30 days, more than none, and no
/// listed command has more selections than one listed before it.
pub proof fn lemma_top_selected_order(stats: Stats, now_secs: int, a: int, b: int)
    requires
        labels_fit(stats, now_secs),
        selected_cmds(stats).len() <= usize::MAX,
        0 <= a < b < top_selected_spec(stats, now_secs).len(),
    ensures
        ({
            let ta = top_selected_spec(stats, now_secs)[a];
            let tb = top_selected_spec(stats, now_secs)[b];
            &&& ta.1 as int == sel_30d(stats, now_secs, ta.0) && ta.1 > 0
            &&& tb.1 as int == sel_30d(stats, now_secs, tb.0) && tb.1 > 0
            &&& ta.1 >= tb.1
        }),
{
    let ps = counts_30d(stats, now_secs, selected_cmds(stats));
    lemma_counts_30d(stats, now_secs, selected_cmds(stats));
    let keys = count_keys(ps);
    let zs = zero_keys(ps.len());
    crate::sorting::lemma_sorted_positions_len(keys, zs);
    crate::sorting::lemma_sorted_positions_order(keys, zs, a, b);
    let sp = sorted_positions(keys, zs);
    assert(top_selected_spec(stats, now_secs)[a] == ps[sp[a]]);
    assert(top_selected_spec(stats, now_secs)[b] == ps[sp[b]]);
}

proof fn lemma_least(s: Seq<Seq<char>>)
    ensures
        least(s) matches Some(m) ==> s.contains(m) && forall|i: int| 0 <= i < s.len() ==> lex_le(m, #[trigger] s[i]),
        s.len() > 0 ==> least(s) is Some,
    decreases s.len(),
{
    if s.len() > 0 {
        let init = s.drop_last();
        lemma_least(init);
        let x = s.last();
        assert(s[s.len() - 1] == x);
        match least(init) {
            Some(m) => {
                let j = choose|j: int| 0 <= j < init.len() && init[j] == m;
                assert(s[j] == m);
                crate::text::lemma_lex_total(m, x);
                assert forall|i: int| 0 <= i < s.len() implies lex_le(least(s).unwrap(), #[trigger] s[i]) by {
                    if i < init.len() {
                        assert(s[i] == init[i]);
                        assert(lex_le(m, init[i]));
                        if !lex_le(m, x) {
                            crate::text::lemma_lex_le_transitive(x, m, init[i]);
                        }
                    } else {
                        crate::text::lemma_lex_lt_irreflexive(x);
                    }
                }
            },
            None => {
                assert forall|i: int| 0 <= i < s.len() implies lex_le(least(s).unwrap(), #[trigger] s[i]) by {
                    assert(i == s.len() - 1);
                }
            },
        }
    }
}

/// The report's earliest date is the least of the dates in the statistics
/// (days with selections and first-seen dates) in string order, and one of
/// them; today's date when there are none.
pub proof fn lemma_earliest_is_least(stats: Stats, now_secs: int)
    ensures
        dates_in(stats).len() == 0 ==> earliest_spec(stats, now_secs) == epoch_date_string(now_secs),
        dates_in(stats).len() > 0 ==> {
            &&& dates_in(stats).contains(earliest_spec(stats, now_secs))
            &&& forall|i: int| 0 <= i < dates_in(stats).len() ==> lex_le(earliest_spec(stats, now_secs), #[trigger] dates_in(stats)[i])
        },
{
    lemma_least(dates_in(stats));
    if dates_in(stats).len() == 0 {
        assert(least(dates_in(stats)) is None);
    }
}


/// The new commands of the report are exactly the commands first seen at
/// most 3 days ago.
pub proof fn lemma_new_commands(now_secs: int, fs: Seq<(Seq<char>, Seq<char>)>, c: Seq<char>)
    ensures
        new_in(now_secs, fs).contains(c) <==> exists|j: int|
            0 <= j < fs.len() && #[trigger] fs[j].0 == c && (days_since_spec(fs[j].1, now_secs) matches Some(k) && k <= 3),
    decreases fs.len(),
{
    if fs.len() > 0 {
        let init = fs.drop_last();
        lemma_new_commands(now_secs, init, c);
        let r = new_in(now_secs, init);
        let n = fs.len() - 1;
        assert(fs[n] == fs.last());
        if new_in(now_secs, fs).contains(c) {
            let i = choose|i: int| 0 <= i < new_in(now_secs, fs).len() && new_in(now_secs, fs)[i] == c;
            if i < r.len() && r.len() < new_in(now_secs, fs).len() {
                assert(new_in(now_secs, fs)[i] == r[i]);
            }
            if new_in(now_secs, fs) == r {
                assert(r[i] == c);
            }
            if r.contains(c) {
                let j = choose|j: int| 0 <= j < init.len() && #[trigger] init[j].0 == c
                    && (days_since_spec(init[j].1, now_secs) matches Some(k) && k <= 3);
                assert(fs[j] == init[j]);
            }
        }
        if exists|j: int| 0 <= j < fs.len() && #[trigger] fs[j].0 == c
            && (days_since_spec(fs[j].1, now_secs) matches Some(k) && k <= 3) {
            let j = choose|j: int| 0 <= j < fs.len() && #[trigger] fs[j].0 == c
                && (days_since_spec(fs[j].1, now_secs) matches Some(k) && k <= 3);
            if j < n {
                assert(init[j] == fs[j]);
                let i = choose|i: int| 0 <= i < r.len() && r[i] == c;
                if new_in(now_secs, fs) != r {
                    assert(new_in(now_secs, fs)[i] == r[i]);
                }
            } else {
                assert(new_in(now_secs, fs)[r.len() as int] == c);
            }
        }
    }
}

} // verus!
