//! The summary printed under the `--table` listing: total executions,
//! single-use commands, and the base commands (first words) by use.

use vstd::prelude::*;
use crate::history::HistoryEntry;
use crate::sorting::{order_by_keys, sorted_positions};
use crate::strmap::{alist_distinct, alist_get, alist_set, StrMap};
use crate::text::{char_is_ws, chars_of, is_ws, slice_chars, string_from_chars, ws_prefix_len};

verus! {

/// Sum of the entries' frequencies.
pub open spec fn freq_sum(es: Seq<HistoryEntry>) -> int
    decreases es.len(),
{
    if es.len() == 0 {
        0
    } else {
        freq_sum(es.drop_last()) + es.last().frequency
    }
}

/// Number of entries used once.
pub open spec fn single_use_count(es: Seq<HistoryEntry>) -> int
    decreases es.len(),
{
    if es.len() == 0 {
        0
    } else {
        single_use_count(es.drop_last()) + (if es.last().frequency == 1 { 1int } else { 0int })
    }
}

/// Number of leading characters that are not whitespace.
pub open spec fn word_len(s: Seq<char>) -> nat
    decreases s.len(),
{
    if s.len() > 0 && !is_ws(s[0]) {
        1 + word_len(s.drop_first())
    } else {
        0
    }
}

/// `split_whitespace().next()`: the first run of non-whitespace characters.
pub open spec fn first_word(s: Seq<char>) -> Option<Seq<char>> {
    let t = s.skip(ws_prefix_len(s) as int);
    if t.len() == 0 {
        None
    } else {
        Some(t.take(word_len(t) as int))
    }
}

/// Uses per base command (first word), in order of first appearance.
pub open spec fn base_tally(es: Seq<HistoryEntry>) -> Seq<(Seq<char>, usize)>
    decreases es.len(),
{
    if es.len() == 0 {
        Seq::empty()
    } else {
        let prev = base_tally(es.drop_last());
        let e = es.last();
        match first_word(e.command@) {
            Some(b) => {
                let v: int = match alist_get(prev, b) {
                    Some(x) => x + e.frequency,
                    None => e.frequency as int,
                };
                alist_set(prev, b, v as usize)
            },
            None => prev,
        }
    }
}

pub open spec fn usage_keys(ps: Seq<(Seq<char>, usize)>) -> Seq<u128> {
    ps.map_values(|p: (Seq<char>, usize)| p.1 as u128)
}

pub open spec fn no_keys(n: nat) -> Seq<u128> {
    Seq::new(n, |i: int| 0u128)
}

/// Base commands by use, most used first (equal uses in order of first appearance).
pub open spec fn base_counts_spec(es: Seq<HistoryEntry>) -> Seq<(Seq<char>, usize)> {
    let t = base_tally(es);
    sorted_positions(usage_keys(t), no_keys(t.len())).map_values(|k: int| t[k])
}

/// The figures under the table.
pub struct TableSummary {
    /// Executions over all commands.
    pub total_freq: usize,
    /// Commands used once.
    pub single_use: usize,
    /// Base commands with their uses, most used first.
    pub base_counts: Vec<(String, usize)>,
}

proof fn lemma_freq_sum_prefix(es: Seq<HistoryEntry>, i: int)
    requires
        0 <= i <= es.len(),
    ensures
        0 <= freq_sum(es.take(i)) <= freq_sum(es),
    decreases es.len() - i,
{
    if i < es.len() {
        lemma_freq_sum_prefix(es, i + 1);
        assert(es.take(i + 1).drop_last() =~= es.take(i));
    } else {
        assert(es.take(i) =~= es);
    }
    lemma_freq_sum_nonneg(es.take(i));
}

proof fn lemma_freq_sum_nonneg(es: Seq<HistoryEntry>)
    ensures
        freq_sum(es) >= 0,
    decreases es.len(),
{
    if es.len() > 0 {
        lemma_freq_sum_nonneg(es.drop_last());
    }
}

proof fn lemma_single_use_bound(es: Seq<HistoryEntry>)
    ensures
        0 <= single_use_count(es) <= es.len(),
    decreases es.len(),
{
    if es.len() > 0 {
        lemma_single_use_bound(es.drop_last());
    }
}

proof fn lemma_base_tally_bound(es: Seq<HistoryEntry>)
    ensures
        alist_distinct(base_tally(es)),
        forall|j: int| 0 <= j < base_tally(es).len() ==> (#[trigger] base_tally(es)[j]).1 <= freq_sum(es),
    decreases es.len(),
{
    if es.len() > 0 {
        let prev = base_tally(es.drop_last());
        lemma_base_tally_bound(es.drop_last());
        lemma_freq_sum_nonneg(es.drop_last());
        let e = es.last();
        if let Some(b) = first_word(e.command@) {
            crate::strmap::lemma_alist_get_some(prev, b);
            let v: int = match alist_get(prev, b) {
                Some(x) => x + e.frequency,
                None => e.frequency as int,
            };
            assert(v <= freq_sum(es));
            crate::strmap::lemma_alist_set_get(prev, b, v as usize, b);
            let t = alist_set(prev, b, v as usize);
            assert forall|j: int| 0 <= j < t.len() implies (#[trigger] t[j]).1 <= freq_sum(es) by {
                if exists|i: int| 0 <= i < prev.len() && prev[i].0 == b {
                    let i = choose|i: int| 0 <= i < prev.len() && prev[i].0 == b;
                    assert(t == prev.update(i, (b, v as usize)));
                } else {
                    assert(t == prev.push((b, v as usize)));
                }
            }
        }
    }
}

/// The bounds `[a, b)` of the first word of `s`, if it has one.
fn first_word_bounds(s: &Vec<char>) -> (r: Option<(usize, usize)>)
    ensures
        match r {
            Some((a, b)) => a <= b <= s@.len() && first_word(s@) == Some(s@.subrange(a as int, b as int)),
            None => first_word(s@) is None,
        },
{
    let n = s.len();
    let mut a: usize = 0;
    assert(s@.skip(0) =~= s@);
    while a < n && char_is_ws(s[a])
        invariant
            a <= n == s@.len(),
            ws_prefix_len(s@) == a + ws_prefix_len(s@.skip(a as int)),
        decreases n - a,
    {
        proof {
            assert(s@.skip(a as int).drop_first() =~= s@.skip(a + 1));
        }
        a = a + 1;
    }
    proof {
        if a < n {
            assert(s@.skip(a as int)[0] == s@[a as int]);
        }
    }
    let ghost t = s@.skip(a as int);
    if a == n {
        assert(t.len() == 0);
        return None;
    }
    let mut b: usize = a;
    while b < n && !char_is_ws(s[b])
        invariant
            a <= b <= n == s@.len(),
            t == s@.skip(a as int),
            word_len(t) == (b - a) + word_len(s@.skip(b as int)),
        decreases n - b,
    {
        proof {
            assert(s@.skip(b as int).drop_first() =~= s@.skip(b + 1));
        }
        b = b + 1;
    }
    proof {
        if b < n {
            assert(s@.skip(b as int)[0] == s@[b as int]);
        }
        assert(t.take(word_len(t) as int) =~= s@.subrange(a as int, b as int));
    }
    Some((a, b))
}

/// The figures under the table of `entries`.
pub fn table_summary(entries: &[HistoryEntry]) -> (r: TableSummary)
    requires
        freq_sum(entries@) <= usize::MAX,
    ensures
        r.total_freq == freq_sum(entries@),
        r.single_use == single_use_count(entries@),
        r.base_counts@.map_values(|p: (String, usize)| (p.0@, p.1)) == base_counts_spec(entries@),
{
    let ghost es = entries@;
    let mut total: usize = 0;
    let mut single: usize = 0;
    let mut bases: StrMap<usize> = StrMap::new();
    let mut i: usize = 0;
    while i < entries.len()
        invariant
            i <= es.len(),
            es == entries@,
            freq_sum(es) <= usize::MAX,
            total == freq_sum(es.take(i as int)),
            single == single_use_count(es.take(i as int)),
            bases@ == base_tally(es.take(i as int)),
        decreases es.len() - i,
    {
        let e = &entries[i];
        proof {
            assert(es.take(i + 1).drop_last() =~= es.take(i as int));
            assert(es.take(i + 1).last() == *e);
            lemma_freq_sum_prefix(es, i + 1);
            lemma_single_use_bound(es.take(i as int));
            lemma_base_tally_bound(es.take(i + 1));
            lemma_base_tally_bound(es.take(i as int));
            lemma_freq_sum_nonneg(es.take(i as int));
        }
        total = total + e.frequency;
        if e.frequency == 1 {
            single = single + 1;
        }
        let cs = chars_of(e.command.as_str());
        match first_word_bounds(&cs) {
            Some((a, b)) => {
                let base = string_from_chars(slice_chars(&cs, a, b).as_slice());
                let v: usize = match bases.get(base.as_str()) {
                    Some(x) => {
                        proof {
                            crate::strmap::lemma_alist_get_some(bases@, base@);
                        }
                        *x + e.frequency
                    },
                    None => e.frequency,
                };
                bases.insert(base, v);
            },
            None => {},
        }
        i = i + 1;
    }
    assert(es.take(es.len() as int) =~= es);
    let ghost t = base_tally(es);
    let mut keys: Vec<u128> = Vec::new();
    let mut zeros: Vec<u128> = Vec::new();
    let mut k: usize = 0;
    while k < bases.len()
        invariant
            k <= bases@.len(),
            bases@ == t,
            keys@ == usage_keys(t).take(k as int),
            zeros@ == no_keys(t.len()).take(k as int),
        decreases bases@.len() - k,
    {
        keys.push(*bases.value_at(k) as u128);
        zeros.push(0);
        k = k + 1;
        assert(keys@ =~= usage_keys(t).take(k as int));
        assert(zeros@ =~= no_keys(t.len()).take(k as int));
    }
    assert(keys@ =~= usage_keys(t));
    assert(zeros@ =~= no_keys(t.len()));
    let order = order_by_keys(&keys, &zeros);
    proof {
        crate::sorting::lemma_sorted_positions_len(keys@, zeros@);
    }
    let mut base_counts: Vec<(String, usize)> = Vec::new();
    let mut j: usize = 0;
    while j < order.len()
        invariant
            j <= order@.len() == t.len(),
            bases@ == t,
            forall|q: int| 0 <= q < order@.len() ==> order@[q] < t.len(),
            base_counts@.len() == j,
            forall|q: int| 0 <= q < j ==> (#[trigger] base_counts@[q]).0@ == t[order@[q] as int].0 && base_counts@[q].1
                == t[order@[q] as int].1,
        decreases order@.len() - j,
    {
        let idx = order[j];
        base_counts.push((bases.key_at(idx).clone(), *bases.value_at(idx)));
        j = j + 1;
    }
    proof {
        assert(base_counts@.map_values(|p: (String, usize)| (p.0@, p.1)) =~= base_counts_spec(entries@));
    }
    TableSummary { total_freq: total, single_use: single, base_counts }
}

} // verus!
