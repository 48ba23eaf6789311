//! Bash history entries: reading the history file, ranking commands, and
//! searching them with substring and fuzzy matching.

use vstd::prelude::*;
use crate::sorting::{order_by_keys, sorted_positions};
use crate::strmap::{alist_distinct, alist_get, alist_set, StrMap};
use crate::text::{
    byte_offset, char_offsets, chars_of, join_path, lemma_utf8_len_monotone, lemma_utf8_len_take_step,
    lemma_split_concat, lemma_split_single, lines_chars, lines_of, path_join, slice_chars, split_on, str_eq,
    string_from_chars, trim, trim_bounds, utf8_len_seq,
};

verus! {

/// One distinct command of the history.
///
/// `score` is the ranking score as a fixed-point number: higher ranks first.
#[derive(Debug, Clone)]
pub struct HistoryEntry {
    pub command: String,
    pub frequency: usize,
    pub recency_rank: usize,
    pub score: u64,
}

impl HistoryEntry {
    /// A copy of the entry.
    pub fn duplicate(&self) -> (r: HistoryEntry)
        ensures
            r == *self,
    {
        HistoryEntry {
            command: self.command.clone(),
            frequency: self.frequency,
            recency_rank: self.recency_rank,
            score: self.score,
        }
    }
}

// ── Fuzzy matching ─────────────────────────────────────────────────────

/// The first index `>= start` where `cmd` holds `c`.
pub open spec fn first_at_or_after(cmd: Seq<char>, c: char, start: int) -> Option<int>
    decreases cmd.len() - start,
{
    if start < 0 || start >= cmd.len() {
        None
    } else if cmd[start] == c {
        Some(start)
    } else {
        first_at_or_after(cmd, c, start + 1)
    }
}

/// Earliest match of the characters of `q`, in order, from `start` on:
/// each query character at the first place it occurs after the previous one.
pub open spec fn forward_match(cmd: Seq<char>, q: Seq<char>, start: int) -> Option<Seq<int>>
    decreases q.len(),
{
    if q.len() == 0 {
        Some(Seq::empty())
    } else {
        match first_at_or_after(cmd, q[0], start) {
            Some(j) => match forward_match(cmd, q.drop_first(), j + 1) {
                Some(rest) => Some(seq![j] + rest),
                None => None,
            },
            None => None,
        }
    }
}

/// The last index `<= hi` where `cmd` holds `c` (`-1` if none).
pub open spec fn last_at_or_before(cmd: Seq<char>, c: char, hi: int) -> int
    decreases hi + 1,
{
    if hi < 0 {
        -1
    } else if hi < cmd.len() && cmd[hi] == c {
        hi
    } else {
        last_at_or_before(cmd, c, hi - 1)
    }
}

/// Latest match of the characters of `q`, in order, ending at or before
/// `hi`: the last query character at its last place, and so on backwards.
pub open spec fn backward_match(cmd: Seq<char>, q: Seq<char>, hi: int) -> Seq<int>
    decreases q.len(),
{
    if q.len() == 0 {
        Seq::empty()
    } else {
        let j = last_at_or_before(cmd, q.last(), hi);
        backward_match(cmd, q.drop_last(), j - 1).push(j)
    }
}

/// Character positions of the fuzzy match of `q` in `cmd`: the tightest
/// cluster ending where the earliest match ends. `None` when the characters
/// of `q` do not all occur in order.
pub open spec fn best_match_spec(cmd: Seq<char>, q: Seq<char>) -> Option<Seq<int>> {
    match forward_match(cmd, q, 0) {
        Some(f) => Some(backward_match(cmd, q, f.last())),
        None => None,
    }
}

/// `p` is a match of `q` in `cmd`: increasing positions holding the query characters.
pub open spec fn is_match(cmd: Seq<char>, q: Seq<char>, p: Seq<int>) -> bool {
    &&& p.len() == q.len()
    &&& forall|k: int| 0 <= k < p.len() ==> 0 <= #[trigger] p[k] < cmd.len() && cmd[p[k]] == q[k]
    &&& forall|a: int, b: int| 0 <= a < b < p.len() ==> #[trigger] p[a] < #[trigger] p[b]
}

proof fn lemma_first_at_or_after(cmd: Seq<char>, c: char, start: int)
    requires
        0 <= start,
    ensures
        match first_at_or_after(cmd, c, start) {
            Some(j) => start <= j < cmd.len() && cmd[j] == c && forall|t: int| start <= t < j ==> cmd[t] != c,
            None => forall|t: int| start <= t < cmd.len() ==> cmd[t] != c,
        },
    decreases cmd.len() - start,
{
    if start < cmd.len() && cmd[start] != c {
        lemma_first_at_or_after(cmd, c, start + 1);
    }
}

proof fn lemma_forward_match(cmd: Seq<char>, q: Seq<char>, start: int)
    requires
        0 <= start,
    ensures
        forward_match(cmd, q, start) matches Some(f) ==> is_match(cmd, q, f) && (q.len() > 0 ==> f[0] >= start),
    decreases q.len(),
{
    if q.len() > 0 {
        lemma_first_at_or_after(cmd, q[0], start);
        match first_at_or_after(cmd, q[0], start) {
            Some(j) => {
                lemma_forward_match(cmd, q.drop_first(), j + 1);
                match forward_match(cmd, q.drop_first(), j + 1) {
                    Some(rest) => {
                        let f = seq![j] + rest;
                        assert forall|k: int| 0 <= k < f.len() implies 0 <= #[trigger] f[k] < cmd.len() && cmd[f[k]] == q[k] by {
                            if k > 0 {
                                assert(f[k] == rest[k - 1]);
                                assert(q[k] == q.drop_first()[k - 1]);
                            }
                        }
                        assert forall|a: int, b: int| 0 <= a < b < f.len() implies #[trigger] f[a] < #[trigger] f[b] by {
                            if a > 0 {
                                assert(f[a] == rest[a - 1] && f[b] == rest[b - 1]);
                            } else {
                                assert(f[b] == rest[b - 1]);
                                if b > 1 {
                                    assert(rest[0] < rest[b - 1]);
                                }
                            }
                        }
                    },
                    None => {},
                }
            },
            None => {},
        }
    }
}

proof fn lemma_last_at_or_before(cmd: Seq<char>, c: char, hi: int, lo: int)
    requires
        0 <= lo <= hi < cmd.len(),
        cmd[lo] == c,
    ensures
        lo <= last_at_or_before(cmd, c, hi) <= hi,
        cmd[last_at_or_before(cmd, c, hi)] == c,
        forall|t: int| last_at_or_before(cmd, c, hi) < t <= hi ==> cmd[t] != c,
    decreases hi - lo,
{
    if cmd[hi] != c {
        lemma_last_at_or_before(cmd, c, hi - 1, lo);
    }
}

/// The backward pass finds a match whenever the forward pass found one.
proof fn lemma_backward_match(cmd: Seq<char>, q: Seq<char>, f: Seq<int>, hi: int)
    requires
        is_match(cmd, q, f),
        q.len() > 0 ==> f.last() <= hi,
        hi < cmd.len(),
    ensures
        is_match(cmd, q, backward_match(cmd, q, hi)),
        forall|k: int| 0 <= k < q.len() ==> f[k] <= #[trigger] backward_match(cmd, q, hi)[k] <= hi,
    decreases q.len(),
{
    let b = backward_match(cmd, q, hi);
    if q.len() > 0 {
        let n = q.len() - 1;
        lemma_last_at_or_before(cmd, q.last(), hi, f[n]);
        let j = last_at_or_before(cmd, q.last(), hi);
        let q1 = q.drop_last();
        let f1 = f.drop_last();
        assert(is_match(cmd, q1, f1)) by {
            assert forall|k: int| 0 <= k < f1.len() implies 0 <= #[trigger] f1[k] < cmd.len() && cmd[f1[k]] == q1[k] by {
                assert(f1[k] == f[k] && q1[k] == q[k]);
            }
            assert forall|a: int, c: int| 0 <= a < c < f1.len() implies #[trigger] f1[a] < #[trigger] f1[c] by {
                assert(f1[a] == f[a] && f1[c] == f[c]);
            }
        }
        if n > 0 {
            assert(f[n - 1] < f[n]);
            assert(f1.last() == f[n - 1]);
        }
        lemma_backward_match(cmd, q1, f1, j - 1);
        let b1 = backward_match(cmd, q1, j - 1);
        assert(b == b1.push(j));
        assert forall|k: int| 0 <= k < b.len() implies 0 <= #[trigger] b[k] < cmd.len() && cmd[b[k]] == q[k] by {
            if k < n {
                assert(b[k] == b1[k] && q[k] == q1[k]);
            }
        }
        assert forall|a: int, c: int| 0 <= a < c < b.len() implies #[trigger] b[a] < #[trigger] b[c] by {
            if c < n {
                assert(b[a] == b1[a] && b[c] == b1[c]);
            } else {
                assert(b[a] == b1[a]);
                assert(b1[a] <= j - 1);
                assert(b[c] == j);
            }
        }
        assert forall|k: int| 0 <= k < q.len() implies f[k] <= #[trigger] b[k] <= hi by {
            if k < n {
                assert(b[k] == b1[k] && f[k] == f1[k]);
            }
        }
    }
}

/// The fuzzy match of `q` in `cmd`, when there is one, is a match.
pub proof fn lemma_best_match_is_match(cmd: Seq<char>, q: Seq<char>)
    ensures
        best_match_spec(cmd, q) matches Some(p) ==> is_match(cmd, q, p),
{
    lemma_forward_match(cmd, q, 0);
    if let Some(f) = forward_match(cmd, q, 0) {
        if q.len() > 0 {
            assert(0 <= f.last() < cmd.len());
            lemma_backward_match(cmd, q, f, f.last());
        } else {
            assert(backward_match(cmd, q, f.last()) =~= Seq::<int>::empty());
        }
    }
}


/// The fuzzy match of a nonempty query in a command, as character positions.
fn best_match(cmd: &Vec<char>, q: &Vec<char>) -> (r: Option<Vec<usize>>)
    requires
        q@.len() > 0,
    ensures
        match r {
            Some(p) => best_match_spec(cmd@, q@) == Some(p@.map_values(|x: usize| x as int)),
            None => best_match_spec(cmd@, q@) is None,
        },
{
    let n = cmd.len();
    let m = q.len();
    // Forward pass: the earliest positions where all query characters match.
    let mut forward: Vec<usize> = Vec::new();
    let mut ci: usize = 0;
    let mut qi: usize = 0;
    assert(q@.skip(0) =~= q@);
    while qi < m
        invariant
            qi <= m == q@.len(),
            n == cmd@.len(),
            forward@.len() == qi,
            ci <= n,
            forward_match(cmd@, q@, 0) == match forward_match(cmd@, q@.skip(qi as int), ci as int) {
                Some(rest) => Some(forward@.map_values(|x: usize| x as int) + rest),
                None => None,
            },
        decreases m - qi,
    {
        let qch = q[qi];
        let ghost ci0 = ci as int;
        while ci < n && cmd[ci] != qch
            invariant
                ci <= n == cmd@.len(),
                ci0 <= ci,
                first_at_or_after(cmd@, qch, ci0) == first_at_or_after(cmd@, qch, ci as int),
            decreases n - ci,
        {
            ci = ci + 1;
        }
        let ghost rest_q = q@.skip(qi as int);
        assert(rest_q[0] == qch);
        assert(rest_q.drop_first() =~= q@.skip(qi + 1));
        if ci >= n {
            return None;
        }
        let ghost fv = forward@.map_values(|x: usize| x as int);
        forward.push(ci);
        assert(forward@.map_values(|x: usize| x as int) =~= fv.push(ci as int));
        proof {
            match forward_match(cmd@, q@.skip(qi + 1), ci + 1) {
                Some(rest) => {
                    assert(fv + (seq![ci as int] + rest) =~= fv.push(ci as int) + rest);
                },
                None => {},
            }
        }
        ci = ci + 1;
        qi = qi + 1;
    }
    assert(q@.skip(m as int) =~= Seq::<char>::empty());
    let ghost f = forward@.map_values(|x: usize| x as int);
    assert(forward_match(cmd@, q@, 0) == Some(f)) by {
        assert(f + Seq::<int>::empty() =~= f);
    }
    proof {
        lemma_forward_match(cmd@, q@, 0);
    }
    // Backward pass: from the last forward position, the latest positions
    // going backwards, for the tightest cluster.
    let mut backward: Vec<usize> = Vec::new();
    let mut k: usize = 0;
    while k < m
        invariant
            k <= m,
            backward@.len() == k,
        decreases m - k,
    {
        backward.push(0);
        k = k + 1;
    }
    let mut ci: usize = forward[m - 1];
    let mut qi: usize = m;
    let ghost hi0 = f.last();
    while qi > 0
        invariant
            qi <= m == q@.len() == backward@.len(),
            n == cmd@.len(),
            is_match(cmd@, q@, f),
            qi > 0 ==> f[qi - 1] <= ci,
            ci < n,
            hi0 == f.last(),
            backward_match(cmd@, q@, hi0) == backward_match(cmd@, q@.take(qi as int), ci as int) + backward@.map_values(
                |x: usize| x as int,
            ).skip(qi as int),
        decreases qi,
    {
        qi = qi - 1;
        let qch = q[qi];
        let ghost ci0 = ci as int;
        proof {
            lemma_last_at_or_before(cmd@, qch, ci0, f[qi as int]);
        }
        loop
            invariant
                ci <= ci0 < n == cmd@.len(),
                qi < q@.len(),
                is_match(cmd@, q@, f),
                qch == q@[qi as int],
                f[qi as int] <= ci,
                cmd@[f[qi as int]] == qch,
                last_at_or_before(cmd@, qch, ci0) == last_at_or_before(cmd@, qch, ci as int),
            ensures
                cmd@[ci as int] == qch,
                f[qi as int] <= ci <= ci0,
                last_at_or_before(cmd@, qch, ci0) == last_at_or_before(cmd@, qch, ci as int),
            decreases ci,
        {
            if cmd[ci] == qch {
                break;
            }
            ci = ci - 1;
        }
        let ghost j = ci as int;
        assert(last_at_or_before(cmd@, qch, j) == j);
        let ghost bv = backward@.map_values(|x: usize| x as int);
        backward.set(qi, ci);
        proof {
            let qt = q@.take(qi + 1);
            assert(qt.drop_last() =~= q@.take(qi as int));
            assert(qt.last() == qch);
            assert(last_at_or_before(cmd@, qch, ci0) == j);
            assert(backward@.map_values(|x: usize| x as int).skip(qi as int) =~= seq![j] + bv.skip(qi + 1));
            assert(backward_match(cmd@, q@.take(qi + 1), ci0) == backward_match(cmd@, q@.take(qi as int), j - 1).push(j));
            assert(backward_match(cmd@, q@.take(qi as int), j - 1).push(j) + bv.skip(qi + 1) =~= backward_match(
                cmd@,
                q@.take(qi as int),
                j - 1,
            ) + (seq![j] + bv.skip(qi + 1)));
        }
        if qi > 0 {
            proof {
                assert(f[qi - 1] < f[qi as int]);
            }
            ci = ci - 1;
        }
    }
    proof {
        assert(q@.take(0) =~= Seq::<char>::empty());
        assert(backward@.map_values(|x: usize| x as int).skip(0) =~= backward@.map_values(|x: usize| x as int));
        assert(Seq::<int>::empty() + backward@.map_values(|x: usize| x as int) =~= backward@.map_values(|x: usize| x as int));
    }
    Some(backward)
}


// ── Match quality ──────────────────────────────────────────────────────

/// Characters after which a match starts a word.
pub open spec fn is_separator(c: char) -> bool {
    c == ' ' || c == '/' || c == '-' || c == '_' || c == '.'
}

/// Bonus of the `k`-th matched character at character position `p[k]`:
/// 8 when it directly follows the previous match, 6 at the start of the
/// command or 5 after a separator, plus 1.
pub open spec fn char_bonus(cmd: Seq<char>, p: Seq<int>, k: int) -> int {
    (if k > 0 && p[k] == p[k - 1] + 1 { 8int } else { 0int }) + (if p[k] == 0 {
        6int
    } else if is_separator(cmd[p[k] - 1]) {
        5int
    } else {
        0int
    }) + 1
}

pub open spec fn bonus_sum(cmd: Seq<char>, p: Seq<int>, k: int) -> int
    decreases k,
{
    if k <= 0 {
        0
    } else {
        bonus_sum(cmd, p, k - 1) + char_bonus(cmd, p, k - 1)
    }
}

/// A match quality `whole + num / den`, with `num < den`.
#[derive(Debug, Clone, Copy, PartialEq, Eq, Structural)]
pub struct MatchQuality {
    pub whole: u128,
    pub num: u128,
    pub den: u128,
}

impl MatchQuality {
    /// The quality as a fraction `(numerator, denominator)`.
    pub open spec fn value(self) -> (int, int) {
        (self.whole * self.den + self.num, self.den as int)
    }

    /// The fractional part is proper.
    pub open spec fn wf(self) -> bool {
        self.num < self.den
    }
}

/// `x < y` for fractions `(numerator, denominator)` with positive denominators.
pub open spec fn frac_lt(x: (int, int), y: (int, int)) -> bool {
    x.0 * y.1 < y.0 * x.1
}

/// Quality of a match at character positions `p`, as a fraction: the
/// bonuses, plus `4 × matched / span` (span in bytes from the first to the
/// last match) when more than one character matched, plus
/// `3 / (1 + first / 10)` for the byte position `first` of the first match;
/// over the denominator `span × (10 + first)`, span 1 for one character.
pub open spec fn quality_spec(cmd: Seq<char>, p: Seq<int>) -> (int, int) {
    if p.len() == 0 {
        (0, 1)
    } else {
        let first = byte_offset(cmd, p[0]) as int;
        let last = byte_offset(cmd, p.last()) as int;
        let span: int = if p.len() > 1 { last - first + 1 } else { 1 };
        let tight: int = if p.len() > 1 { 4 * p.len() as int } else { 0 };
        let g = 10 + first;
        (bonus_sum(cmd, p, p.len() as int) * span * g + tight * g + 30 * span, span * g)
    }
}

/// Byte positions of the characters at positions `p`.
pub open spec fn byte_positions(cmd: Seq<char>, p: Seq<int>) -> Seq<int> {
    p.map_values(|i: int| byte_offset(cmd, i) as int)
}

fn is_separator_exec(c: char) -> (b: bool)
    ensures
        b == is_separator(c),
{
    c == ' ' || c == '/' || c == '-' || c == '_' || c == '.'
}

/// Writes `b·s·g + t·g + 30·s` over `s·g` as a whole part and a proper
/// fraction.
proof fn lemma_quality_split(b: int, t: int, s: int, g: int, ti: int, tr: int, ei: int, er: int)
    requires
        s >= 1,
        g >= 1,
        t == ti * s + tr,
        30 == ei * g + er,
        0 <= tr < s,
        0 <= er < g,
    ensures
        b * s * g + t * g + 30 * s == (b + ti + ei) * (s * g) + (tr * g + er * s),
        0 <= tr * g + er * s < 2 * (s * g),
{
    assert(b * s * g + t * g + 30 * s == (b + ti + ei) * (s * g) + (tr * g + er * s)) by (nonlinear_arith)
        requires
            t == ti * s + tr,
            30 == ei * g + er,
    ;
    assert(0 <= tr * g + er * s < 2 * (s * g)) by (nonlinear_arith)
        requires
            s >= 1,
            g >= 1,
            0 <= tr < s,
            0 <= er < g,
    ;
}

/// Scores a match (`score_positions`): see `quality_spec`.
fn score_positions(cmd: &Vec<char>, offs: &Vec<usize>, p: &Vec<usize>) -> (r: MatchQuality)
    requires
        offs@.len() == cmd@.len() + 1,
        forall|i: int| 0 <= i <= cmd@.len() ==> offs@[i] == #[trigger] byte_offset(cmd@, i),
        forall|k: int| 0 <= k < p@.len() ==> #[trigger] p@[k] < cmd@.len(),
        forall|a: int, b: int| 0 <= a < b < p@.len() ==> #[trigger] p@[a] < #[trigger] p@[b],
    ensures
        r.wf(),
        r.value() == quality_spec(cmd@, p@.map_values(|x: usize| x as int)),
        r.whole <= 19 * p@.len() + 4,
{
    let ghost pv = p@.map_values(|x: usize| x as int);
    let m = p.len();
    if m == 0 {
        return MatchQuality { whole: 0, num: 0, den: 1 };
    }
    let mut bonus: u128 = 0;
    let mut k: usize = 0;
    while k < m
        invariant
            k <= m == p@.len() == pv.len(),
            pv == p@.map_values(|x: usize| x as int),
            forall|j: int| 0 <= j < p@.len() ==> #[trigger] p@[j] < cmd@.len(),
            bonus == bonus_sum(cmd@, pv, k as int),
            bonus <= 15 * k,
        decreases m - k,
    {
        let pos = p[k];
        let mut b: u128 = 1;
        if k > 0 && p[k - 1] < pos && pos - p[k - 1] == 1 {
            b = b + 8;
        }
        if pos == 0 {
            b = b + 6;
        } else if is_separator_exec(cmd[pos - 1]) {
            b = b + 5;
        }
        assert(b == char_bonus(cmd@, pv, k as int));
        bonus = bonus + b;
        k = k + 1;
    }
    let first = offs[p[0]];
    let last = offs[p[m - 1]];
    proof {
        assert(first == byte_offset(cmd@, p@[0] as int));
        assert(last == byte_offset(cmd@, p@[m - 1] as int));
        assert(pv[0] == p@[0] as int && pv.last() == p@[m - 1] as int);
        if m > 1 {
            assert(p@[0] < p@[m - 1]);
            crate::text::lemma_utf8_len_monotone(cmd@, p@[0] as int, p@[m - 1] as int);
        }
    }
    let s: u128 = if m > 1 { (last - first) as u128 + 1 } else { 1 };
    let t: u128 = if m > 1 { 4 * (m as u128) } else { 0 };
    let g: u128 = 10 + first as u128;
    proof {
        let bound: int = 0x1_0000_0000_0000_000a;
        assert(s + g <= bound);
        assert(4 * (s * g) <= (s + g) * (s + g)) by (nonlinear_arith);
        assert((s + g) * (s + g) <= bound * bound) by (nonlinear_arith)
            requires
                0 <= s + g <= bound,
        ;
        assert(s * g >= 1) by (nonlinear_arith)
            requires
                s >= 1,
                g >= 1,
        ;
    }
    let den = s * g;
    let ti = t / s;
    let tr = t % s;
    let ei = 30 / g;
    let er = 30 % g;
    proof {
        vstd::arithmetic::div_mod::lemma_fundamental_div_mod(t as int, s as int);
        vstd::arithmetic::div_mod::lemma_fundamental_div_mod(30, g as int);
        vstd::arithmetic::div_mod::lemma_mod_bound(t as int, s as int);
        vstd::arithmetic::div_mod::lemma_mod_bound(30, g as int);
        lemma_quality_split(bonus as int, t as int, s as int, g as int, ti as int, tr as int, ei as int, er as int);
        assert(ti <= t) by (nonlinear_arith)
            requires
                t == ti * s + tr,
                s >= 1,
                tr >= 0,
                ti >= 0,
        ;
        assert(tr * g <= s * g && er * s <= g * s) by (nonlinear_arith)
            requires
                0 <= tr < s,
                0 <= er < g,
        ;
    }
    proof {
        assert(ei <= 3) by (nonlinear_arith)
            requires
                30 == ei * g + er,
                g >= 10,
                er >= 0,
                ei >= 0,
        ;
        assert(quality_spec(cmd@, pv).0 == bonus * s * g + t * g + 30 * s);
        assert(quality_spec(cmd@, pv).1 == s * g);
    }
    let frac = tr * g + er * s;
    let base = bonus + ti + ei;
    if frac >= den {
        let r = MatchQuality { whole: base + 1, num: frac - den, den };
        assert(r.value().0 == base * den + frac) by (nonlinear_arith)
            requires
                r.whole == base + 1,
                r.num == frac - den,
                r.den == den,
        ;
        r
    } else {
        MatchQuality { whole: base, num: frac, den }
    }
}

/// `a / b < c / d` for proper fractions, by comparing the continued
/// fraction expansions (no product leaves `u128`).
fn proper_frac_lt(a: u128, b: u128, c: u128, d: u128) -> (r: bool)
    requires
        a < b,
        c < d,
    ensures
        r == (a * d < c * b),
    decreases a + c,
{
    if c == 0 {
        assert(a * d >= 0 && c * b == 0) by (nonlinear_arith)
            requires
                c == 0,
        ;
        false
    } else if a == 0 {
        assert(c * b > 0) by (nonlinear_arith)
            requires
                c > 0,
                b > 0,
        ;
        true
    } else {
        let qa = b / a;
        let ra = b % a;
        let qc = d / c;
        let rc = d % c;
        proof {
            vstd::arithmetic::div_mod::lemma_fundamental_div_mod(b as int, a as int);
            vstd::arithmetic::div_mod::lemma_fundamental_div_mod(d as int, c as int);
            assert(b == qa * a + ra && d == qc * c + rc) by (nonlinear_arith)
                requires
                    b == a * qa + ra,
                    d == c * qc + rc,
            ;
            assert(a * d - c * b == a * c * (qc - qa) + (a * rc - c * ra)) by (nonlinear_arith)
                requires
                    b == qa * a + ra,
                    d == qc * c + rc,
            ;
            assert(a * rc < a * c && c * ra < c * a) by (nonlinear_arith)
                requires
                    0 <= rc < c,
                    0 <= ra < a,
            ;
            assert(a * rc >= 0 && c * ra >= 0) by (nonlinear_arith)
                requires
                    rc >= 0,
                    ra >= 0,
                    a > 0,
                    c > 0,
            ;
            if qa > qc {
                assert(a * c * (qc - qa) <= -(a * c)) by (nonlinear_arith)
                    requires
                        qc - qa <= -1,
                        a > 0,
                        c > 0,
                ;
            } else if qa < qc {
                assert(a * c * (qc - qa) >= a * c) by (nonlinear_arith)
                    requires
                        qc - qa >= 1,
                        a > 0,
                        c > 0,
                ;
            }
        }
        if qa > qc {
            true
        } else if qa < qc {
            false
        } else {
            assert(a * c * (qc - qa) == 0) by (nonlinear_arith)
                requires
                    qc == qa,
            ;
            proper_frac_lt(rc, c, ra, a)
        }
    }
}

/// Whether match quality `x` is below `y`.
pub fn quality_lt(x: &MatchQuality, y: &MatchQuality) -> (r: bool)
    requires
        x.wf(),
        y.wf(),
    ensures
        r == frac_lt(x.value(), y.value()),
{
    proof {
        let (xw, xn, xd, yw, yn, yd) = (x.whole as int, x.num as int, x.den as int, y.whole as int, y.num as int, y.den as int);
        assert((xw * xd + xn) * yd - (yw * yd + yn) * xd == (xw - yw) * (xd * yd) + (xn * yd - yn * xd)) by (nonlinear_arith);
        assert(xn * yd < xd * yd && yn * xd < xd * yd && xn * yd >= 0 && yn * xd >= 0) by (nonlinear_arith)
            requires
                0 <= xn < xd,
                0 <= yn < yd,
        ;
        if xw < yw {
            assert((xw - yw) * (xd * yd) <= -(xd * yd)) by (nonlinear_arith)
                requires
                    xw - yw <= -1,
                    xd * yd >= 0,
            ;
        } else if xw > yw {
            assert((xw - yw) * (xd * yd) >= xd * yd) by (nonlinear_arith)
                requires
                    xw - yw >= 1,
                    xd * yd >= 0,
            ;
        } else {
            assert((xw - yw) * (xd * yd) == 0) by (nonlinear_arith)
                requires
                    xw == yw,
            ;
        }
    }
    if x.whole < y.whole {
        true
    } else if x.whole > y.whole {
        false
    } else {
        proper_frac_lt(x.num, x.den, y.num, y.den)
    }
}

// ── Substring matching ─────────────────────────────────────────────────

/// `q` occurs in `cmd` at character position `i`.
pub open spec fn occurs_at(cmd: Seq<char>, q: Seq<char>, i: int) -> bool {
    0 <= i && i + q.len() <= cmd.len() && cmd.subrange(i, i + q.len()) == q
}

/// The first position from `i` on where `q` occurs (`str::find`).
pub open spec fn find_from(cmd: Seq<char>, q: Seq<char>, i: int) -> Option<int>
    decreases cmd.len() + 1 - i,
{
    if i < 0 || i + q.len() > cmd.len() {
        None
    } else if occurs_at(cmd, q, i) {
        Some(i)
    } else {
        find_from(cmd, q, i + 1)
    }
}

fn occurs_at_exec(cmd: &Vec<char>, q: &Vec<char>, i: usize) -> (b: bool)
    requires
        i + q@.len() <= cmd@.len(),
    ensures
        b == occurs_at(cmd@, q@, i as int),
{
    let _n = cmd.len();
    let mut t: usize = 0;
    while t < q.len()
        invariant
            t <= q@.len(),
            _n == cmd@.len(),
            i + q@.len() <= cmd@.len(),
            forall|u: int| 0 <= u < t ==> cmd@[i + u] == q@[u],
        decreases q@.len() - t,
    {
        if cmd[i + t] != q[t] {
            assert(cmd@.subrange(i as int, i + q@.len())[t as int] != q@[t as int]);
            return false;
        }
        t = t + 1;
    }
    assert(cmd@.subrange(i as int, i + q@.len()) =~= q@);
    true
}

fn find_sub(cmd: &Vec<char>, q: &Vec<char>) -> (r: Option<usize>)
    ensures
        match r {
            Some(i) => find_from(cmd@, q@, 0) == Some(i as int),
            None => find_from(cmd@, q@, 0) is None,
        },
{
    if q.len() > cmd.len() {
        return None;
    }
    let mut i: usize = 0;
    let last = cmd.len() - q.len();
    loop
        invariant
            last + q@.len() == cmd@.len(),
            i <= last,
            find_from(cmd@, q@, 0) == find_from(cmd@, q@, i as int),
        decreases last - i,
    {
        if occurs_at_exec(cmd, q, i) {
            return Some(i);
        }
        if i == last {
            assert(find_from(cmd@, q@, i + 1) is None);
            return None;
        }
        i = i + 1;
    }
}

proof fn lemma_find_from_occurs(cmd: Seq<char>, q: Seq<char>, s: int)
    ensures
        find_from(cmd, q, s) matches Some(i) ==> occurs_at(cmd, q, i),
    decreases cmd.len() + 1 - s,
{
    if !(s < 0 || s + q.len() > cmd.len()) && !occurs_at(cmd, q, s) {
        lemma_find_from_occurs(cmd, q, s + 1);
    }
}

// ── Substring hits rank first ──────────────────────────────────────────

/// From the first character of a match to its `k`-th there are at least as
/// many bytes as the first `k` query characters take.
proof fn lemma_span_lower(s: Seq<char>, q: Seq<char>, p: Seq<int>, k: int)
    requires
        is_match(s, q, p),
        0 <= k < p.len(),
    ensures
        byte_offset(s, p[k]) >= byte_offset(s, p[0]) + utf8_len_seq(q.take(k)),
    decreases k,
{
    if k > 0 {
        lemma_span_lower(s, q, p, k - 1);
        assert(p[k - 1] < p[k]);
        assert(s[p[k - 1]] == q[k - 1]);
        lemma_utf8_len_take_step(s, p[k - 1]);
        lemma_utf8_len_monotone(s, p[k - 1] + 1, p[k]);
        lemma_utf8_len_take_step(q, k - 1);
    } else {
        assert(q.take(0) =~= Seq::<char>::empty());
    }
}

/// Character by character, a match earns no more bonus than an occurrence
/// of the query, except 6 at its first character.
proof fn lemma_bonus_compare(ca: Seq<char>, pa: Seq<int>, cb: Seq<char>, pb: Seq<int>, q: Seq<char>, i: int, k: int)
    requires
        occurs_at(ca, q, i),
        pa == Seq::new(q.len(), |t: int| i + t),
        is_match(cb, q, pb),
        1 <= k <= q.len(),
    ensures
        bonus_sum(cb, pb, k) <= bonus_sum(ca, pa, k) + 6,
    decreases k,
{
    if k == 1 {
        assert(bonus_sum(cb, pb, 0) == 0 && bonus_sum(ca, pa, 0) == 0);
        assert(bonus_sum(cb, pb, 1) == char_bonus(cb, pb, 0));
        assert(bonus_sum(ca, pa, 1) == char_bonus(ca, pa, 0));
    } else {
        lemma_bonus_compare(ca, pa, cb, pb, q, i, k - 1);
        let j = k - 1;
        assert(pa[j] == i + j && pa[j - 1] == i + j - 1);
        assert(ca.subrange(i, i + q.len())[j - 1] == q[j - 1]);
        assert(ca[pa[j] - 1] == q[j - 1]);
        assert(pb[j - 1] < pb[j]);
        if pb[j] == pb[j - 1] + 1 {
            assert(cb[pb[j] - 1] == q[j - 1]);
        }
        assert(char_bonus(cb, pb, j) <= char_bonus(ca, pa, j));
    }
}

/// Exact substring matches always rank above fuzzy ones: for a nonempty
/// query, a command that holds it as a substring gets a higher match
/// quality than any command that only matches it fuzzily.
pub proof fn lemma_substring_beats_fuzzy(ca: Seq<char>, cb: Seq<char>, q: Seq<char>)
    requires
        q.len() > 0,
        find_from(ca, q, 0) is Some,
        find_from(cb, q, 0) is None,
        match_spec(cb, q) is Some,
    ensures
        match_spec(ca, q) is Some,
        frac_lt(match_spec(cb, q).unwrap().1, match_spec(ca, q).unwrap().1),
{
    let i = find_from(ca, q, 0).unwrap();
    lemma_find_from_occurs(ca, q, 0);
    let m = q.len() as int;
    let pa = Seq::new(q.len(), |t: int| i + t);
    let pb = best_match_spec(cb, q).unwrap();
    lemma_best_match_is_match(cb, q);
    lemma_bonus_compare(ca, pa, cb, pb, q, i, m);
    lemma_bonus_bound(ca, pa, m);
    let ba = bonus_sum(ca, pa, m);
    let bb = bonus_sum(cb, pb, m);
    // The substring match: its quality is at least its bonus, plus 100.
    let fa = byte_offset(ca, pa[0]) as int;
    let la = byte_offset(ca, pa.last()) as int;
    if m > 1 {
        assert(pa[0] < pa[m - 1]);
        lemma_utf8_len_monotone(ca, pa[0], pa[m - 1]);
    }
    let sa: int = if m > 1 { la - fa + 1 } else { 1 };
    let ta: int = if m > 1 { 4 * m } else { 0 };
    let ga = 10 + fa;
    let (na, da) = quality_spec(ca, pa);
    assert(na == ba * sa * ga + ta * ga + 30 * sa && da == sa * ga);
    assert(na >= ba * da && da >= 1) by (nonlinear_arith)
        requires
            na == ba * sa * ga + ta * ga + 30 * sa,
            da == sa * ga,
            sa >= 1,
            ga >= 10,
            ta >= 0,
    ;
    // The fuzzy match spans at least as many bytes as it matches characters,
    // so its quality is at most its bonus plus 7.
    let fb = byte_offset(cb, pb[0]) as int;
    let lb = byte_offset(cb, pb.last()) as int;
    lemma_span_lower(cb, q, pb, m - 1);
    lemma_utf8_len_monotone(q, 0, m - 1);
    assert(q.take(0) =~= Seq::<char>::empty());
    let sb: int = if m > 1 { lb - fb + 1 } else { 1 };
    let tb: int = if m > 1 { 4 * m } else { 0 };
    let gb = 10 + fb;
    assert(tb <= 4 * sb);
    let (nb, db) = quality_spec(cb, pb);
    assert(nb == bb * sb * gb + tb * gb + 30 * sb && db == sb * gb);
    assert(nb <= (bb + 7) * db && db >= 1) by (nonlinear_arith)
        requires
            nb == bb * sb * gb + tb * gb + 30 * sb,
            db == sb * gb,
            0 <= tb <= 4 * sb,
            sb >= 1,
            gb >= 10,
    ;
    assert(nb * da <= (bb + 7) * db * da) by (nonlinear_arith)
        requires
            nb <= (bb + 7) * db,
            da >= 1,
    ;
    assert((na + 100 * da) * db >= (ba + 100) * da * db) by (nonlinear_arith)
        requires
            na >= ba * da,
            db >= 1,
    ;
    assert((bb + 7) * db * da < (ba + 100) * da * db) by (nonlinear_arith)
        requires
            bb <= ba + 6,
            da >= 1,
            db >= 1,
    ;
    assert(match_spec(ca, q).unwrap().1 == (na + 100 * da, da));
}

// ── Matching one command ───────────────────────────────────────────────

/// How a lowercased query matches a lowercased command: byte positions of
/// the matched characters and the match quality (a fraction). A substring
/// match comes first, with a bonus of 100; else the fuzzy match.
pub open spec fn match_spec(cl: Seq<char>, ql: Seq<char>) -> Option<(Seq<int>, (int, int))> {
    match find_from(cl, ql, 0) {
        Some(i) => {
            let p = Seq::new(ql.len(), |t: int| i + t);
            let v = quality_spec(cl, p);
            Some((byte_positions(cl, p), (v.0 + 100 * v.1, v.1)))
        },
        None => if ql.len() == 0 {
            Some((Seq::empty(), (0, 1)))
        } else {
            match best_match_spec(cl, ql) {
                Some(p) => Some((byte_positions(cl, p), quality_spec(cl, p))),
                None => None,
            }
        },
    }
}

/// Matches a lowercased query against a lowercased command.
pub fn match_command(cmd_lower: &str, query_lower: &str) -> (r: Option<(Vec<usize>, MatchQuality)>)
    ensures
        match r {
            Some((pos, quality)) => quality.wf() && match_spec(cmd_lower@, query_lower@) == Some(
                (pos@.map_values(|x: usize| x as int), quality.value()),
            ),
            None => match_spec(cmd_lower@, query_lower@) is None,
        },
{
    let (cmd, offs) = char_offsets(cmd_lower);
    let q = chars_of(query_lower);
    let m = q.len();
    let n = cmd.len();
    match find_sub(&cmd, &q) {
        Some(i) => {
            proof {
                lemma_find_from_occurs(cmd@, q@, 0);
            }
            let ghost p = Seq::new(m as nat, |t: int| i + t);
            let mut cpos: Vec<usize> = Vec::new();
            let mut bpos: Vec<usize> = Vec::new();
            let mut t: usize = 0;
            while t < m
                invariant
                    t <= m == q@.len(),
                    n == cmd@.len(),
                    i + m <= cmd@.len(),
                    offs@.len() == cmd@.len() + 1,
                    forall|j: int| 0 <= j <= cmd@.len() ==> offs@[j] == #[trigger] byte_offset(cmd@, j),
                    p == Seq::new(m as nat, |u: int| i + u),
                    cpos@.map_values(|x: usize| x as int) == p.take(t as int),
                    bpos@.map_values(|x: usize| x as int) == byte_positions(cmd@, p).take(t as int),
                decreases m - t,
            {
                let ghost c0 = cpos@.map_values(|x: usize| x as int);
                let ghost b0 = bpos@.map_values(|x: usize| x as int);
                cpos.push(i + t);
                bpos.push(offs[i + t]);
                assert(offs@[i + t] == byte_offset(cmd@, i + t));
                assert(cpos@.map_values(|x: usize| x as int) =~= c0.push(i + t));
                assert(bpos@.map_values(|x: usize| x as int) =~= b0.push(byte_offset(cmd@, i + t) as int));
                assert(p[t as int] == i + t);
                t = t + 1;
                assert(c0.push(i + t - 1) =~= p.take(t as int));
                assert(b0.push(byte_offset(cmd@, i + t - 1) as int) =~= byte_positions(cmd@, p).take(t as int));
            }
            assert(p.take(m as int) =~= p);
            assert(byte_positions(cmd@, p).take(m as int) =~= byte_positions(cmd@, p));
            assert(cpos@.map_values(|x: usize| x as int) == p);
            assert forall|k: int| 0 <= k < cpos@.len() implies #[trigger] cpos@[k] < cmd@.len() by {
                assert(p[k] == cpos@[k] as int);
            }
            assert forall|a: int, b: int| 0 <= a < b < cpos@.len() implies #[trigger] cpos@[a] < #[trigger] cpos@[b] by {
                assert(p[a] == cpos@[a] as int && p[b] == cpos@[b] as int);
            }
            let quality = score_positions(&cmd, &offs, &cpos);
            let bonus = MatchQuality { whole: quality.whole + 100, num: quality.num, den: quality.den };
            assert(bonus.value() == (quality.value().0 + 100 * quality.value().1, quality.value().1)) by (nonlinear_arith)
                requires
                    bonus.whole == quality.whole + 100,
                    bonus.num == quality.num,
                    bonus.den == quality.den,
            ;
            Some((bpos, bonus))
        },
        None => {
            if m == 0 {
                return Some((Vec::new(), MatchQuality { whole: 0, num: 0, den: 1 }));
            }
            match best_match(&cmd, &q) {
                Some(cpos) => {
                    proof {
                        lemma_best_match_is_match(cmd@, q@);
                    }
                    let mut bpos: Vec<usize> = Vec::new();
                    let mut t: usize = 0;
                    let ghost p = cpos@.map_values(|x: usize| x as int);
                    while t < cpos.len()
                        invariant
                            t <= cpos@.len(),
                            p == cpos@.map_values(|x: usize| x as int),
                            is_match(cmd@, q@, p),
                            offs@.len() == cmd@.len() + 1,
                            forall|j: int| 0 <= j <= cmd@.len() ==> offs@[j] == #[trigger] byte_offset(cmd@, j),
                            bpos@.map_values(|x: usize| x as int) == byte_positions(cmd@, p).take(t as int),
                        decreases cpos@.len() - t,
                    {
                        assert(p[t as int] < cmd@.len());
                        assert(offs@[cpos@[t as int] as int] == byte_offset(cmd@, p[t as int]));
                        let ghost b0 = bpos@.map_values(|x: usize| x as int);
                        bpos.push(offs[cpos[t]]);
                        assert(bpos@.map_values(|x: usize| x as int) =~= b0.push(byte_offset(cmd@, p[t as int]) as int));
                        t = t + 1;
                        assert(b0.push(byte_offset(cmd@, p[t - 1]) as int) =~= byte_positions(cmd@, p).take(t as int));
                    }
                    assert(byte_positions(cmd@, p).take(cpos@.len() as int) =~= byte_positions(cmd@, p));
                    assert forall|k: int| 0 <= k < cpos@.len() implies #[trigger] cpos@[k] < cmd@.len() by {
                        assert(p[k] == cpos@[k] as int);
                    }
                    assert forall|a: int, b: int| 0 <= a < b < cpos@.len() implies #[trigger] cpos@[a] < #[trigger] cpos@[b] by {
                        assert(p[a] == cpos@[a] as int && p[b] == cpos@[b] as int);
                    }
                    let quality = score_positions(&cmd, &offs, &cpos);
                    Some((bpos, quality))
                },
                None => None,
            }
        },
    }
}


// ── Searching ──────────────────────────────────────────────────────────

/// What `str::to_lowercase` gives for a string (the Unicode lowercase mapping).
pub uninterp spec fn lowercase(s: Seq<char>) -> Seq<char>;

/// `str::to_lowercase`. Its result is `lowercase` of its argument; the
/// Unicode case tables behind it are not restated.
#[verifier::external_body]
fn to_lowercase(s: &str) -> (r: String)
    ensures
        r@ == lowercase(s@),
{
    s.to_lowercase()
}

/// One search hit: the entry, the byte positions of the matched characters
/// in the lowercased command (for highlighting), and the match quality
/// (0 when there is no query).
#[derive(Debug, Clone)]
pub struct SearchResult {
    pub entry: HistoryEntry,
    pub match_positions: Vec<usize>,
    pub match_quality: MatchQuality,
}

/// A hit in the model: the entry's position, the byte positions of the
/// match and its quality as a fraction.
pub type Hit = (int, Seq<int>, (int, int));

/// The entries among the first `n` that match, in their order: the
/// entry's position, the byte positions of the match and its quality.
pub open spec fn matched(lowered: Seq<Seq<char>>, ql: Seq<char>, n: int) -> Seq<Hit>
    decreases n,
{
    if n <= 0 {
        Seq::empty()
    } else {
        let prev = matched(lowered, ql, n - 1);
        match match_spec(lowered[n - 1], ql) {
            Some(m) => prev.push((n - 1, m.0, m.1)),
            None => prev,
        }
    }
}

/// How many of `qs` are below `v`.
pub open spec fn count_below(qs: Seq<(int, int)>, v: (int, int)) -> nat
    decreases qs.len(),
{
    if qs.len() == 0 {
        0
    } else {
        count_below(qs.drop_last(), v) + if frac_lt(qs.last(), v) { 1nat } else { 0nat }
    }
}

/// For each of `qs`, how many of `qs` are below it: keys that order the
/// qualities exactly as their values (`lemma_below_counts_order`).
pub open spec fn below_counts(qs: Seq<(int, int)>) -> Seq<u128> {
    qs.map_values(|v: (int, int)| count_below(qs, v) as u128)
}

/// The qualities of the hits.
pub open spec fn hit_qualities(ms: Seq<Hit>) -> Seq<(int, int)> {
    ms.map_values(|t: Hit| t.2)
}

/// The entry scores of the hits.
pub open spec fn hit_scores(entries: Seq<HistoryEntry>, ms: Seq<Hit>) -> Seq<u128> {
    ms.map_values(|t: Hit| entries[t.0].score as u128)
}

/// Hits ordered by match quality, then entry score, both descending;
/// equal hits keep their order.
pub open spec fn ranked(entries: Seq<HistoryEntry>, ms: Seq<Hit>) -> Seq<Hit> {
    sorted_positions(below_counts(hit_qualities(ms)), hit_scores(entries, ms)).map_values(|k: int| ms[k])
}

/// Every entry, in order, with no match positions and quality 0.
pub open spec fn unfiltered(n: nat) -> Seq<Hit> {
    Seq::new(n, |i: int| (i, Seq::<int>::empty(), (0int, 1int)))
}

/// The lowercased commands of the entries.
pub open spec fn lowered_commands(entries: Seq<HistoryEntry>) -> Seq<Seq<char>> {
    entries.map_values(|e: HistoryEntry| lowercase(e.command@))
}

/// What `search` returns for `query`.
pub open spec fn search_spec(entries: Seq<HistoryEntry>, query: Seq<char>) -> Seq<Hit> {
    if query.len() == 0 {
        unfiltered(entries.len())
    } else {
        ranked(entries, matched(lowered_commands(entries), lowercase(query), entries.len() as int))
    }
}

/// `r` shows hit `t` of `entries`.
pub open spec fn shows(r: SearchResult, entries: Seq<HistoryEntry>, t: Hit) -> bool {
    &&& 0 <= t.0 < entries.len()
    &&& r.entry == entries[t.0]
    &&& r.match_positions@.map_values(|x: usize| x as int) == t.1
    &&& r.match_quality.wf()
    &&& r.match_quality.value() == t.2
}

/// `rs` shows the hits `ts`, one for one.
pub open spec fn shows_all(rs: Seq<SearchResult>, entries: Seq<HistoryEntry>, ts: Seq<Hit>) -> bool {
    &&& rs.len() == ts.len()
    &&& forall|k: int| 0 <= k < rs.len() ==> shows(#[trigger] rs[k], entries, ts[k])
}

fn copy_positions(v: &Vec<usize>) -> (r: Vec<usize>)
    ensures
        r@ == v@,
{
    let mut r: Vec<usize> = Vec::new();
    let mut i: usize = 0;
    while i < v.len()
        invariant
            i <= v@.len(),
            r@ == v@.take(i as int),
        decreases v@.len() - i,
    {
        r.push(v[i]);
        i = i + 1;
        assert(r@ =~= v@.take(i as int));
    }
    assert(v@.take(v@.len() as int) =~= v@);
    r
}

proof fn lemma_matched_index(lowered: Seq<Seq<char>>, ql: Seq<char>, n: int)
    ensures
        forall|k: int| 0 <= k < matched(lowered, ql, n).len() ==> 0 <= #[trigger] matched(lowered, ql, n)[k].0 < n,
    decreases n,
{
    if n > 0 {
        lemma_matched_index(lowered, ql, n - 1);
        let prev = matched(lowered, ql, n - 1);
        assert forall|k: int| 0 <= k < matched(lowered, ql, n).len() implies 0 <= #[trigger] matched(lowered, ql, n)[k].0 < n by {
            if k < prev.len() {
                assert(matched(lowered, ql, n)[k] == prev[k]);
            }
        }
    }
}

/// `count_below` grows by one element at a time.
proof fn lemma_count_below_step(qs: Seq<(int, int)>, v: (int, int), j: int)
    requires
        0 <= j < qs.len(),
    ensures
        count_below(qs.take(j + 1), v) == count_below(qs.take(j), v) + if frac_lt(qs[j], v) { 1nat } else { 0nat },
{
    assert(qs.take(j + 1).drop_last() =~= qs.take(j));
}

/// For each quality, how many of the qualities are below it.
fn below_counts_exec(quals: &Vec<MatchQuality>) -> (r: Vec<u128>)
    requires
        forall|k: int| 0 <= k < quals@.len() ==> #[trigger] quals@[k].wf(),
    ensures
        r@ == below_counts(quals@.map_values(|x: MatchQuality| x.value())),
{
    let ghost qs = quals@.map_values(|x: MatchQuality| x.value());
    let n = quals.len();
    let mut r: Vec<u128> = Vec::new();
    let mut i: usize = 0;
    while i < n
        invariant
            i <= n == quals@.len() == qs.len(),
            qs == quals@.map_values(|x: MatchQuality| x.value()),
            forall|k: int| 0 <= k < quals@.len() ==> #[trigger] quals@[k].wf(),
            r@ == below_counts(qs).take(i as int),
        decreases n - i,
    {
        let mut c: u128 = 0;
        let mut j: usize = 0;
        while j < n
            invariant
                j <= n == quals@.len() == qs.len(),
                i < n,
                qs == quals@.map_values(|x: MatchQuality| x.value()),
                forall|k: int| 0 <= k < quals@.len() ==> #[trigger] quals@[k].wf(),
                c == count_below(qs.take(j as int), qs[i as int]),
                c <= j,
            decreases n - j,
        {
            proof {
                lemma_count_below_step(qs, qs[i as int], j as int);
            }
            if quality_lt(&quals[j], &quals[i]) {
                c = c + 1;
            }
            j = j + 1;
        }
        assert(qs.take(n as int) =~= qs);
        r.push(c);
        i = i + 1;
        assert(r@ =~= below_counts(qs).take(i as int));
    }
    assert(below_counts(qs).take(n as int) =~= below_counts(qs));
    r
}

/// Searches with an already lowercased query, given the lowercased
/// commands of the entries: the hits ranked as `ranked` says.
pub fn search_lowered(entries: &[HistoryEntry], lowered: &Vec<String>, query_lower: &str) -> (r: Vec<SearchResult>)
    requires
        lowered@.len() == entries@.len(),
    ensures
        shows_all(
            r@,
            entries@,
            ranked(entries@, matched(lowered@.map_values(|s: String| s@), query_lower@, entries@.len() as int)),
        ),
{
    let ghost lv = lowered@.map_values(|s: String| s@);
    let n = entries.len();
    let mut hits: Vec<(usize, Vec<usize>, MatchQuality)> = Vec::new();
    let mut quals: Vec<MatchQuality> = Vec::new();
    let mut scores: Vec<u128> = Vec::new();
    let mut i: usize = 0;
    while i < n
        invariant
            i <= n == entries@.len() == lowered@.len(),
            lv == lowered@.map_values(|s: String| s@),
            hits@.len() == matched(lv, query_lower@, i as int).len(),
            quals@.len() == hits@.len(),
            scores@.len() == hits@.len(),
            forall|k: int| 0 <= k < hits@.len() ==> {
                let t = #[trigger] matched(lv, query_lower@, i as int)[k];
                &&& hits@[k].0 as int == t.0
                &&& hits@[k].1@.map_values(|x: usize| x as int) == t.1
                &&& hits@[k].2.wf()
                &&& hits@[k].2.value() == t.2
                &&& quals@[k] == hits@[k].2
                &&& scores@[k] == entries@[t.0].score as u128
            },
        decreases n - i,
    {
        proof {
            lemma_matched_index(lv, query_lower@, i as int);
        }
        assert(lowered@[i as int]@ == lv[i as int]);
        match match_command(lowered[i].as_str(), query_lower) {
            Some((pos, quality)) => {
                let ghost before = matched(lv, query_lower@, i as int);
                hits.push((i, pos, quality));
                quals.push(quality);
                scores.push(entries[i].score as u128);
                proof {
                    assert(matched(lv, query_lower@, i + 1) == before.push(
                        (i as int, pos@.map_values(|x: usize| x as int), quality.value()),
                    ));
                    assert forall|k: int| 0 <= k < hits@.len() implies {
                        let t = #[trigger] matched(lv, query_lower@, i + 1)[k];
                        &&& hits@[k].0 as int == t.0
                        &&& hits@[k].1@.map_values(|x: usize| x as int) == t.1
                        &&& hits@[k].2.wf()
                        &&& hits@[k].2.value() == t.2
                        &&& quals@[k] == hits@[k].2
                        &&& scores@[k] == entries@[t.0].score as u128
                    } by {
                        if k < before.len() {
                            assert(matched(lv, query_lower@, i + 1)[k] == before[k]);
                            assert(matched(lv, query_lower@, i as int)[k] == before[k]);
                        }
                    }
                }
            },
            None => {
                assert(matched(lv, query_lower@, i + 1) == matched(lv, query_lower@, i as int));
            },
        }
        i = i + 1;
    }
    let ghost ms = matched(lv, query_lower@, n as int);
    proof {
        lemma_matched_index(lv, query_lower@, n as int);
        assert forall|k: int| 0 <= k < quals@.len() implies #[trigger] quals@[k].wf() by {
            assert(hits@[k].2.wf() && quals@[k] == hits@[k].2) by {
                let t = matched(lv, query_lower@, n as int)[k];
            }
        }
        assert(quals@.map_values(|x: MatchQuality| x.value()) =~= hit_qualities(ms));
        assert(scores@ =~= hit_scores(entries@, ms));
    }
    let ranks = below_counts_exec(&quals);
    let order = order_by_keys(&ranks, &scores);
    let ghost sp = sorted_positions(ranks@, scores@);
    proof {
        crate::sorting::lemma_sorted_positions_len(ranks@, scores@);
    }
    let mut out: Vec<SearchResult> = Vec::new();
    let mut k: usize = 0;
    while k < order.len()
        invariant
            k <= order@.len() == ranks@.len() == hits@.len() == ms.len(),
            n == entries@.len(),
            sp == sorted_positions(ranks@, scores@),
            sp.len() == ms.len(),
            ranks@ == below_counts(hit_qualities(ms)),
            scores@ == hit_scores(entries@, ms),
            forall|j: int| 0 <= j < order@.len() ==> order@[j] as int == #[trigger] sp[j],
            forall|j: int| 0 <= j < order@.len() ==> order@[j] < ranks@.len(),
            forall|j: int| 0 <= j < ms.len() ==> 0 <= #[trigger] ms[j].0 < n,
            forall|j: int| 0 <= j < hits@.len() ==> {
                let t = #[trigger] ms[j];
                &&& hits@[j].0 as int == t.0
                &&& hits@[j].1@.map_values(|x: usize| x as int) == t.1
                &&& hits@[j].2.wf()
                &&& hits@[j].2.value() == t.2
            },
            out@.len() == k,
            forall|j: int| 0 <= j < k ==> shows(#[trigger] out@[j], entries@, ranked(entries@, ms)[j]),
        decreases order@.len() - k,
    {
        let h = order[k];
        let hit = &hits[h];
        assert(ms[h as int].0 == hit.0 as int);
        let r = SearchResult {
            entry: entries[hit.0].duplicate(),
            match_positions: copy_positions(&hit.1),
            match_quality: hit.2,
        };
        proof {
            assert(ranked(entries@, ms)[k as int] == ms[sp[k as int]]);
        }
        out.push(r);
        k = k + 1;
    }
    out
}

/// Case-insensitive search: for an empty query every entry in order, with
/// no match and quality 0; else the entries whose lowercased command
/// matches the lowercased query, best match first.
pub fn search(entries: &[HistoryEntry], query: &str) -> (r: Vec<SearchResult>)
    ensures
        shows_all(r@, entries@, search_spec(entries@, query@)),
{
    if query.is_empty() {
        let mut out: Vec<SearchResult> = Vec::new();
        let mut i: usize = 0;
        while i < entries.len()
            invariant
                i <= entries@.len(),
                query@.len() == 0,
                out@.len() == i,
                forall|j: int| 0 <= j < i ==> shows(#[trigger] out@[j], entries@, unfiltered(entries@.len())[j]),
            decreases entries@.len() - i,
        {
            let r = SearchResult {
                entry: entries[i].duplicate(),
                match_positions: Vec::new(),
                match_quality: MatchQuality { whole: 0, num: 0, den: 1 },
            };
            assert(r.match_positions@.map_values(|x: usize| x as int) =~= Seq::<int>::empty());
            out.push(r);
            i = i + 1;
        }
        return out;
    }
    let query_lower = to_lowercase(query);
    let mut lowered: Vec<String> = Vec::new();
    let mut i: usize = 0;
    while i < entries.len()
        invariant
            i <= entries@.len(),
            lowered@.map_values(|s: String| s@) == lowered_commands(entries@).take(i as int),
        decreases entries@.len() - i,
    {
        let l = to_lowercase(entries[i].command.as_str());
        let ghost before = lowered@.map_values(|s: String| s@);
        let ghost lv = l@;
        lowered.push(l);
        assert(lowered@.map_values(|s: String| s@) =~= before.push(lv));
        assert(lowered_commands(entries@).take(i + 1) =~= lowered_commands(entries@).take(i as int).push(lv));
        i = i + 1;
        assert(lowered@.map_values(|s: String| s@) =~= lowered_commands(entries@).take(i as int));
    }
    assert(lowered_commands(entries@).take(entries@.len() as int) =~= lowered_commands(entries@));
    search_lowered(entries, &lowered, query_lower.as_str())
}


impl SearchResult {
    /// A copy of the result.
    pub fn duplicate(&self) -> (r: SearchResult)
        ensures
            r.entry == self.entry,
            r.match_positions@ == self.match_positions@,
            r.match_quality == self.match_quality,
    {
        SearchResult {
            entry: self.entry.duplicate(),
            match_positions: copy_positions(&self.match_positions),
            match_quality: self.match_quality,
        }
    }
}

// ── Adaptive filtering ─────────────────────────────────────────────────

/// The hits that `search_adaptive` keeps: with no query, those of commands
/// used more than once; with a query, all of them when there are at most
/// 20, else those whose entry score is at least half that of the hit at a
/// third of the list.
pub open spec fn adaptive_spec(entries: Seq<HistoryEntry>, ts: Seq<Hit>, query_empty: bool) -> Seq<Hit> {
    if query_empty {
        ts.filter(|t: Hit| entries[t.0].frequency > 1)
    } else if ts.len() <= 20 {
        ts
    } else {
        let threshold = entries[ts[(ts.len() / 3) as int].0].score;
        ts.filter(|t: Hit| 2 * entries[t.0].score >= threshold)
    }
}

proof fn lemma_filter_take_step<A>(s: Seq<A>, p: spec_fn(A) -> bool, i: int)
    requires
        0 <= i < s.len(),
    ensures
        s.take(i + 1).filter(p) == (if p(s[i]) {
            s.take(i).filter(p).push(s[i])
        } else {
            s.take(i).filter(p)
        }),
{
    reveal(Seq::filter);
    assert(s.take(i + 1).drop_last() =~= s.take(i));
}

proof fn lemma_bonus_bound(c: Seq<char>, p: Seq<int>, k: int)
    requires
        0 <= k,
    ensures
        0 <= bonus_sum(c, p, k) <= 15 * k,
    decreases k,
{
    if k > 0 {
        lemma_bonus_bound(c, p, k - 1);
    }
}

/// A match has a positive quality denominator.
proof fn lemma_quality_den_pos(c: Seq<char>, p: Seq<int>)
    requires
        forall|k: int| 0 <= k < p.len() ==> 0 <= #[trigger] p[k] < c.len(),
        forall|a: int, b: int| 0 <= a < b < p.len() ==> #[trigger] p[a] < #[trigger] p[b],
    ensures
        quality_spec(c, p).1 >= 1,
{
    let m = p.len() as int;
    if m > 0 {
        let first = byte_offset(c, p[0]) as int;
        let last = byte_offset(c, p.last()) as int;
        if m > 1 {
            assert(p[0] < p[m - 1]);
            lemma_utf8_len_monotone(c, p[0], p[m - 1]);
        }
        let span: int = if m > 1 { last - first + 1 } else { 1 };
        let g = 10 + first;
        assert(span * g >= 1) by (nonlinear_arith)
            requires
                span >= 1,
                g >= 10,
        ;
    }
}

/// The match of a query in a command, when there is one, has a positive
/// quality denominator.
proof fn lemma_match_den_pos(c: Seq<char>, q: Seq<char>)
    ensures
        match_spec(c, q) matches Some(r) ==> r.1.1 >= 1,
{
    match find_from(c, q, 0) {
        Some(i) => {
            lemma_find_from_occurs(c, q, 0);
            let p = Seq::new(q.len(), |t: int| i + t);
            lemma_quality_den_pos(c, p);
        },
        None => {
            if q.len() > 0 {
                lemma_best_match_is_match(c, q);
                if let Some(p) = best_match_spec(c, q) {
                    lemma_quality_den_pos(c, p);
                }
            }
        },
    }
}

/// `frac_lt` is transitive over positive denominators.
proof fn lemma_frac_lt_trans(x: (int, int), y: (int, int), z: (int, int))
    requires
        x.1 > 0,
        y.1 > 0,
        z.1 > 0,
        frac_lt(x, y),
        frac_lt(y, z),
    ensures
        frac_lt(x, z),
{
    let (x0, x1, y0, y1, z0, z1) = (x.0, x.1, y.0, y.1, z.0, z.1);
    assert(x0 * y1 * z1 < y0 * x1 * z1) by (nonlinear_arith)
        requires
            x0 * y1 < y0 * x1,
            z1 > 0,
    ;
    assert(y0 * z1 * x1 < z0 * y1 * x1) by (nonlinear_arith)
        requires
            y0 * z1 < z0 * y1,
            x1 > 0,
    ;
    assert(x0 * z1 < z0 * x1) by (nonlinear_arith)
        requires
            x0 * y1 * z1 < y0 * x1 * z1,
            y0 * z1 * x1 < z0 * y1 * x1,
            y1 > 0,
    ;
}

/// Below `x`, and `x` equal in value to `y`: below `y`.
proof fn lemma_frac_lt_equal(z: (int, int), x: (int, int), y: (int, int))
    requires
        x.1 > 0,
        y.1 > 0,
        z.1 > 0,
        x.0 * y.1 == y.0 * x.1,
        frac_lt(z, x),
    ensures
        frac_lt(z, y),
{
    let (x0, x1, y0, y1, z0, z1) = (x.0, x.1, y.0, y.1, z.0, z.1);
    assert(z0 * x1 * y1 < x0 * z1 * y1) by (nonlinear_arith)
        requires
            z0 * x1 < x0 * z1,
            y1 > 0,
    ;
    assert(x0 * z1 * y1 == y0 * x1 * z1) by (nonlinear_arith)
        requires
            x0 * y1 == y0 * x1,
    ;
    assert(z0 * y1 < y0 * z1) by (nonlinear_arith)
        requires
            z0 * x1 * y1 < y0 * x1 * z1,
            x1 > 0,
    ;
}

proof fn lemma_count_below_len(qs: Seq<(int, int)>, v: (int, int))
    ensures
        count_below(qs, v) <= qs.len(),
    decreases qs.len(),
{
    if qs.len() > 0 {
        lemma_count_below_len(qs.drop_last(), v);
    }
}

/// Whatever is below `vx` is below `vy`: `vy` counts at least as many,
/// and more when something below `vy` is not below `vx`.
proof fn lemma_count_below_mono(qs: Seq<(int, int)>, vx: (int, int), vy: (int, int), w: int)
    requires
        forall|k: int| 0 <= k < qs.len() ==> frac_lt(#[trigger] qs[k], vx) ==> frac_lt(qs[k], vy),
    ensures
        count_below(qs, vx) <= count_below(qs, vy),
        0 <= w < qs.len() && frac_lt(qs[w], vy) && !frac_lt(qs[w], vx) ==> count_below(qs, vx) < count_below(qs, vy),
    decreases qs.len(),
{
    if qs.len() > 0 {
        let d = qs.drop_last();
        assert forall|k: int| 0 <= k < d.len() implies frac_lt(#[trigger] d[k], vx) ==> frac_lt(d[k], vy) by {
            assert(d[k] == qs[k]);
        }
        lemma_count_below_mono(d, vx, vy, w);
        assert(frac_lt(qs.last(), vx) ==> frac_lt(qs.last(), vy));
        if 0 <= w < qs.len() - 1 {
            assert(d[w] == qs[w]);
        }
    }
}

/// The below-counts order qualities exactly as their values: a lower
/// quality has a smaller count, and equal qualities have equal counts.
pub proof fn lemma_below_counts_order(qs: Seq<(int, int)>, i: int, j: int)
    requires
        forall|k: int| 0 <= k < qs.len() ==> (#[trigger] qs[k]).1 > 0,
        0 <= i < qs.len(),
        0 <= j < qs.len(),
    ensures
        frac_lt(qs[i], qs[j]) ==> count_below(qs, qs[i]) < count_below(qs, qs[j]),
        !frac_lt(qs[i], qs[j]) && !frac_lt(qs[j], qs[i]) ==> count_below(qs, qs[i]) == count_below(qs, qs[j]),
{
    let (x, y) = (qs[i], qs[j]);
    if frac_lt(x, y) {
        assert forall|k: int| 0 <= k < qs.len() implies frac_lt(#[trigger] qs[k], x) ==> frac_lt(qs[k], y) by {
            if frac_lt(qs[k], x) {
                lemma_frac_lt_trans(qs[k], x, y);
            }
        }
        lemma_count_below_mono(qs, x, y, i);
    }
    if !frac_lt(x, y) && !frac_lt(y, x) {
        assert forall|k: int| 0 <= k < qs.len() implies frac_lt(#[trigger] qs[k], x) ==> frac_lt(qs[k], y) by {
            if frac_lt(qs[k], x) {
                lemma_frac_lt_equal(qs[k], x, y);
            }
        }
        assert forall|k: int| 0 <= k < qs.len() implies frac_lt(#[trigger] qs[k], y) ==> frac_lt(qs[k], x) by {
            if frac_lt(qs[k], y) {
                lemma_frac_lt_equal(qs[k], y, x);
            }
        }
        lemma_count_below_mono(qs, x, y, 0);
        lemma_count_below_mono(qs, y, x, 0);
    }
}

/// Search ranks by match quality, then entry score, then entry order: of
/// two ranked hits, the earlier never has the lower quality, with an equal
/// quality never the lower entry score, and with both equal comes first in
/// the history. The ranked hits are the hits, reordered.
pub proof fn lemma_ranked_order(entries: Seq<HistoryEntry>, ms: Seq<Hit>, a: int, b: int)
    requires
        ms.len() <= usize::MAX,
        forall|k: int| 0 <= k < ms.len() ==> (#[trigger] ms[k]).2.1 > 0,
        forall|i: int, j: int| 0 <= i < j < ms.len() ==> #[trigger] ms[i].0 < #[trigger] ms[j].0,
        0 <= a < b < ms.len(),
    ensures
        ranked(entries, ms).len() == ms.len(),
        ms.contains(ranked(entries, ms)[a]),
        ms.contains(ranked(entries, ms)[b]),
        !frac_lt(ranked(entries, ms)[a].2, ranked(entries, ms)[b].2),
        !frac_lt(ranked(entries, ms)[b].2, ranked(entries, ms)[a].2)
            ==> entries[ranked(entries, ms)[a].0].score >= entries[ranked(entries, ms)[b].0].score,
        !frac_lt(ranked(entries, ms)[b].2, ranked(entries, ms)[a].2)
            && entries[ranked(entries, ms)[a].0].score == entries[ranked(entries, ms)[b].0].score
            ==> ranked(entries, ms)[a].0 < ranked(entries, ms)[b].0,
{
    let qs = hit_qualities(ms);
    let keys = below_counts(qs);
    let sc = hit_scores(entries, ms);
    crate::sorting::lemma_sorted_positions_len(keys, sc);
    crate::sorting::lemma_sorted_positions_order(keys, sc, a, b);
    let sp = sorted_positions(keys, sc);
    let (x, y) = (sp[a], sp[b]);
    assert(ranked(entries, ms)[a] == ms[x]);
    assert(ranked(entries, ms)[b] == ms[y]);
    assert forall|k: int| 0 <= k < qs.len() implies (#[trigger] qs[k]).1 > 0 by {
        assert(qs[k] == ms[k].2);
    }
    lemma_below_counts_order(qs, x, y);
    lemma_count_below_len(qs, qs[x]);
    lemma_count_below_len(qs, qs[y]);
    assert(keys[x] == count_below(qs, qs[x]) && keys[y] == count_below(qs, qs[y]));
}

proof fn lemma_matched_hits(lowered: Seq<Seq<char>>, ql: Seq<char>, n: int)
    ensures
        forall|k: int| 0 <= k < matched(lowered, ql, n).len() ==> {
            let t = #[trigger] matched(lowered, ql, n)[k];
            0 <= t.0 < n && match_spec(lowered[t.0], ql) == Some((t.1, t.2))
        },
    decreases n,
{
    if n > 0 {
        lemma_matched_hits(lowered, ql, n - 1);
        let prev = matched(lowered, ql, n - 1);
        assert forall|k: int| 0 <= k < matched(lowered, ql, n).len() implies {
            let t = #[trigger] matched(lowered, ql, n)[k];
            0 <= t.0 < n && match_spec(lowered[t.0], ql) == Some((t.1, t.2))
        } by {
            if k < prev.len() {
                assert(matched(lowered, ql, n)[k] == prev[k]);
            }
        }
    }
}

/// Every hit has a positive quality denominator.
proof fn lemma_matched_den_pos(lowered: Seq<Seq<char>>, ql: Seq<char>, n: int)
    ensures
        forall|k: int| 0 <= k < matched(lowered, ql, n).len() ==> (#[trigger] matched(lowered, ql, n)[k]).2.1 > 0,
{
    lemma_matched_hits(lowered, ql, n);
    assert forall|k: int| 0 <= k < matched(lowered, ql, n).len() implies (#[trigger] matched(lowered, ql, n)[k]).2.1 > 0 by {
        lemma_match_den_pos(lowered[matched(lowered, ql, n)[k].0], ql);
    }
}

/// Exact substring matches rank above fuzzy ones: among the ranked hits of
/// a lowercased query, a hit whose lowercased command holds the query as a
/// substring never comes after one whose command does not.
pub proof fn lemma_substring_hits_first(entries: Seq<HistoryEntry>, lowered: Seq<Seq<char>>, ql: Seq<char>, a: int, b: int)
    requires
        lowered.len() == entries.len(),
        entries.len() <= usize::MAX,
        0 <= a < b < ranked(entries, matched(lowered, ql, entries.len() as int)).len(),
        find_from(lowered[ranked(entries, matched(lowered, ql, entries.len() as int))[b].0], ql, 0) is Some,
    ensures
        find_from(lowered[ranked(entries, matched(lowered, ql, entries.len() as int))[a].0], ql, 0) is Some,
{
    let n = entries.len() as int;
    let ms = matched(lowered, ql, n);
    lemma_matched_hits(lowered, ql, n);
    lemma_matched_den_pos(lowered, ql, n);
    crate::sorting::lemma_sorted_positions_len(below_counts(hit_qualities(ms)), hit_scores(entries, ms));
    assert(ms.len() <= n) by {
        lemma_matched_len(lowered, ql, n);
    }
    lemma_matched_exactly(lowered, ql, n, 0);
    lemma_ranked_order(entries, ms, a, b);
    let ta = ranked(entries, ms)[a];
    let tb = ranked(entries, ms)[b];
    let x = choose|x: int| 0 <= x < ms.len() && ms[x] == ta;
    let y = choose|y: int| 0 <= y < ms.len() && ms[y] == tb;
    assert(match_spec(lowered[ta.0], ql) == Some((ta.1, ta.2)));
    assert(match_spec(lowered[tb.0], ql) == Some((tb.1, tb.2)));
    if find_from(lowered[ta.0], ql, 0) is None {
        if ql.len() == 0 {
            assert(occurs_at(lowered[ta.0], ql, 0)) by {
                assert(lowered[ta.0].subrange(0, 0) =~= ql);
            }
        } else {
            lemma_substring_beats_fuzzy(lowered[tb.0], lowered[ta.0], ql);
            assert(false);
        }
    }
}

/// The forward pass finds a match from `start` on whenever there is one.
proof fn lemma_forward_match_complete(cmd: Seq<char>, q: Seq<char>, p: Seq<int>, start: int)
    requires
        is_match(cmd, q, p),
        0 <= start,
        q.len() > 0 ==> p[0] >= start,
    ensures
        forward_match(cmd, q, start) is Some,
    decreases q.len(),
{
    if q.len() > 0 {
        lemma_first_at_or_after(cmd, q[0], start);
        assert(cmd[p[0]] == q[0]);
        let j = first_at_or_after(cmd, q[0], start).unwrap();
        assert(j <= p[0]);
        let q1 = q.drop_first();
        let p1 = p.drop_first();
        assert(is_match(cmd, q1, p1)) by {
            assert forall|k: int| 0 <= k < p1.len() implies 0 <= #[trigger] p1[k] < cmd.len() && cmd[p1[k]] == q1[k] by {
                assert(p1[k] == p[k + 1] && q1[k] == q[k + 1]);
            }
            assert forall|a: int, c: int| 0 <= a < c < p1.len() implies #[trigger] p1[a] < #[trigger] p1[c] by {
                assert(p1[a] == p[a + 1] && p1[c] == p[c + 1]);
            }
        }
        if q1.len() > 0 {
            assert(p[0] < p[1]);
        }
        lemma_forward_match_complete(cmd, q1, p1, j + 1);
    }
}

/// The fuzzy match is complete: whenever the characters of `q` occur in
/// `cmd` in order, `best_match_spec` finds a match.
pub proof fn lemma_best_match_complete(cmd: Seq<char>, q: Seq<char>, p: Seq<int>)
    requires
        is_match(cmd, q, p),
    ensures
        best_match_spec(cmd, q) is Some,
{
    lemma_forward_match_complete(cmd, q, p, 0);
}

/// A command matches a query (as a substring, or fuzzily) exactly when the
/// characters of the query occur in it in order.
pub proof fn lemma_match_iff_subsequence(cl: Seq<char>, ql: Seq<char>)
    ensures
        match_spec(cl, ql) is Some <==> exists|p: Seq<int>| is_match(cl, ql, p),
{
    match find_from(cl, ql, 0) {
        Some(i) => {
            lemma_find_from_occurs(cl, ql, 0);
            let p = Seq::new(ql.len(), |t: int| i + t);
            assert forall|k: int| 0 <= k < p.len() implies 0 <= #[trigger] p[k] < cl.len() && cl[p[k]] == ql[k] by {
                assert(cl.subrange(i, i + ql.len())[k] == ql[k]);
            }
            assert(is_match(cl, ql, p));
        },
        None => {
            if ql.len() == 0 {
                assert(is_match(cl, ql, Seq::<int>::empty()));
            } else {
                lemma_best_match_is_match(cl, ql);
                if exists|p: Seq<int>| is_match(cl, ql, p) {
                    let p = choose|p: Seq<int>| is_match(cl, ql, p);
                    lemma_best_match_complete(cl, ql, p);
                }
                if let Some(p) = best_match_spec(cl, ql) {
                    assert(is_match(cl, ql, p));
                }
            }
        },
    }
}

/// The hits of a search are exactly the entries whose lowercased command
/// holds the characters of the lowercased query in order, each once, in
/// entry order.
pub proof fn lemma_matched_exactly(lowered: Seq<Seq<char>>, ql: Seq<char>, n: int, i: int)
    requires
        0 <= i < n,
    ensures
        (exists|k: int| 0 <= k < matched(lowered, ql, n).len() && #[trigger] matched(lowered, ql, n)[k].0 == i)
            <==> exists|p: Seq<int>| is_match(lowered[i], ql, p),
        forall|a: int, b: int| 0 <= a < b < matched(lowered, ql, n).len()
            ==> #[trigger] matched(lowered, ql, n)[a].0 < #[trigger] matched(lowered, ql, n)[b].0,
    decreases n,
{
    lemma_match_iff_subsequence(lowered[i], ql);
    lemma_matched_index(lowered, ql, n - 1);
    let prev = matched(lowered, ql, n - 1);
    let cur = matched(lowered, ql, n);
    if i < n - 1 {
        lemma_matched_exactly(lowered, ql, n - 1, i);
        if exists|k: int| 0 <= k < prev.len() && #[trigger] prev[k].0 == i {
            let k = choose|k: int| 0 <= k < prev.len() && #[trigger] prev[k].0 == i;
            assert(cur[k] == prev[k]);
        }
        if exists|k: int| 0 <= k < cur.len() && #[trigger] cur[k].0 == i {
            let k = choose|k: int| 0 <= k < cur.len() && #[trigger] cur[k].0 == i;
            if k < prev.len() {
                assert(cur[k] == prev[k]);
            }
        }
    } else {
        if exists|k: int| 0 <= k < cur.len() && #[trigger] cur[k].0 == i {
            let k = choose|k: int| 0 <= k < cur.len() && #[trigger] cur[k].0 == i;
            if k < prev.len() {
                assert(cur[k] == prev[k]);
            }
        }
        if match_spec(lowered[n - 1], ql) is Some {
            assert(cur[prev.len() as int].0 == i);
        }
    }
    if n - 1 > 0 {
        lemma_matched_exactly(lowered, ql, n - 1, 0);
    }
    assert forall|a: int, b: int| 0 <= a < b < cur.len() implies #[trigger] cur[a].0 < #[trigger] cur[b].0 by {
        if b < prev.len() {
            assert(cur[a] == prev[a] && cur[b] == prev[b]);
        } else {
            assert(cur[a] == prev[a]);
        }
    }
}

proof fn lemma_matched_len(lowered: Seq<Seq<char>>, ql: Seq<char>, n: int)
    requires
        n >= 0,
    ensures
        matched(lowered, ql, n).len() <= n,
    decreases n,
{
    if n > 0 {
        lemma_matched_len(lowered, ql, n - 1);
    }
}

/// Keeps the results whose entry is used more than once (`by_frequency`),
/// or else whose entry score is at least half of `threshold`.
fn keep_hits(
    results: &Vec<SearchResult>,
    by_frequency: bool,
    threshold: u64,
    Ghost(entries): Ghost<Seq<HistoryEntry>>,
    Ghost(ts): Ghost<Seq<Hit>>,
    Ghost(p): Ghost<spec_fn(Hit) -> bool>,
) -> (r: Vec<SearchResult>)
    requires
        shows_all(results@, entries, ts),
        forall|t: Hit| 0 <= t.0 < entries.len() ==> #[trigger] p(t) == (if by_frequency {
            entries[t.0].frequency > 1
        } else {
            2 * entries[t.0].score >= threshold
        }),
    ensures
        shows_all(r@, entries, ts.filter(p)),
{
    let mut out: Vec<SearchResult> = Vec::new();
    let mut i: usize = 0;
    while i < results.len()
        invariant
            i <= results@.len() == ts.len(),
            shows_all(results@, entries, ts),
            forall|t: Hit| 0 <= t.0 < entries.len() ==> #[trigger] p(t) == (if by_frequency {
                entries[t.0].frequency > 1
            } else {
                2 * entries[t.0].score >= threshold
            }),
            shows_all(out@, entries, ts.take(i as int).filter(p)),
        decreases results@.len() - i,
    {
        let r = &results[i];
        assert(shows(results@[i as int], entries, ts[i as int]));
        proof {
            lemma_filter_take_step(ts, p, i as int);
        }
        let keep = if by_frequency {
            r.entry.frequency > 1
        } else {
            2 * (r.entry.score as u128) >= threshold as u128
        };
        if keep {
            let ghost before = out@;
            out.push(r.duplicate());
            assert forall|k: int| 0 <= k < out@.len() implies shows(#[trigger] out@[k], entries, ts.take(i + 1).filter(p)[k]) by {
                if k < before.len() {
                    assert(out@[k] == before[k]);
                }
            }
        }
        i = i + 1;
    }
    assert(ts.take(ts.len() as int) =~= ts);
    out
}

/// Search with a noise filter: few hits are all shown, many lose the
/// low-scored ones; with no query only repeated commands are shown.
pub fn search_adaptive(entries: &[HistoryEntry], query: &str) -> (r: Vec<SearchResult>)
    ensures
        shows_all(r@, entries@, adaptive_spec(entries@, search_spec(entries@, query@), query@.len() == 0)),
{
    let results = search(entries, query);
    let ghost ts = search_spec(entries@, query@);
    if query.is_empty() {
        return keep_hits(&results, true, 0, Ghost(entries@), Ghost(ts), Ghost(|t: Hit| entries@[t.0].frequency > 1));
    }
    if results.len() <= 20 {
        return results;
    }
    let threshold = results[results.len() / 3].entry.score;
    assert(shows(results@[(results@.len() / 3) as int], entries@, ts[(ts.len() / 3) as int]));
    keep_hits(
        &results,
        false,
        threshold,
        Ghost(entries@),
        Ghost(ts),
        Ghost(|t: Hit| 2 * entries@[t.0].score >= threshold),
    )
}

// ── Reading the history ────────────────────────────────────────────────

/// A trimmed history line that holds a command: not empty, not a comment.
pub open spec fn is_command_line(t: Seq<char>) -> bool {
    t.len() > 0 && t[0] != '#'
}

/// For each command of the lines, in order of first use: its number of
/// uses and the index of the last line that uses it.
pub open spec fn tally(lines: Seq<Seq<char>>) -> Seq<(Seq<char>, (usize, usize))>
    decreases lines.len(),
{
    if lines.len() == 0 {
        Seq::empty()
    } else {
        let prev = tally(lines.drop_last());
        let c = trim(lines.last());
        if !is_command_line(c) {
            prev
        } else {
            let f: int = match alist_get(prev, c) {
                Some(v) => v.0 + 1,
                None => 1,
            };
            alist_set(prev, c, (f as usize, (lines.len() - 1) as usize))
        }
    }
}

proof fn lemma_alist_set_elems<V>(s: Seq<(Seq<char>, V)>, k: Seq<char>, v: V)
    ensures
        alist_set(s, k, v).len() >= s.len(),
        forall|j: int| 0 <= j < alist_set(s, k, v).len() ==> #[trigger] alist_set(s, k, v)[j] == (k, v) || (j < s.len()
            && alist_set(s, k, v)[j] == s[j]),
{
}

proof fn lemma_tally_bounds(lines: Seq<Seq<char>>)
    ensures
        alist_distinct(tally(lines)),
        forall|j: int| 0 <= j < tally(lines).len() ==> (#[trigger] tally(lines)[j]).1.0 <= lines.len() && tally(
            lines,
        )[j].1.1 < lines.len(),
    decreases lines.len(),
{
    if lines.len() > 0 {
        let prev = tally(lines.drop_last());
        lemma_tally_bounds(lines.drop_last());
        let c = trim(lines.last());
        if is_command_line(c) {
            crate::strmap::lemma_alist_get_some(prev, c);
            let f: int = match alist_get(prev, c) {
                Some(v) => v.0 + 1,
                None => 1,
            };
            assert(f <= lines.len());
            let val = (f as usize, (lines.len() - 1) as usize);
            lemma_alist_set_elems(prev, c, val);
            crate::strmap::lemma_alist_set_get(prev, c, val, c);
        }
    }
}

/// Counts the commands of a history file (`~/.bash_history`): for each
/// command, in order of first use, its number of uses and the index of the
/// last line that uses it; and the number of lines.
pub fn tally_history(content: &str) -> (r: (Vec<(String, usize, usize)>, usize))
    ensures
        r.1 == lines_of(content@).len(),
        r.0@.len() == tally(lines_of(content@)).len(),
        forall|k: int| 0 <= k < r.0@.len() ==> {
            let t = #[trigger] tally(lines_of(content@))[k];
            r.0@[k].0@ == t.0 && r.0@[k].1 == t.1.0 && r.0@[k].2 == t.1.1
        },
{
    let cs = chars_of(content);
    let lines = lines_chars(cs.as_slice());
    let ghost ls = lines_of(content@);
    let mut m: StrMap<(usize, usize)> = StrMap::new();
    let mut i: usize = 0;
    while i < lines.len()
        invariant
            i <= lines@.len() == ls.len(),
            ls == lines_of(content@),
            forall|j: int| 0 <= j < lines@.len() ==> lines@[j]@ == #[trigger] ls[j],
            m@ == tally(ls.take(i as int)),
        decreases lines@.len() - i,
    {
        let line = &lines[i];
        let (a, b) = trim_bounds(line.as_slice());
        proof {
            assert(ls.take(i + 1).drop_last() =~= ls.take(i as int));
            assert(ls.take(i + 1).last() == line@);
            lemma_tally_bounds(ls.take(i as int));
        }
        if a < b && line[a] != '#' {
            let cmd = string_from_chars(slice_chars(line, a, b).as_slice());
            let f: usize = match m.get(cmd.as_str()) {
                Some(v) => {
                    proof {
                        crate::strmap::lemma_alist_get_some(m@, cmd@);
                    }
                    v.0 + 1
                },
                None => 1,
            };
            m.insert(cmd, (f, i));
        }
        i = i + 1;
    }
    assert(ls.take(ls.len() as int) =~= ls);
    let mut out: Vec<(String, usize, usize)> = Vec::new();
    let mut k: usize = 0;
    while k < m.len()
        invariant
            k <= m@.len(),
            m@ == tally(ls),
            ls == lines_of(content@),
            out@.len() == k,
            forall|j: int| 0 <= j < k ==> {
                let t = #[trigger] tally(ls)[j];
                out@[j].0@ == t.0 && out@[j].1 == t.1.0 && out@[j].2 == t.1.1
            },
        decreases m@.len() - k,
    {
        let key = m.key_at(k).clone();
        let v = *m.value_at(k);
        out.push((key, v.0, v.1));
        k = k + 1;
    }
    (out, lines.len())
}

/// Score keys of entries, for ranking.
pub open spec fn score_keys(es: Seq<HistoryEntry>) -> Seq<u128> {
    es.map_values(|e: HistoryEntry| e.score as u128)
}

/// The entries by score, highest first (equal scores keep their order),
/// each with its place as `recency_rank`.
pub open spec fn ranked_entries(es: Seq<HistoryEntry>) -> Seq<HistoryEntry> {
    let order = sorted_positions(score_keys(es), score_keys(es));
    Seq::new(
        es.len(),
        |k: int|
            HistoryEntry {
                command: es[order[k]].command,
                frequency: es[order[k]].frequency,
                recency_rank: k as usize,
                score: es[order[k]].score,
            },
    )
}

/// Orders scored entries, best first, and numbers them.
pub fn rank_entries(entries: Vec<HistoryEntry>) -> (r: Vec<HistoryEntry>)
    ensures
        r@ == ranked_entries(entries@),
{
    let mut keys: Vec<u128> = Vec::new();
    let mut i: usize = 0;
    while i < entries.len()
        invariant
            i <= entries@.len(),
            keys@ == score_keys(entries@).take(i as int),
        decreases entries@.len() - i,
    {
        keys.push(entries[i].score as u128);
        i = i + 1;
        assert(keys@ =~= score_keys(entries@).take(i as int));
    }
    assert(keys@ =~= score_keys(entries@));
    let order = order_by_keys(&keys, &keys);
    let mut out: Vec<HistoryEntry> = Vec::new();
    let mut k: usize = 0;
    while k < order.len()
        invariant
            k <= order@.len() == entries@.len(),
            keys@ == score_keys(entries@),
            forall|j: int| 0 <= j < order@.len() ==> order@[j] as int == #[trigger] sorted_positions(keys@, keys@)[j],
            forall|j: int| 0 <= j < order@.len() ==> order@[j] < entries@.len(),
            out@.len() == k,
            forall|j: int| 0 <= j < k ==> out@[j] == #[trigger] ranked_entries(entries@)[j],
        decreases order@.len() - k,
    {
        let e = &entries[order[k]];
        out.push(HistoryEntry { command: e.command.clone(), frequency: e.frequency, recency_rank: k, score: e.score });
        k = k + 1;
    }
    assert(out@ =~= ranked_entries(entries@));
    out
}

// ── Deleting a command ─────────────────────────────────────────────────

/// The entries of commands other than `c`, in order.
pub open spec fn without_command(es: Seq<HistoryEntry>, c: Seq<char>) -> Seq<HistoryEntry> {
    es.filter(|e: HistoryEntry| e.command@ != c)
}

/// Removes every entry of `command`, keeping the others in order.
pub fn delete_command(entries: &mut Vec<HistoryEntry>, command: &str)
    ensures
        final(entries)@ == without_command(old(entries)@, command@),
{
    let ghost p = |e: HistoryEntry| e.command@ != command@;
    let ghost orig = entries@;
    let mut kept: Vec<HistoryEntry> = Vec::new();
    let mut i: usize = 0;
    while i < entries.len()
        invariant
            i <= entries@.len(),
            entries@ == orig,
            p == |e: HistoryEntry| e.command@ != command@,
            kept@ == orig.take(i as int).filter(p),
        decreases entries@.len() - i,
    {
        proof {
            lemma_filter_take_step(orig, p, i as int);
        }
        if !str_eq(entries[i].command.as_str(), command) {
            kept.push(entries[i].duplicate());
        }
        i = i + 1;
    }
    assert(orig.take(orig.len() as int) =~= orig);
    *entries = kept;
}

/// Lines joined with `'\n'` between them.
pub open spec fn join_lines(ls: Seq<Seq<char>>) -> Seq<char>
    decreases ls.len(),
{
    if ls.len() == 0 {
        Seq::empty()
    } else if ls.len() == 1 {
        ls[0]
    } else {
        join_lines(ls.drop_last()) + seq!['\n'] + ls.last()
    }
}

/// The history text without the lines of `command`: the other lines,
/// joined with `'\n'` and ending with one.
pub open spec fn history_without_spec(content: Seq<char>, command: Seq<char>) -> Seq<char> {
    join_lines(lines_of(content).filter(|l: Seq<char>| trim(l) != command)) + seq!['\n']
}

/// The text of a history file once every line of `command` is removed.
pub fn history_without(content: &str, command: &str) -> (r: String)
    ensures
        r@ == history_without_spec(content@, command@),
{
    let cs = chars_of(content);
    let cmd = chars_of(command);
    let lines = lines_chars(cs.as_slice());
    let ghost ls = lines_of(content@);
    let ghost p = |l: Seq<char>| trim(l) != command@;
    let mut out: Vec<char> = Vec::new();
    let mut count: usize = 0;
    let mut i: usize = 0;
    while i < lines.len()
        invariant
            i <= lines@.len() == ls.len(),
            ls == lines_of(content@),
            cmd@ == command@,
            p == |l: Seq<char>| trim(l) != command@,
            forall|j: int| 0 <= j < lines@.len() ==> lines@[j]@ == #[trigger] ls[j],
            count == ls.take(i as int).filter(p).len(),
            out@ == join_lines(ls.take(i as int).filter(p)),
        decreases lines@.len() - i,
    {
        proof {
            lemma_filter_take_step(ls, p, i as int);
        }
        let line = &lines[i];
        let (a, b) = trim_bounds(line.as_slice());
        let t = slice_chars(line, a, b);
        let same = t.len() == cmd.len() && {
            let mut eq = true;
            let mut j: usize = 0;
            assert(t@.take(0) =~= cmd@.take(0));
            while j < t.len()
                invariant
                    j <= t@.len() == cmd@.len(),
                    eq == (t@.take(j as int) == cmd@.take(j as int)),
                decreases t@.len() - j,
            {
                if t[j] != cmd[j] {
                    eq = false;
                }
                j = j + 1;
                proof {
                    if eq {
                        assert(t@.take(j as int) =~= cmd@.take(j as int));
                    } else if t@.take(j as int) == cmd@.take(j as int) {
                        assert(t@.take(j as int)[j - 1] == cmd@.take(j as int)[j - 1]);
                        assert(t@.take((j - 1) as int) =~= cmd@.take((j - 1) as int));
                    }
                }
            }
            assert(t@.take(t@.len() as int) =~= t@);
            assert(cmd@.take(cmd@.len() as int) =~= cmd@);
            eq
        };
        assert(same == (trim(ls[i as int]) == command@));
        if !same {
            let ghost before = out@;
            let ghost kept = ls.take(i as int).filter(p);
            if count > 0 {
                out.push('\n');
            }
            let mut j: usize = 0;
            let ghost mid = out@;
            while j < line.len()
                invariant
                    j <= line@.len(),
                    out@ == mid + line@.take(j as int),
                decreases line@.len() - j,
            {
                out.push(line[j]);
                j = j + 1;
                assert(out@ =~= mid + line@.take(j as int));
            }
            assert(line@.take(line@.len() as int) =~= line@);
            proof {
                let nk = kept.push(ls[i as int]);
                assert(nk.drop_last() =~= kept);
                if count > 0 {
                    assert(out@ =~= join_lines(kept) + seq!['\n'] + ls[i as int]);
                } else {
                    assert(kept.len() == 0);
                    assert(out@ =~= ls[i as int]);
                }
            }
            count = count + 1;
        }
        i = i + 1;
    }
    assert(ls.take(ls.len() as int) =~= ls);
    out.push('\n');
    string_from_chars(out.as_slice())
}

/// Where the shell history lives: `<home>/.bash_history`.
pub fn history_path(home: &str) -> (r: String)
    ensures
        r@ == path_join(home@, ".bash_history"@),
{
    join_path(home, ".bash_history")
}

// ── Laws ───────────────────────────────────────────────────────────────

/// Search ignores case: two nonempty queries with the same lowercase form
/// find the same hits in the same order.
pub proof fn lemma_search_ignores_case(entries: Seq<HistoryEntry>, q1: Seq<char>, q2: Seq<char>)
    ensures
        q1.len() > 0 && q2.len() > 0 && lowercase(q1) == lowercase(q2) ==> search_spec(entries, q1) == search_spec(
            entries,
            q2,
        ),
{
}

/// Lines of the history that hold the command `c`.
pub open spec fn uses(lines: Seq<Seq<char>>, c: Seq<char>) -> nat
    decreases lines.len(),
{
    if lines.len() == 0 {
        0
    } else {
        uses(lines.drop_last(), c) + (if is_command_line(trim(lines.last())) && trim(lines.last()) == c {
            1nat
        } else {
            0nat
        })
    }
}

/// Index of the last line that holds `c` (`-1` if none).
pub open spec fn last_use(lines: Seq<Seq<char>>, c: Seq<char>) -> int
    decreases lines.len(),
{
    if lines.len() == 0 {
        -1
    } else if is_command_line(trim(lines.last())) && trim(lines.last()) == c {
        lines.len() - 1
    } else {
        last_use(lines.drop_last(), c)
    }
}

proof fn lemma_uses_bound(lines: Seq<Seq<char>>, c: Seq<char>)
    ensures
        uses(lines, c) <= lines.len(),
        last_use(lines, c) < lines.len(),
        uses(lines, c) > 0 ==> last_use(lines, c) >= 0,
    decreases lines.len(),
{
    if lines.len() > 0 {
        lemma_uses_bound(lines.drop_last(), c);
    }
}

/// Reading the history counts each command once per line that holds it
/// (trimmed, not a comment), and places it at the last such line.
pub proof fn lemma_tally_counts(lines: Seq<Seq<char>>, c: Seq<char>)
    requires
        lines.len() <= usize::MAX,
    ensures
        alist_get(tally(lines), c) == (if uses(lines, c) > 0 {
            Some((uses(lines, c) as usize, last_use(lines, c) as usize))
        } else {
            None
        }),
    decreases lines.len(),
{
    if lines.len() > 0 {
        let prev = tally(lines.drop_last());
        lemma_tally_counts(lines.drop_last(), c);
        lemma_tally_bounds(lines.drop_last());
        lemma_uses_bound(lines.drop_last(), c);
        let x = trim(lines.last());
        if is_command_line(x) {
            lemma_tally_counts(lines.drop_last(), x);
            lemma_uses_bound(lines.drop_last(), x);
            let f: int = match alist_get(prev, x) {
                Some(v) => v.0 + 1,
                None => 1,
            };
            crate::strmap::lemma_alist_set_get(prev, x, (f as usize, (lines.len() - 1) as usize), c);
        }
    }
}

/// Ranking puts the best scores first and numbers the entries in order.
pub proof fn lemma_ranked_entries_order(es: Seq<HistoryEntry>, a: int, b: int)
    requires
        es.len() <= usize::MAX,
        0 <= a < b < es.len(),
    ensures
        ranked_entries(es)[a].score >= ranked_entries(es)[b].score,
        ranked_entries(es)[a].recency_rank == a,
        ranked_entries(es)[b].recency_rank == b,
{
    let keys = score_keys(es);
    crate::sorting::lemma_sorted_positions_order(keys, keys, a, b);
}

/// Deleting a command leaves no entry of it and keeps every other entry.
pub proof fn lemma_delete_command(es: Seq<HistoryEntry>, c: Seq<char>)
    ensures
        forall|i: int| 0 <= i < without_command(es, c).len() ==> (#[trigger] without_command(es, c)[i]).command@ != c,
        forall|i: int| 0 <= i < es.len() && (#[trigger] es[i]).command@ != c ==> without_command(es, c).contains(es[i]),
{
    broadcast use vstd::seq_lib::group_filter_ensures;
}


/// `find_from` finds the first place from `s` on where `q` occurs.
proof fn lemma_find_from_first(cmd: Seq<char>, q: Seq<char>, s: int, i: int)
    requires
        0 <= s <= i,
        i + q.len() <= cmd.len(),
        cmd.skip(i).take(q.len() as int) == q,
        forall|j: int| s <= j < i ==> #[trigger] cmd.skip(j).take(q.len() as int) != q,
    ensures
        find_from(cmd, q, s) == Some(i),
    decreases i - s,
{
    assert(cmd.skip(i).take(q.len() as int) =~= cmd.subrange(i, i + q.len()));
    if s < i {
        assert(cmd.skip(s).take(q.len() as int) != q);
        assert(cmd.skip(s).take(q.len() as int) =~= cmd.subrange(s, s + q.len()));
        lemma_find_from_first(cmd, q, s + 1, i);
    }
}

/// A substring hit is highlighted where the query first occurs: when the
/// lowercased query occurs in the lowercased command at character `i` and
/// nowhere before, the match positions are the bytes of the characters
/// `i`, `i + 1`, ... of the command, and the quality is at least 100.
pub proof fn lemma_substring_hit_first_occurrence(cl: Seq<char>, ql: Seq<char>, i: int)
    requires
        0 <= i,
        i + ql.len() <= cl.len(),
        cl.skip(i).take(ql.len() as int) == ql,
        forall|j: int| 0 <= j < i ==> #[trigger] cl.skip(j).take(ql.len() as int) != ql,
    ensures
        match_spec(cl, ql) is Some,
        match_spec(cl, ql).unwrap().0.len() == ql.len(),
        forall|t: int| 0 <= t < ql.len() ==> match_spec(cl, ql).unwrap().0[t] == byte_offset(cl, i + t) as int,
        !frac_lt(match_spec(cl, ql).unwrap().1, (100, 1)),
{
    lemma_find_from_first(cl, ql, 0, i);
    let p = Seq::new(ql.len(), |t: int| i + t);
    let (n, d) = quality_spec(cl, p);
    lemma_bonus_bound(cl, p, p.len() as int);
    if p.len() > 0 {
        let first = byte_offset(cl, p[0]) as int;
        let last = byte_offset(cl, p.last()) as int;
        if p.len() > 1 {
            lemma_utf8_len_monotone(cl, p[0], p[p.len() - 1]);
        }
        let span: int = if p.len() > 1 { last - first + 1 } else { 1 };
        let tight: int = if p.len() > 1 { 4 * p.len() as int } else { 0 };
        let g = 10 + first;
        let b = bonus_sum(cl, p, p.len() as int);
        assert(n == b * span * g + tight * g + 30 * span);
        assert(n >= 0) by (nonlinear_arith)
            requires
                n == b * span * g + tight * g + 30 * span,
                b >= 0,
                span >= 1,
                g >= 10,
                tight >= 0,
        ;
    }
}

proof fn lemma_filter_keeps<A>(s: Seq<A>, p: spec_fn(A) -> bool, q: spec_fn(A) -> bool)
    requires
        forall|k: int| 0 <= k < s.len() ==> q(#[trigger] s[k]),
    ensures
        forall|k: int| 0 <= k < s.filter(p).len() ==> q(#[trigger] s.filter(p)[k]),
    decreases s.len(),
{
    reveal(Seq::filter);
    if s.len() > 0 {
        let init = s.drop_last();
        assert forall|k: int| 0 <= k < init.len() implies q(#[trigger] init[k]) by {
            assert(init[k] == s[k]);
        }
        lemma_filter_keeps(init, p, q);
        let f = s.filter(p);
        assert forall|k: int| 0 <= k < f.len() implies q(#[trigger] f[k]) by {
            if k < init.filter(p).len() {
                assert(f[k] == init.filter(p)[k]);
            } else {
                assert(f[k] == s[s.len() - 1]);
            }
        }
    }
}

/// Lines without newlines, joined with newlines, split back into the lines.
proof fn lemma_split_join(ls: Seq<Seq<char>>)
    requires
        ls.len() >= 1,
        forall|k: int| 0 <= k < ls.len() ==> !(#[trigger] ls[k]).contains('\n'),
    ensures
        split_on(join_lines(ls), '\n') == ls,
    decreases ls.len(),
{
    let last = ls[ls.len() - 1];
    assert(!last.contains('\n'));
    assert forall|j: int| 0 <= j < last.len() implies last[j] != '\n' by {
        if last[j] == '\n' {
            assert(last.contains('\n'));
        }
    }
    lemma_split_single(last, '\n');
    if ls.len() == 1 {
        assert(ls =~= seq![last]);
    } else {
        let init = ls.drop_last();
        assert forall|k: int| 0 <= k < init.len() implies !(#[trigger] init[k]).contains('\n') by {
            assert(init[k] == ls[k]);
        }
        lemma_split_join(init);
        lemma_split_concat(join_lines(init), last, '\n');
        assert(init + seq![last] =~= ls);
    }
}

/// Deleting a command rewrites the history as the other lines: split at
/// its newlines, the rewritten text gives back, in order, exactly the lines
/// of the old one whose trimmed text is not the command, then the empty
/// rest after the final newline.
pub proof fn lemma_history_without_lines(content: Seq<char>, command: Seq<char>)
    ensures
        ({
            let kept = lines_of(content).filter(|l: Seq<char>| trim(l) != command);
            split_on(history_without_spec(content, command), '\n') == (if kept.len() == 0 {
                seq![Seq::<char>::empty(), Seq::<char>::empty()]
            } else {
                kept.push(Seq::<char>::empty())
            })
        }),
{
    let p = |l: Seq<char>| trim(l) != command;
    let no_nl = |l: Seq<char>| !l.contains('\n');
    let ls = lines_of(content);
    let kept = ls.filter(p);
    crate::text::lemma_lines_no_newline(content);
    assert forall|k: int| 0 <= k < ls.len() implies no_nl(#[trigger] ls[k]) by {
        if ls[k].contains('\n') {
            let j = choose|j: int| 0 <= j < ls[k].len() && ls[k][j] == '\n';
            assert(ls[k][j] != '\n');
        }
    }
    lemma_filter_keeps(ls, p, no_nl);
    let r = history_without_spec(content, command);
    let e = Seq::<char>::empty();
    assert(r =~= join_lines(kept) + seq!['\n'] + e);
    lemma_split_concat(join_lines(kept), e, '\n');
    assert(split_on(e, '\n') =~= seq![e]);
    if kept.len() == 0 {
        assert(join_lines(kept) =~= e);
    } else {
        assert forall|k: int| 0 <= k < kept.len() implies !(#[trigger] kept[k]).contains('\n') by {
            assert(no_nl(kept[k]));
        }
        lemma_split_join(kept);
    }
}

} // verus!
