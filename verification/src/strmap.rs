//! A small map from strings to values, kept as an association list with
//! distinct keys. Its model is the sequence of (key, value) pairs.

use vstd::prelude::*;
use crate::text::str_eq;

verus! {

/// The value stored under `k` in an association list, if any.
pub open spec fn alist_get<V>(s: Seq<(Seq<char>, V)>, k: Seq<char>) -> Option<V>
    decreases s.len(),
{
    if s.len() == 0 {
        None
    } else if s.last().0 == k {
        Some(s.last().1)
    } else {
        alist_get(s.drop_last(), k)
    }
}

/// No key occurs twice.
pub open spec fn alist_distinct<V>(s: Seq<(Seq<char>, V)>) -> bool {
    forall|i: int, j: int| 0 <= i < j < s.len() ==> s[i].0 != s[j].0
}

/// The list after storing `v` under `k`: in place where `k` occurs, else at the end.
pub open spec fn alist_set<V>(s: Seq<(Seq<char>, V)>, k: Seq<char>, v: V) -> Seq<(Seq<char>, V)> {
    if exists|i: int| 0 <= i < s.len() && s[i].0 == k {
        let i = choose|i: int| 0 <= i < s.len() && s[i].0 == k;
        s.update(i, (k, v))
    } else {
        s.push((k, v))
    }
}

pub struct StrMap<V> {
    entries: Vec<(String, V)>,
}

impl<V> View for StrMap<V> {
    type V = Seq<(Seq<char>, V)>;

    closed spec fn view(&self) -> Seq<(Seq<char>, V)> {
        Seq::new(self.entries@.len(), |i: int| (self.entries@[i].0@, self.entries@[i].1))
    }
}

impl<V> StrMap<V> {
    #[verifier::type_invariant]
    pub open spec fn inv(&self) -> bool {
        alist_distinct(self@)
    }

    pub fn new() -> (m: Self)
        ensures
            m@ == Seq::<(Seq<char>, V)>::empty(),
    {
        let m = StrMap { entries: Vec::new() };
        assert(m@ =~= Seq::<(Seq<char>, V)>::empty());
        m
    }

    pub fn len(&self) -> (n: usize)
        ensures
            n == self@.len(),
    {
        self.entries.len()
    }

    pub fn is_empty(&self) -> (b: bool)
        ensures
            b == (self@.len() == 0),
    {
        self.entries.len() == 0
    }

    pub fn key_at(&self, i: usize) -> (k: &String)
        requires
            i < self@.len(),
        ensures
            k@ == self@[i as int].0,
    {
        &self.entries[i].0
    }

    pub fn value_at(&self, i: usize) -> (v: &V)
        requires
            i < self@.len(),
        ensures
            *v == self@[i as int].1,
    {
        &self.entries[i].1
    }

    /// Position of `k`, if present.
    pub fn find(&self, k: &str) -> (r: Option<usize>)
        ensures
            match r {
                Some(i) => i < self@.len() && self@[i as int].0 == k@,
                None => forall|j: int| 0 <= j < self@.len() ==> self@[j].0 != k@,
            },
    {
        let mut i: usize = 0;
        while i < self.entries.len()
            invariant
                i <= self.entries@.len(),
                forall|j: int| 0 <= j < i ==> self@[j].0 != k@,
            decreases self.entries@.len() - i,
        {
            if str_eq(self.entries[i].0.as_str(), k) {
                return Some(i);
            }
            i = i + 1;
        }
        None
    }

    pub fn contains_key(&self, k: &str) -> (b: bool)
        ensures
            b == alist_get(self@, k@) is Some,
    {
        proof {
            use_type_invariant(self);
        }
        match self.find(k) {
            Some(i) => {
                proof {
                    lemma_alist_get_at(self@, i as int);
                }
                true
            },
            None => {
                proof {
                    lemma_alist_get_absent(self@, k@);
                }
                false
            },
        }
    }

    /// The value under `k`, if any.
    pub fn get(&self, k: &str) -> (r: Option<&V>)
        ensures
            match r {
                Some(v) => alist_get(self@, k@) == Some(*v),
                None => alist_get(self@, k@) is None,
            },
    {
        proof {
            use_type_invariant(self);
        }
        match self.find(k) {
            Some(i) => {
                proof {
                    lemma_alist_get_at(self@, i as int);
                }
                Some(&self.entries[i].1)
            },
            None => {
                proof {
                    lemma_alist_get_absent(self@, k@);
                }
                None
            },
        }
    }

    /// Stores `v` under `k`: in place where `k` is already a key, else at the end.
    pub fn insert(&mut self, k: String, v: V)
        ensures
            final(self)@ == alist_set(old(self)@, k@, v),
            alist_get(final(self)@, k@) == Some(v),
    {
        proof {
            use_type_invariant(&*self);
        }
        let ghost s = self@;
        match self.find(k.as_str()) {
            Some(i) => {
                let ghost kk = k@;
                let mut entries: Vec<(String, V)> = Vec::new();
                std::mem::swap(&mut entries, &mut self.entries);
                entries.set(i, (k, v));
                proof {
                    assert(exists|j: int| 0 <= j < s.len() && s[j].0 == kk);
                    let c = choose|j: int| 0 <= j < s.len() && s[j].0 == kk;
                    assert(c == i);
                    let t = Seq::new(entries@.len(), |j: int| (entries@[j].0@, entries@[j].1));
                    assert(t =~= s.update(i as int, (kk, v)));
                    assert(alist_distinct(t));
                    lemma_alist_get_at(t, i as int);
                }
                self.entries = entries;
            },
            None => {
                let ghost kk = k@;
                let mut entries: Vec<(String, V)> = Vec::new();
                std::mem::swap(&mut entries, &mut self.entries);
                entries.push((k, v));
                proof {
                    let t = Seq::new(entries@.len(), |j: int| (entries@[j].0@, entries@[j].1));
                    assert(t =~= s.push((kk, v)));
                    assert(alist_distinct(t));
                    lemma_alist_get_at(t, s.len() as int);
                }
                self.entries = entries;
            },
        }
    }

    /// Replaces the value at position `i`, returning the one it held.
    pub fn replace_value_at(&mut self, i: usize, v: V) -> (r: V)
        requires
            i < old(self)@.len(),
        ensures
            r == old(self)@[i as int].1,
            final(self)@ == old(self)@.update(i as int, (old(self)@[i as int].0, v)),
    {
        proof {
            use_type_invariant(&*self);
        }
        let ghost s = self@;
        let mut entries: Vec<(String, V)> = Vec::new();
        std::mem::swap(&mut entries, &mut self.entries);
        let (k, old_v) = entries.remove(i);
        entries.insert(i, (k, v));
        proof {
            let t = Seq::new(entries@.len(), |j: int| (entries@[j].0@, entries@[j].1));
            assert(t =~= s.update(i as int, (s[i as int].0, v)));
            assert(alist_distinct(t));
        }
        self.entries = entries;
        old_v
    }

    /// Keeps exactly the pairs whose position is marked in `keep`, in order.
    pub fn retain_marked(&mut self, keep: &Vec<bool>)
        requires
            keep@.len() == old(self)@.len(),
        ensures
            final(self)@ == filter_marked(old(self)@, keep@),
    {
        proof {
            use_type_invariant(&*self);
        }
        let ghost s = self@;
        let mut rest: Vec<(String, V)> = Vec::new();
        std::mem::swap(&mut rest, &mut self.entries);
        let ghost orig = rest@;
        let mut kept: Vec<(String, V)> = Vec::new();
        let mut i: usize = 0;
        let n = rest.len();
        while i < n
            invariant
                n == orig.len() == keep@.len() == s.len(),
                i <= n,
                s == Seq::new(orig.len(), |j: int| (orig[j].0@, orig[j].1)),
                rest@ == orig.skip(i as int),
                Seq::new(kept@.len(), |j: int| (kept@[j].0@, kept@[j].1)) == filter_marked(
                    s.take(i as int),
                    keep@.take(i as int),
                ),
            decreases n - i,
        {
            let e = rest.remove(0);
            proof {
                assert(s.take(i + 1).drop_last() =~= s.take(i as int));
                assert(keep@.take(i + 1).drop_last() =~= keep@.take(i as int));
                assert(rest@ =~= orig.skip(i + 1));
            }
            let ghost before = kept@;
            if keep[i] {
                kept.push(e);
                assert(Seq::new(kept@.len(), |j: int| (kept@[j].0@, kept@[j].1)) =~= Seq::new(
                    before.len(),
                    |j: int| (before[j].0@, before[j].1),
                ).push(s[i as int]));
            }
            i = i + 1;
        }
        proof {
            assert(s.take(n as int) =~= s);
            assert(keep@.take(n as int) =~= keep@);
            lemma_filter_marked_distinct(s, keep@);
        }
        self.entries = kept;
    }
}

/// The pairs of `s` whose positions are marked `true` in `marks`, in order.
pub open spec fn filter_marked<V>(s: Seq<(Seq<char>, V)>, marks: Seq<bool>) -> Seq<(Seq<char>, V)>
    decreases s.len(),
{
    if s.len() == 0 || marks.len() == 0 {
        Seq::empty()
    } else {
        let r = filter_marked(s.drop_last(), marks.drop_last());
        if marks.last() {
            r.push(s.last())
        } else {
            r
        }
    }
}

/// Each kept pair comes from the list.
pub proof fn lemma_filter_marked_from<V>(s: Seq<(Seq<char>, V)>, marks: Seq<bool>, j: int)
    requires
        marks.len() == s.len(),
        0 <= j < filter_marked(s, marks).len(),
    ensures
        exists|i: int| 0 <= i < s.len() && #[trigger] s[i] == filter_marked(s, marks)[j],
    decreases s.len(),
{
    let r = filter_marked(s.drop_last(), marks.drop_last());
    if j < r.len() {
        lemma_filter_marked_from(s.drop_last(), marks.drop_last(), j);
        let i = choose|i: int| 0 <= i < s.drop_last().len() && #[trigger] s.drop_last()[i] == r[j];
        assert(s[i] == s.drop_last()[i]);
    } else {
        assert(s[s.len() - 1] == filter_marked(s, marks)[j]);
    }
}

/// Filtering keeps keys distinct.
pub proof fn lemma_filter_marked_distinct<V>(s: Seq<(Seq<char>, V)>, marks: Seq<bool>)
    requires
        alist_distinct(s),
        marks.len() == s.len(),
    ensures
        alist_distinct(filter_marked(s, marks)),
    decreases s.len(),
{
    if s.len() > 0 {
        let t = s.drop_last();
        assert(alist_distinct(t)) by {
            assert forall|i: int, j: int| 0 <= i < j < t.len() implies t[i].0 != t[j].0 by {
                assert(t[i] == s[i] && t[j] == s[j]);
            }
        }
        lemma_filter_marked_distinct(t, marks.drop_last());
        let r = filter_marked(t, marks.drop_last());
        if marks.last() {
            assert forall|j: int| 0 <= j < r.len() implies r[j].0 != s.last().0 by {
                lemma_filter_marked_from(t, marks.drop_last(), j);
                let i = choose|i: int| 0 <= i < t.len() && #[trigger] t[i] == r[j];
                assert(t[i] == s[i]);
            }
        }
    }
}

/// `alist_get` finds the pair at a position holding the key.
pub proof fn lemma_alist_get_at<V>(s: Seq<(Seq<char>, V)>, i: int)
    requires
        alist_distinct(s),
        0 <= i < s.len(),
    ensures
        alist_get(s, s[i].0) == Some(s[i].1),
    decreases s.len(),
{
    if i < s.len() - 1 {
        assert(s.last().0 != s[i].0);
        assert(s.drop_last()[i] == s[i]);
        lemma_alist_get_at(s.drop_last(), i);
    }
}

/// `alist_get` of a missing key is `None`.
pub proof fn lemma_alist_get_absent<V>(s: Seq<(Seq<char>, V)>, k: Seq<char>)
    requires
        forall|j: int| 0 <= j < s.len() ==> s[j].0 != k,
    ensures
        alist_get(s, k) is None,
    decreases s.len(),
{
    if s.len() > 0 {
        assert forall|j: int| 0 <= j < s.drop_last().len() implies s.drop_last()[j].0 != k by {
            assert(s.drop_last()[j] == s[j]);
        }
        lemma_alist_get_absent(s.drop_last(), k);
    }
}


/// Looking up after storing: the stored value under that key, others unchanged.
pub proof fn lemma_alist_set_get<V>(s: Seq<(Seq<char>, V)>, k: Seq<char>, v: V, q: Seq<char>)
    requires
        alist_distinct(s),
    ensures
        alist_distinct(alist_set(s, k, v)),
        alist_get(alist_set(s, k, v), q) == (if q == k { Some(v) } else { alist_get(s, q) }),
{
    let t = alist_set(s, k, v);
    if exists|i: int| 0 <= i < s.len() && s[i].0 == k {
        let i = choose|i: int| 0 <= i < s.len() && s[i].0 == k;
        assert(t == s.update(i, (k, v)));
        assert(alist_distinct(t)) by {
            assert forall|a: int, b: int| 0 <= a < b < t.len() implies t[a].0 != t[b].0 by {
                assert(t[a].0 == s[a].0 && t[b].0 == s[b].0);
            }
        }
        if q == k {
            lemma_alist_get_at(t, i);
        } else {
            lemma_alist_get_update_other(s, i, (k, v), q);
        }
    } else {
        assert(t == s.push((k, v)));
        assert(alist_distinct(t)) by {
            assert forall|a: int, b: int| 0 <= a < b < t.len() implies t[a].0 != t[b].0 by {
                if b == s.len() {
                    assert(t[a] == s[a]);
                } else {
                    assert(t[a] == s[a] && t[b] == s[b]);
                }
            }
        }
        if q == k {
            lemma_alist_get_at(t, s.len() as int);
        } else {
            assert(t.drop_last() =~= s);
        }
    }
}

proof fn lemma_alist_get_update_other<V>(s: Seq<(Seq<char>, V)>, i: int, p: (Seq<char>, V), q: Seq<char>)
    requires
        0 <= i < s.len(),
        s[i].0 == p.0,
        p.0 != q,
    ensures
        alist_get(s.update(i, p), q) == alist_get(s, q),
    decreases s.len(),
{
    let t = s.update(i, p);
    if i == s.len() - 1 {
        assert(t.drop_last() =~= s.drop_last());
    } else {
        assert(t.drop_last() =~= s.drop_last().update(i, p));
        assert(t.last() == s.last());
        lemma_alist_get_update_other(s.drop_last(), i, p, q);
    }
}

/// A key is found exactly when some pair holds it.
pub proof fn lemma_alist_get_some<V>(s: Seq<(Seq<char>, V)>, k: Seq<char>)
    ensures
        alist_get(s, k) is Some <==> exists|i: int| 0 <= i < s.len() && s[i].0 == k,
        alist_get(s, k) is Some ==> exists|i: int| 0 <= i < s.len() && s[i].0 == k && s[i].1 == alist_get(s, k).unwrap(),
    decreases s.len(),
{
    if s.len() > 0 {
        lemma_alist_get_some(s.drop_last(), k);
        if s.last().0 != k {
            if exists|i: int| 0 <= i < s.len() && s[i].0 == k {
                let i = choose|i: int| 0 <= i < s.len() && s[i].0 == k;
                assert(s.drop_last()[i] == s[i]);
            }
            if alist_get(s, k) is Some {
                let i = choose|i: int| 0 <= i < s.drop_last().len() && s.drop_last()[i].0 == k && s.drop_last()[i].1 == alist_get(s, k).unwrap();
                assert(s.drop_last()[i] == s[i]);
            }
        }
    }
}


/// Looking up after appending a pair: the new pair wins for its key.
pub proof fn lemma_alist_get_push<V>(s: Seq<(Seq<char>, V)>, k: Seq<char>, v: V, q: Seq<char>)
    ensures
        alist_get(s.push((k, v)), q) == (if q == k { Some(v) } else { alist_get(s, q) }),
{
    assert(s.push((k, v)).drop_last() =~= s);
}

/// Looking up in a list of owned strings, by their characters.
pub open spec fn string_pairs(s: Seq<(Seq<char>, String)>) -> Seq<(Seq<char>, Seq<char>)> {
    s.map_values(|p: (Seq<char>, String)| (p.0, p.1@))
}

pub proof fn lemma_string_pairs_get(s: Seq<(Seq<char>, String)>, k: Seq<char>)
    ensures
        alist_get(string_pairs(s), k) == (match alist_get(s, k) {
            Some(v) => Some(v@),
            None => None,
        }),
    decreases s.len(),
{
    if s.len() > 0 {
        assert(string_pairs(s).drop_last() =~= string_pairs(s.drop_last()));
        lemma_string_pairs_get(s.drop_last(), k);
    }
}

} // verus!
