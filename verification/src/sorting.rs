//! Stable ordering of items by numeric keys, largest first.
//!
//! Each item is tagged `(primary, secondary, position)`; ordering the tags
//! by primary and secondary key descending, then position ascending, is a
//! total order, so the sorted tags are unique and the sort is stable.

use vstd::prelude::*;
use vstd::relations::{sorted_by, total_ordering};
use vstd::seq_lib::lemma_sorted_unique;

verus! {

broadcast use vstd::seq_lib::group_to_multiset_ensures;

/// `(primary key, secondary key, position in the input)`.
pub type SortTag = (u128, u128, usize);

/// Larger keys first; equal keys keep their input order.
pub open spec fn tag_leq(a: SortTag, b: SortTag) -> bool {
    a.0 > b.0 || (a.0 == b.0 && (a.1 > b.1 || (a.1 == b.1 && a.2 <= b.2)))
}

pub open spec fn tag_order() -> spec_fn(SortTag, SortTag) -> bool {
    |a: SortTag, b: SortTag| tag_leq(a, b)
}

pub proof fn lemma_tag_order_total()
    ensures
        total_ordering(tag_order()),
{
    let r = tag_order();
    assert(vstd::relations::reflexive(r));
    assert(vstd::relations::antisymmetric(r)) by {
        assert forall|a: SortTag, b: SortTag| #[trigger] r(a, b) && #[trigger] r(b, a) implies a == b by {
            assert(a.0 == b.0 && a.1 == b.1 && a.2 == b.2);
        }
    }
    assert(vstd::relations::transitive(r));
    assert(vstd::relations::strongly_connected(r));
}

fn tag_le(a: SortTag, b: SortTag) -> (r: bool)
    ensures
        r == tag_leq(a, b),
{
    a.0 > b.0 || (a.0 == b.0 && (a.1 > b.1 || (a.1 == b.1 && a.2 <= b.2)))
}

/// The tags in order (insertion sort).
pub fn sort_tags(v: &Vec<SortTag>) -> (r: Vec<SortTag>)
    ensures
        r@ == v@.sort_by(tag_order()),
{
    let mut out: Vec<SortTag> = Vec::new();
    let mut i: usize = 0;
    proof {
        lemma_tag_order_total();
    }
    while i < v.len()
        invariant
            i <= v@.len(),
            total_ordering(tag_order()),
            sorted_by(out@, tag_order()),
            out@.to_multiset() == v@.take(i as int).to_multiset(),
        decreases v@.len() - i,
    {
        let x = v[i];
        let mut j: usize = 0;
        while j < out.len() && !tag_le(x, out[j])
            invariant
                j <= out@.len(),
                forall|k: int| 0 <= k < j ==> !tag_leq(x, #[trigger] out@[k]),
            decreases out@.len() - j,
        {
            j = j + 1;
        }
        let ghost before = out@;
        out.insert(j, x);
        proof {
            assert(v@.take(i + 1) =~= v@.take(i as int).push(x));
            vstd::seq_lib::to_multiset_insert(before, j as int, x);
            assert(out@ =~= before.insert(j as int, x));
            assert forall|a: int, b: int| 0 <= a < b < out@.len() implies #[trigger] tag_order()(out@[a], out@[b]) by {
                if b < j {
                    assert(out@[a] == before[a] && out@[b] == before[b]);
                    assert(tag_order()(before[a], before[b]));
                } else if b == j {
                    assert(out@[a] == before[a]);
                    assert(!tag_leq(x, before[a]));
                } else if a == j {
                    assert(out@[b] == before[b - 1]);
                    if j < before.len() {
                        assert(tag_leq(x, before[j as int]));
                        if b - 1 > j {
                            assert(tag_order()(before[j as int], before[b - 1]));
                        }
                    }
                } else if a < j {
                    assert(out@[a] == before[a] && out@[b] == before[b - 1]);
                    assert(tag_order()(before[a], before[b - 1]));
                } else {
                    assert(out@[a] == before[a - 1] && out@[b] == before[b - 1]);
                    assert(tag_order()(before[a - 1], before[b - 1]));
                }
            }
        }
        i = i + 1;
    }
    proof {
        assert(v@.take(v@.len() as int) =~= v@);
        v@.lemma_sort_by_ensures(tag_order());
        lemma_sorted_unique(out@, v@.sort_by(tag_order()), tag_order());
    }
    out
}

/// Tags `(primary[i], secondary[i], i)` for each position.
pub open spec fn tags_of(primary: Seq<u128>, secondary: Seq<u128>) -> Seq<SortTag> {
    Seq::new(primary.len(), |i: int| (primary[i], secondary[i], i as usize))
}

/// Positions `0..n` in the order of their keys: larger first, ties by position.
pub open spec fn sorted_positions(primary: Seq<u128>, secondary: Seq<u128>) -> Seq<int> {
    tags_of(primary, secondary).sort_by(tag_order()).map_values(|t: SortTag| t.2 as int)
}

/// The positions of `primary`/`secondary` (same length) in key order.
pub fn order_by_keys(primary: &Vec<u128>, secondary: &Vec<u128>) -> (r: Vec<usize>)
    requires
        primary@.len() == secondary@.len(),
    ensures
        r@.len() == primary@.len(),
        forall|k: int| 0 <= k < r@.len() ==> r@[k] as int == #[trigger] sorted_positions(primary@, secondary@)[k],
        forall|k: int| 0 <= k < r@.len() ==> r@[k] < primary@.len(),
{
    let mut tags: Vec<SortTag> = Vec::new();
    let mut i: usize = 0;
    while i < primary.len()
        invariant
            i <= primary@.len() == secondary@.len(),
            tags@ == tags_of(primary@, secondary@).take(i as int),
        decreases primary@.len() - i,
    {
        tags.push((primary[i], secondary[i], i));
        i = i + 1;
        assert(tags@ =~= tags_of(primary@, secondary@).take(i as int));
    }
    assert(tags@ =~= tags_of(primary@, secondary@));
    let sorted = sort_tags(&tags);
    proof {
        lemma_tag_order_total();
        tags@.lemma_sort_by_ensures(tag_order());
        assert(sorted@.to_multiset() == tags@.to_multiset());
        assert(sorted@.len() == tags@.len()) by {
            vstd::seq_lib::to_multiset_len(sorted@);
            vstd::seq_lib::to_multiset_len(tags@);
        }
    }
    let mut r: Vec<usize> = Vec::new();
    let mut k: usize = 0;
    while k < sorted.len()
        invariant
            k <= sorted@.len() == primary@.len(),
            sorted@ == tags_of(primary@, secondary@).sort_by(tag_order()),
            sorted@.to_multiset() == tags_of(primary@, secondary@).to_multiset(),
            r@.len() == k,
            forall|j: int| 0 <= j < k ==> r@[j] as int == #[trigger] sorted_positions(primary@, secondary@)[j],
            forall|j: int| 0 <= j < k ==> r@[j] < primary@.len(),
        decreases sorted@.len() - k,
    {
        let t = sorted[k];
        proof {
            vstd::seq_lib::to_multiset_contains(sorted@, t);
            assert(sorted@.contains(t));
            assert(tags_of(primary@, secondary@).to_multiset().count(t) > 0);
            vstd::seq_lib::to_multiset_contains(tags_of(primary@, secondary@), t);
            let q = choose|q: int| 0 <= q < primary@.len() && #[trigger] tags_of(primary@, secondary@)[q] == t;
            assert(t.2 < primary@.len());
        }
        r.push(t.2);
        k = k + 1;
    }
    r
}

/// There are as many sorted positions as keys.
pub proof fn lemma_sorted_positions_len(primary: Seq<u128>, secondary: Seq<u128>)
    ensures
        sorted_positions(primary, secondary).len() == primary.len(),
{
    lemma_tag_order_total();
    let t = tags_of(primary, secondary);
    t.lemma_sort_by_ensures(tag_order());
    vstd::seq_lib::to_multiset_len(t.sort_by(tag_order()));
    vstd::seq_lib::to_multiset_len(t);
}

/// Each sorted tag is the tag of the position it names.
proof fn lemma_sorted_tag(primary: Seq<u128>, secondary: Seq<u128>, k: int)
    requires
        primary.len() == secondary.len(),
        primary.len() <= usize::MAX,
        0 <= k < tags_of(primary, secondary).sort_by(tag_order()).len(),
    ensures
        ({
            let t = tags_of(primary, secondary).sort_by(tag_order())[k];
            &&& 0 <= t.2 < primary.len()
            &&& t == (primary[t.2 as int], secondary[t.2 as int], t.2)
        }),
{
    lemma_tag_order_total();
    let tags = tags_of(primary, secondary);
    let sorted = tags.sort_by(tag_order());
    tags.lemma_sort_by_ensures(tag_order());
    let t = sorted[k];
    assert(sorted.contains(t));
    vstd::seq_lib::to_multiset_contains(sorted, t);
    vstd::seq_lib::to_multiset_contains(tags, t);
    let q = choose|q: int| 0 <= q < tags.len() && #[trigger] tags[q] == t;
    assert(tags[q] == (primary[q], secondary[q], q as usize));
}

/// In key order, an earlier position never has a smaller primary key, and
/// with an equal primary key never a smaller secondary key.
pub proof fn lemma_sorted_positions_order(primary: Seq<u128>, secondary: Seq<u128>, a: int, b: int)
    requires
        primary.len() == secondary.len(),
        primary.len() <= usize::MAX,
        0 <= a < b < primary.len(),
    ensures
        0 <= sorted_positions(primary, secondary)[a] < primary.len(),
        0 <= sorted_positions(primary, secondary)[b] < primary.len(),
        primary[sorted_positions(primary, secondary)[a]] >= primary[sorted_positions(primary, secondary)[b]],
        primary[sorted_positions(primary, secondary)[a]] == primary[sorted_positions(primary, secondary)[b]]
            ==> secondary[sorted_positions(primary, secondary)[a]] >= secondary[sorted_positions(primary, secondary)[b]],
        primary[sorted_positions(primary, secondary)[a]] == primary[sorted_positions(primary, secondary)[b]]
            && secondary[sorted_positions(primary, secondary)[a]] == secondary[sorted_positions(primary, secondary)[b]]
            ==> sorted_positions(primary, secondary)[a] < sorted_positions(primary, secondary)[b],
{
    lemma_tag_order_total();
    lemma_sorted_positions_len(primary, secondary);
    let tags = tags_of(primary, secondary);
    let sorted = tags.sort_by(tag_order());
    tags.lemma_sort_by_ensures(tag_order());
    vstd::seq_lib::to_multiset_len(sorted);
    vstd::seq_lib::to_multiset_len(tags);
    lemma_sorted_tag(primary, secondary, a);
    lemma_sorted_tag(primary, secondary, b);
    assert(tag_order()(sorted[a], sorted[b]));
    // The tags are distinct, so the sorted tags are too.
    assert(tags.no_duplicates()) by {
        assert forall|i: int, j: int| 0 <= i < tags.len() && 0 <= j < tags.len() && i != j implies tags[i] != tags[j] by {
            assert(tags[i].2 == i as usize && tags[j].2 == j as usize);
        }
    }
    tags.lemma_multiset_has_no_duplicates();
    sorted.lemma_multiset_has_no_duplicates_conv();
    assert(sorted[a] != sorted[b]);
}

} // verus!
