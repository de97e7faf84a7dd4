//! The bounded, distance-ordered result buffer shared by all searches.
use vstd::prelude::*;
use vstd::multiset::Multiset;
use crate::dist::DistanceCmp;

verus! {

/// Ascending by distance.
pub open spec fn sorted(s: Seq<(usize, DistanceCmp)>) -> bool {
    forall|i: int, j: int| 0 <= i < j < s.len() ==> s[i].1.value <= s[j].1.value
}

/// The multiset of indices held by a result sequence.
pub open spec fn indices_of(s: Seq<(usize, DistanceCmp)>) -> Multiset<usize> {
    s.map_values(|e: (usize, DistanceCmp)| e.0).to_multiset()
}

/// Some entry of `s` holds index `x`.
pub open spec fn has_index(s: Seq<(usize, DistanceCmp)>, x: int) -> bool {
    exists|t: int| 0 <= t < s.len() && s[t].0 == x
}

pub proof fn lemma_count_has_index(s: Seq<(usize, DistanceCmp)>, x: usize)
    requires
        indices_of(s).count(x) > 0,
    ensures
        has_index(s, x as int),
{
    let m = s.map_values(|e: (usize, DistanceCmp)| e.0);
    m.to_multiset_ensures();
    let t = choose|t: int| 0 <= t < m.len() && m[t] == x;
    assert(s[t].0 == x);
}

/// The first `n` entries of `s`, or all of them where there are fewer.
pub open spec fn bounded(s: Seq<(usize, DistanceCmp)>, n: int) -> Seq<(usize, DistanceCmp)> {
    if s.len() <= n { s } else { s.take(n) }
}

pub proof fn lemma_indices_insert(s: Seq<(usize, DistanceCmp)>, p: int, item: (usize, DistanceCmp))
    requires
        0 <= p <= s.len(),
    ensures
        indices_of(s.insert(p, item)) == indices_of(s).insert(item.0),
{
    let f = |e: (usize, DistanceCmp)| e.0;
    assert(s.insert(p, item).map_values(f) =~= s.map_values(f).insert(p, item.0));
    vstd::seq_lib::to_multiset_insert(s.map_values(f), p, item.0);
}

pub proof fn lemma_indices_take(s: Seq<(usize, DistanceCmp)>, n: int)
    requires
        0 <= n <= s.len(),
    ensures
        indices_of(s.take(n)).subset_of(indices_of(s)),
        indices_of(bounded(s, n)).subset_of(indices_of(s)),
    decreases s.len() - n,
{
    if n < s.len() {
        lemma_indices_take(s, n + 1);
        let f = |e: (usize, DistanceCmp)| e.0;
        assert(s.take(n + 1) =~= s.take(n).push(s[n]));
        assert(s.take(n + 1).map_values(f) =~= s.take(n).map_values(f).push(s[n].0));
        vstd::seq_lib::to_multiset_build(s.take(n).map_values(f), s[n].0);
    } else {
        assert(s.take(n) =~= s);
    }
}

pub proof fn lemma_indices_bounded(s: Seq<(usize, DistanceCmp)>, n: int)
    requires
        0 <= n,
    ensures
        indices_of(bounded(s, n)).subset_of(indices_of(s)),
{
    if n <= s.len() {
        lemma_indices_take(s, n);
    }
}

/// Inserts `item` after all entries of no greater distance and keeps the
/// first `count` entries.
pub fn insert_bounded(res: &mut Vec<(usize, DistanceCmp)>, item: (usize, DistanceCmp), count: usize) -> (p: usize)
    requires
        sorted(old(res)@),
        old(res)@.len() <= count,
    ensures
        p <= old(res)@.len(),
        final(res)@ == bounded(old(res)@.insert(p as int, item), count as int),
        sorted(final(res)@),
        forall|i: int| 0 <= i < p ==> old(res)@[i].1.value <= item.1.value,
        forall|i: int| p <= i < old(res)@.len() ==> item.1.value < old(res)@[i].1.value,
        sorted(old(res)@.insert(p as int, item)),
{
    let mut p: usize = 0;
    while p < res.len() && res[p].1.value <= item.1.value
        invariant
            p <= res@.len(),
            forall|i: int| 0 <= i < p ==> res@[i].1.value <= item.1.value,
        decreases res@.len() - p,
    {
        p = p + 1;
    }
    let ghost s0 = res@;
    res.insert(p, item);
    let ghost s1 = res@;
    assert(sorted(s1)) by {
        assert forall|i: int, j: int| 0 <= i < j < s1.len() implies s1[i].1.value <= s1[j].1.value by {
            if j < p {
            } else if j == p {
            } else if i < p {
            } else if i == p {
            } else {
            }
        }
    }
    assert(s1 =~= s0.insert(p as int, item));
    res.truncate(count);
    assert(res@ =~= bounded(s1, count as int));
    p
}

} // verus!
