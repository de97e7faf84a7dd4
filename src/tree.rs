//! The metric tree: nodes, their invariants, and the recursive k-medoid build.
use vstd::prelude::*;
use vstd::multiset::Multiset;
use crate::base::{Cache, Distance, Info};
use crate::dist::{sat_add, DistanceCmp};
use crate::provider::VecProvider;

verus! {

broadcast use vstd::seq_lib::group_to_multiset_ensures;

/// A child record: a subtree and the distance from the parent's centroid to
/// the subtree's centroid.
pub struct Child {
    pub node: Node,
    pub center_dist: DistanceCmp,
}

/// A ball around the corpus point `centroid_index` that holds its subtree.
pub struct Node {
    pub centroid_index: usize,
    pub radius: DistanceCmp,
    pub children: Vec<Child>,
}

impl Node {
    /// Corpus indices of the subtree, with multiplicity.
    pub open spec fn indices(self) -> Multiset<usize>
        decreases self,
    {
        Multiset::singleton(self.centroid_index).add(children_indices(self.children@))
    }
}

pub open spec fn children_indices(cs: Seq<Child>) -> Multiset<usize>
    decreases cs,
{
    if cs.len() == 0 {
        Multiset::empty()
    } else {
        children_indices(cs.drop_last()).add(cs.last().node.indices())
    }
}

/// Largest bound `center_dist + radius` over the children; zero for none.
pub open spec fn max_reach(cs: Seq<Child>) -> u64
    decreases cs.len(),
{
    if cs.len() == 0 {
        0
    } else {
        let r = sat_add(cs.last().center_dist.value, cs.last().node.radius.value);
        let m = max_reach(cs.drop_last());
        if r > m { r } else { m }
    }
}

/// Children ordered by non-increasing distance from the parent centroid.
pub open spec fn children_ordered(cs: Seq<Child>) -> bool {
    forall|i: int, j: int| 0 <= i < j < cs.len() ==> cs[j].center_dist.value <= cs[i].center_dist.value
}

/// The invariants a built node keeps: centroids inside the provider's range,
/// exact child-centre distances, radius as the largest child reach, children
/// ordered, all recursively.
pub open spec fn node_wf<T, D: Distance<T> + Copy>(n: Node, p: VecProvider<'_, T, D>) -> bool
    decreases n,
{
    &&& p.in_range(n.centroid_index as int)
    &&& n.radius.value == max_reach(n.children@)
    &&& children_ordered(n.children@)
    &&& forall|i: int| 0 <= i < n.children@.len() ==> {
        &&& (#[trigger] n.children@[i]).center_dist.value
            == p.pair_dist(n.centroid_index as int, n.children@[i].node.centroid_index as int)
        &&& node_wf(n.children@[i].node, p)
    }
}

pub proof fn lemma_children_indices_insert(cs: Seq<Child>, p: int, c: Child)
    requires
        0 <= p <= cs.len(),
    ensures
        children_indices(cs.insert(p, c)) == children_indices(cs).add(c.node.indices()),
    decreases cs.len(),
{
    if p == cs.len() {
        assert(cs.insert(p, c).drop_last() =~= cs);
    } else {
        lemma_children_indices_insert(cs.drop_last(), p, c);
        assert(cs.insert(p, c).drop_last() =~= cs.drop_last().insert(p, c));
        assert(cs.insert(p, c).last() == cs.last());
        assert(children_indices(cs.insert(p, c)) =~= children_indices(cs).add(c.node.indices()));
    }
}

/// Saturating sum of the pair distances from `i` to the first `n` entries of
/// `ixs`, skipping entries equal to `i`.
pub open spec fn partial_total<T, D: Distance<T> + Copy>(
    p: VecProvider<'_, T, D>,
    ixs: Seq<usize>,
    i: usize,
    n: int,
) -> u64
    decreases n,
{
    if n <= 0 {
        0
    } else {
        let s = partial_total(p, ixs, i, n - 1);
        if ixs[n - 1] == i { s } else { sat_add(s, p.pair_dist(i as int, ixs[n - 1] as int)) }
    }
}

/// Total distance from `i` to the other members of `ixs`.
pub open spec fn total_dist<T, D: Distance<T> + Copy>(p: VecProvider<'_, T, D>, ixs: Seq<usize>, i: usize) -> u64 {
    partial_total(p, ixs, i, ixs.len() as int)
}

/// `c` is the first member of `ixs` whose total distance to the others is least.
pub open spec fn is_medoid<T, D: Distance<T> + Copy>(p: VecProvider<'_, T, D>, ixs: Seq<usize>, c: usize) -> bool {
    exists|pos: int| #![trigger ixs[pos]] 0 <= pos < ixs.len() && ixs[pos] == c
        && (forall|u: int| 0 <= u < ixs.len() ==> total_dist(p, ixs, ixs[u]) >= total_dist(p, ixs, c))
        && (forall|u: int| 0 <= u < pos ==> total_dist(p, ixs, ixs[u]) > total_dist(p, ixs, c))
}

pub open spec fn all_in_range<T, D: Distance<T> + Copy>(p: VecProvider<'_, T, D>, ixs: Seq<usize>) -> bool {
    forall|i: int| 0 <= i < ixs.len() ==> p.in_range(#[trigger] ixs[i] as int)
}

/// The 1-medoid of a non-empty index set: the member with the least total
/// distance to the others, the first one on ties. A candidate is abandoned
/// as soon as its running sum exceeds the best total so far.
pub fn centroid<T, D: Distance<T> + Copy, C: Cache, I: Info>(
    provider: &VecProvider<'_, T, D>,
    all_ixs: &Vec<usize>,
    cache: &mut C,
    info: &mut I,
) -> (r: usize)
    requires
        provider.wf(),
        all_ixs@.len() > 0,
        all_in_range(*provider, all_ixs@),
        provider.cache_ok(old(cache).contents()),
    ensures
        is_medoid(*provider, all_ixs@, r),
        provider.cache_ok(final(cache).contents()),
{
    let n = all_ixs.len();
    let mut best_pos: usize = 0;
    let mut best_dist = DistanceCmp::inf();
    let mut t: usize = 0;
    while t < n
        invariant
            n == all_ixs@.len(),
            provider.wf(),
            all_in_range(*provider, all_ixs@),
            provider.cache_ok(cache.contents()),
            t <= n,
            t == 0 ==> best_dist.value == crate::dist::DIST_INF,
            t > 0 ==> best_pos < t && best_dist.value == total_dist(*provider, all_ixs@, all_ixs@[best_pos as int]),
            forall|u: int| 0 <= u < t ==> total_dist(*provider, all_ixs@, all_ixs@[u]) >= best_dist.value,
            forall|u: int| 0 <= u < best_pos ==> total_dist(*provider, all_ixs@, all_ixs@[u]) > best_dist.value,
        decreases n - t,
    {
        let ix = all_ixs[t];
        let mut cur = DistanceCmp::zero();
        let mut j: usize = 0;
        while j < n
            invariant
                n == all_ixs@.len(),
                provider.wf(),
                all_in_range(*provider, all_ixs@),
                provider.cache_ok(cache.contents()),
                t < n,
                ix == all_ixs@[t as int],
                j <= n,
                cur.value == partial_total(*provider, all_ixs@, ix, j as int)
                    || (cur.value > best_dist.value && cur.value <= partial_total(*provider, all_ixs@, ix, j as int)),
            decreases n - j,
        {
            let oix = all_ixs[j];
            assert(provider.in_range(all_ixs@[t as int] as int));
            assert(provider.in_range(all_ixs@[j as int] as int));
            if oix != ix && cur.value <= best_dist.value {
                let d = provider.dist_internal(ix, oix, cache, info);
                cur = cur.add(d);
            }
            j = j + 1;
        }
        if t == 0 || cur.value < best_dist.value {
            best_pos = t;
            best_dist = cur;
        }
        t = t + 1;
    }
    let r = all_ixs[best_pos];
    assert(all_ixs@[best_pos as int] == r);
    r
}

/// All members of all clusters, with multiplicity.
pub open spec fn cluster_members(cs: Seq<(usize, Vec<usize>)>) -> Multiset<usize>
    decreases cs.len(),
{
    if cs.len() == 0 {
        Multiset::empty()
    } else {
        cluster_members(cs.drop_last()).add(cs.last().1@.to_multiset())
    }
}

/// Each cluster lists its centroid first.
pub open spec fn centroid_first(cs: Seq<(usize, Vec<usize>)>) -> bool {
    forall|i: int| 0 <= i < cs.len() ==> (#[trigger] cs[i]).1@.len() > 0 && cs[i].1@[0] == cs[i].0
}

/// Cluster `i`'s centroid is nearest to `x` among all centroids, and strictly
/// nearer than every earlier one.
pub open spec fn nearest_centroid<T, D: Distance<T> + Copy>(
    p: VecProvider<'_, T, D>,
    cs: Seq<(usize, Vec<usize>)>,
    x: usize,
    i: int,
) -> bool {
    &&& forall|j: int| 0 <= j < cs.len()
        ==> p.pair_dist(x as int, cs[i].0 as int) <= p.pair_dist(x as int, (#[trigger] cs[j]).0 as int)
    &&& forall|j: int| 0 <= j < i
        ==> p.pair_dist(x as int, cs[i].0 as int) < p.pair_dist(x as int, (#[trigger] cs[j]).0 as int)
}

/// Every member other than a cluster's centroid belongs to the cluster of its
/// nearest centroid (the first one on ties).
pub open spec fn assigned_nearest<T, D: Distance<T> + Copy>(p: VecProvider<'_, T, D>, cs: Seq<(usize, Vec<usize>)>) -> bool {
    forall|i: int, t: int| 0 <= i < cs.len() && 1 <= t < cs[i].1@.len()
        ==> nearest_centroid(p, cs, #[trigger] cs[i].1@[t], i)
}

/// Position of the centroid nearest to `x` among the first `n` of `cs`, the
/// first one on ties.
pub open spec fn nearest_upto<T, D: Distance<T> + Copy>(p: VecProvider<'_, T, D>, cs: Seq<usize>, x: usize, n: int) -> int
    decreases n,
{
    if n <= 1 {
        0
    } else {
        let b = nearest_upto(p, cs, x, n - 1);
        if p.pair_dist(x as int, cs[n - 1] as int) < p.pair_dist(x as int, cs[b] as int) { n - 1 } else { b }
    }
}

/// The members that an assignment round gives to centroid `j`, besides the
/// centroid itself: the non-centroids whose nearest centroid is `j`.
pub open spec fn assigned_to<T, D: Distance<T> + Copy>(p: VecProvider<'_, T, D>, cs: Seq<usize>, j: int) -> spec_fn(
    usize,
) -> bool {
    |x: usize| !cs.contains(x) && nearest_upto(p, cs, x, cs.len() as int) == j
}

/// Cluster `j` of an assignment round over `all`: its centroid, then its
/// other members in the order of `all`.
pub open spec fn cluster_of<T, D: Distance<T> + Copy>(
    p: VecProvider<'_, T, D>,
    all: Seq<usize>,
    cs: Seq<usize>,
    j: int,
) -> Seq<usize> {
    seq![cs[j]] + all.filter(assigned_to(p, cs, j))
}

/// A seed of `k` distinct centroids drawn from `ixs`.
pub open spec fn valid_seed(ixs: Seq<usize>, cs: Seq<usize>, k: int) -> bool {
    &&& cs.len() == k
    &&& cs.no_duplicates()
    &&& forall|i: int| 0 <= i < cs.len() ==> ixs.contains(#[trigger] cs[i])
}

/// Multiplicity of `x` in a duplicate-free sequence.
pub proof fn lemma_count_no_dup(s: Seq<usize>, x: usize)
    requires
        s.no_duplicates(),
    ensures
        s.to_multiset().count(x) == if s.contains(x) { 1nat } else { 0nat },
{
    s.lemma_multiset_has_no_duplicates();
}

pub proof fn lemma_cluster_members_update(cs: Seq<(usize, Vec<usize>)>, j: int, v: (usize, Vec<usize>), ix: usize)
    requires
        0 <= j < cs.len(),
        v.1@ == cs[j].1@.push(ix),
    ensures
        cluster_members(cs.update(j, v)) == cluster_members(cs).insert(ix),
    decreases cs.len(),
{
    vstd::seq_lib::to_multiset_build(cs[j].1@, ix);
    if j == cs.len() - 1 {
        assert(cs.update(j, v).drop_last() =~= cs.drop_last());
        assert(cluster_members(cs.update(j, v)) =~= cluster_members(cs).insert(ix));
    } else {
        lemma_cluster_members_update(cs.drop_last(), j, v, ix);
        assert(cs.update(j, v).drop_last() =~= cs.drop_last().update(j, v));
        assert(cluster_members(cs.update(j, v)) =~= cluster_members(cs).insert(ix));
    }
}

pub proof fn lemma_cluster_members_push(cs: Seq<(usize, Vec<usize>)>, v: (usize, Vec<usize>))
    ensures
        cluster_members(cs.push(v)) == cluster_members(cs).add(v.1@.to_multiset()),
{
    assert(cs.push(v).drop_last() =~= cs);
}

fn contains_index(v: &Vec<usize>, x: usize) -> (r: bool)
    ensures
        r == v@.contains(x),
{
    let mut i: usize = 0;
    while i < v.len()
        invariant
            i <= v@.len(),
            forall|t: int| 0 <= t < i ==> v@[t] != x,
        decreases v@.len() - i,
    {
        if v[i] == x {
            return true;
        }
        i = i + 1;
    }
    false
}

/// One assignment round: every non-centroid member of `all_ixs` joins the
/// cluster of its nearest centroid (the first one on ties).
pub fn assign<T, D: Distance<T> + Copy, C: Cache, I: Info>(
    provider: &VecProvider<'_, T, D>,
    all_ixs: &Vec<usize>,
    centroids: &Vec<usize>,
    cache: &mut C,
    info: &mut I,
) -> (res: Vec<(usize, Vec<usize>)>)
    requires
        provider.wf(),
        all_ixs@.no_duplicates(),
        all_in_range(*provider, all_ixs@),
        centroids@.len() >= 1,
        valid_seed(all_ixs@, centroids@, centroids@.len() as int),
        provider.cache_ok(old(cache).contents()),
    ensures
        res@.len() == centroids@.len(),
        forall|i: int| 0 <= i < res@.len() ==> (#[trigger] res@[i]).0 == centroids@[i],
        centroid_first(res@),
        cluster_members(res@) == all_ixs@.to_multiset(),
        assigned_nearest(*provider, res@),
        forall|j: int| 0 <= j < res@.len() ==> (#[trigger] res@[j]).1@ == cluster_of(*provider, all_ixs@, centroids@, j),
        provider.cache_ok(final(cache).contents()),
        forall|i: int, x: usize| 0 <= i < res@.len() && #[trigger] res@[i].1@.contains(x)
            ==> all_ixs@.contains(x),
{
    let k = centroids.len();
    let mut res: Vec<(usize, Vec<usize>)> = Vec::new();
    let mut i: usize = 0;
    while i < k
        invariant
            k == centroids@.len(),
            i <= k,
            res@.len() == i,
            forall|u: int| 0 <= u < i ==> (#[trigger] res@[u]).0 == centroids@[u] && res@[u].1@ == seq![centroids@[u]],
            cluster_members(res@) == centroids@.take(i as int).to_multiset(),
        decreases k - i,
    {
        let c = centroids[i];
        let ghost before = res@;
        let single = vec![c];
        assert(single@ =~= seq![c]);
        res.push((c, single));
        proof {
            lemma_cluster_members_push(before, res@[i as int]);
            assert(res@ =~= before.push(res@[i as int]));
            assert(centroids@.take(i + 1) =~= centroids@.take(i as int).push(c));
            vstd::seq_lib::to_multiset_build(Seq::<usize>::empty(), c);
            assert(seq![c] =~= Seq::<usize>::empty().push(c));
            vstd::seq_lib::to_multiset_build(centroids@.take(i as int), c);
        }
        i = i + 1;
    }
    assert(centroids@.take(k as int) =~= centroids@);
    proof {
        assert forall|x: usize| cluster_members(res@).count(x)
            == if centroids@.contains(x) || all_ixs@.take(0).contains(x) { 1nat } else { 0nat } by {
            lemma_count_no_dup(centroids@, x);
        }
    }
    let n = all_ixs.len();
    let mut t: usize = 0;
    proof {
        assert forall|j: int| 0 <= j < k implies (#[trigger] res@[j]).1@ == seq![centroids@[j]]
            + all_ixs@.take(0).filter(assigned_to(*provider, centroids@, j)) by {
            assert(all_ixs@.take(0) =~= Seq::<usize>::empty());
            assert(Seq::<usize>::empty().filter(assigned_to(*provider, centroids@, j)) =~= Seq::<usize>::empty());
            assert(seq![centroids@[j]] + Seq::<usize>::empty() =~= seq![centroids@[j]]);
        }
    }
    while t < n
        invariant
            provider.wf(),
            n == all_ixs@.len(),
            k == centroids@.len(),
            k >= 1,
            all_ixs@.no_duplicates(),
            all_in_range(*provider, all_ixs@),
            valid_seed(all_ixs@, centroids@, k as int),
            provider.cache_ok(cache.contents()),
            t <= n,
            res@.len() == k,
            forall|u: int| 0 <= u < k ==> (#[trigger] res@[u]).0 == centroids@[u],
            centroid_first(res@),
            assigned_nearest(*provider, res@),
            forall|j: int| 0 <= j < k ==> (#[trigger] res@[j]).1@ == seq![centroids@[j]] + all_ixs@.take(t as int).filter(
                assigned_to(*provider, centroids@, j),
            ),
            forall|x: usize| #![trigger cluster_members(res@).count(x)] cluster_members(res@).count(x)
                == if centroids@.contains(x) || all_ixs@.take(t as int).contains(x) { 1nat } else { 0nat },
        decreases n - t,
    {
        let ix = all_ixs[t];
        assert(provider.in_range(all_ixs@[t as int] as int));
        if !contains_index(centroids, ix) {
            assert(provider.in_range(centroids@[0] as int)) by {
                assert(all_ixs@.contains(centroids@[0]));
            }
            let mut best: usize = 0;
            let mut best_d = provider.dist_internal(ix, centroids[0], cache, info);
            let mut j: usize = 1;
            while j < k
                invariant
                    provider.wf(),
                    k == centroids@.len(),
                    valid_seed(all_ixs@, centroids@, k as int),
                    all_in_range(*provider, all_ixs@),
                    provider.in_range(ix as int),
                    provider.cache_ok(cache.contents()),
                    1 <= j <= k,
                    best < j,
                    best_d.value == provider.pair_dist(ix as int, centroids@[best as int] as int),
                    best == nearest_upto(*provider, centroids@, ix, j as int),
                    forall|j2: int| 0 <= j2 < j ==> best_d.value <= provider.pair_dist(ix as int, #[trigger] centroids@[j2] as int),
                    forall|j2: int| 0 <= j2 < best ==> best_d.value < provider.pair_dist(ix as int, #[trigger] centroids@[j2] as int),
                decreases k - j,
            {
                assert(provider.in_range(centroids@[j as int] as int)) by {
                    assert(all_ixs@.contains(centroids@[j as int]));
                }
                let d = provider.dist_internal(ix, centroids[j], cache, info);
                if d.value < best_d.value {
                    best = j;
                    best_d = d;
                }
                j = j + 1;
            }
            let ghost before = res@;
            let (c, mut m) = res.remove(best);
            m.push(ix);
            res.insert(best, (c, m));
            proof {
                assert(res@ =~= before.update(best as int, (c, m)));
                lemma_cluster_members_update(before, best as int, (c, m), ix);
                assert(all_ixs@.take(t + 1) =~= all_ixs@.take(t as int).push(ix));
                assert forall|j: int| 0 <= j < k implies (#[trigger] res@[j]).1@ == seq![centroids@[j]]
                    + all_ixs@.take(t + 1).filter(assigned_to(*provider, centroids@, j)) by {
                    all_ixs@.take(t as int).lemma_filter_push(ix, assigned_to(*provider, centroids@, j));
                    if j == best {
                        assert(res@[j].1@ == before[j].1@.push(ix));
                        assert(assigned_to(*provider, centroids@, j)(ix));
                    } else {
                        assert(res@[j] == before[j]);
                        assert(!assigned_to(*provider, centroids@, j)(ix));
                    }
                }
                assert forall|x: usize| #![trigger cluster_members(res@).count(x)] cluster_members(res@).count(x)
                    == if centroids@.contains(x) || all_ixs@.take(t + 1).contains(x) { 1nat } else { 0nat } by {
                    lemma_take_contains(all_ixs@, t as int, x);
                    if x == ix {
                        assert(!all_ixs@.take(t as int).contains(ix)) by {
                            if all_ixs@.take(t as int).contains(ix) {
                                let u = choose|u: int| 0 <= u < t && all_ixs@.take(t as int)[u] == ix;
                                assert(all_ixs@[u] == all_ixs@[t as int]);
                            }
                        }
                    }
                }
                assert forall|i: int, t2: int| 0 <= i < res@.len() && 1 <= t2 < res@[i].1@.len()
                    implies nearest_centroid(*provider, res@, #[trigger] res@[i].1@[t2], i) by {
                    assert forall|j2: int| 0 <= j2 < res@.len() implies (#[trigger] res@[j2]).0 == before[j2].0 by {
                    }
                    if i == best && t2 == before[i].1@.len() {
                        assert(res@[i].1@[t2] == ix);
                        assert forall|j2: int| 0 <= j2 < res@.len() implies provider.pair_dist(ix as int, res@[i].0 as int)
                            <= provider.pair_dist(ix as int, (#[trigger] res@[j2]).0 as int) by {
                            assert(res@[j2].0 == centroids@[j2]);
                        }
                        assert forall|j2: int| 0 <= j2 < i implies provider.pair_dist(ix as int, res@[i].0 as int)
                            < provider.pair_dist(ix as int, (#[trigger] res@[j2]).0 as int) by {
                            assert(res@[j2].0 == centroids@[j2]);
                        }
                    } else {
                        assert(res@[i].1@[t2] == before[i].1@[t2]);
                        assert(nearest_centroid(*provider, before, before[i].1@[t2], i));
                    }
                }
                assert forall|u: int| 0 <= u < res@.len() implies (#[trigger] res@[u]).1@.len() > 0
                    && res@[u].1@[0] == res@[u].0 by {
                    assert(before[u].1@.len() > 0);
                    if u == best {
                        assert(res@[u].1@[0] == before[u].1@[0]);
                    }
                }
            }
        } else {
            assert(centroids@.contains(ix));
            assert(all_ixs@.take(t + 1) =~= all_ixs@.take(t as int).push(ix));
            assert forall|j: int| 0 <= j < k implies (#[trigger] res@[j]).1@ == seq![centroids@[j]]
                + all_ixs@.take(t + 1).filter(assigned_to(*provider, centroids@, j)) by {
                all_ixs@.take(t as int).lemma_filter_push(ix, assigned_to(*provider, centroids@, j));
                assert(!assigned_to(*provider, centroids@, j)(ix));
            }
            assert forall|x: usize| #![trigger cluster_members(res@).count(x)] cluster_members(res@).count(x)
                == if centroids@.contains(x) || all_ixs@.take(t + 1).contains(x) { 1nat } else { 0nat } by {
                assert(cluster_members(res@).count(x)
                    == if centroids@.contains(x) || all_ixs@.take(t as int).contains(x) { 1nat } else { 0nat });
                lemma_take_contains(all_ixs@, t as int, x);
                assert(all_ixs@[t as int] == ix);
            }
        }
        t = t + 1;
    }
    proof {
        assert(all_ixs@.take(n as int) =~= all_ixs@);
        assert forall|j: int| 0 <= j < res@.len() implies (#[trigger] res@[j]).1@ == cluster_of(
            *provider,
            all_ixs@,
            centroids@,
            j,
        ) by {
        }
        assert forall|x: usize| cluster_members(res@).count(x) == all_ixs@.to_multiset().count(x) by {
            lemma_count_no_dup(all_ixs@, x);
            if centroids@.contains(x) {
                let u = choose|u: int| 0 <= u < k && centroids@[u] == x;
                assert(all_ixs@.contains(centroids@[u]));
            }
        }
        assert(cluster_members(res@) =~= all_ixs@.to_multiset());
        assert forall|i: int, x: usize| 0 <= i < res@.len() && #[trigger] res@[i].1@.contains(x)
            implies all_ixs@.contains(x) by {
            lemma_member_in_clusters(res@, i, x);
        }
    }
    res
}

pub proof fn lemma_take_contains(s: Seq<usize>, t: int, x: usize)
    requires
        0 <= t < s.len(),
    ensures
        s.take(t + 1).contains(x) == (s.take(t).contains(x) || x == s[t]),
{
    let s0 = s.take(t);
    if s0.contains(x) {
        let u = choose|u: int| 0 <= u < s0.len() && s0[u] == x;
        assert(s.take(t + 1)[u] == x);
    }
    if x == s[t] {
        assert(s.take(t + 1)[t] == x);
    }
    let st = s.take(t + 1);
    if st.contains(x) {
        let u = choose|u: int| 0 <= u < st.len() && st[u] == x;
        if u < t {
            assert(s.take(t)[u] == x);
        }
    }
}

pub proof fn lemma_member_in_clusters(cs: Seq<(usize, Vec<usize>)>, i: int, x: usize)
    requires
        0 <= i < cs.len(),
        cs[i].1@.contains(x),
    ensures
        cluster_members(cs).count(x) > 0,
    decreases cs.len(),
{
    if i < cs.len() - 1 {
        lemma_member_in_clusters(cs.drop_last(), i, x);
    }
}

pub proof fn lemma_member_in_two_clusters(cs: Seq<(usize, Vec<usize>)>, i: int, j: int, x: usize)
    requires
        0 <= i < j < cs.len(),
        cs[i].1@.contains(x),
        cs[j].1@.contains(x),
    ensures
        cluster_members(cs).count(x) >= 2,
    decreases cs.len(),
{
    if j < cs.len() - 1 {
        lemma_member_in_two_clusters(cs.drop_last(), i, j, x);
    } else {
        lemma_member_in_clusters(cs.drop_last(), i, x);
    }
}

fn same_centroids(a: &Vec<usize>, b: &Vec<usize>) -> (r: bool)
    ensures
        r == (a@ == b@),
{
    if a.len() != b.len() {
        return false;
    }
    let mut i: usize = 0;
    while i < a.len()
        invariant
            a@.len() == b@.len(),
            i <= a@.len(),
            forall|t: int| 0 <= t < i ==> a@[t] == b@[t],
        decreases a@.len() - i,
    {
        if a[i] != b[i] {
            return false;
        }
        i = i + 1;
    }
    assert(a@ =~= b@);
    true
}

/// The medoid of `ixs` (see [`is_medoid`]; it is unique).
pub open spec fn medoid_of<T, D: Distance<T> + Copy>(p: VecProvider<'_, T, D>, ixs: Seq<usize>) -> usize {
    choose|c: usize| is_medoid(p, ixs, c)
}

pub proof fn lemma_medoid_unique<T, D: Distance<T> + Copy>(p: VecProvider<'_, T, D>, ixs: Seq<usize>, c: usize)
    requires
        is_medoid(p, ixs, c),
    ensures
        medoid_of(p, ixs) == c,
{
    let d = medoid_of(p, ixs);
    assert(is_medoid(p, ixs, d));
    let pc = choose|pos: int| #![trigger ixs[pos]] 0 <= pos < ixs.len() && ixs[pos] == c
        && (forall|u: int| 0 <= u < ixs.len() ==> total_dist(p, ixs, ixs[u]) >= total_dist(p, ixs, c))
        && (forall|u: int| 0 <= u < pos ==> total_dist(p, ixs, ixs[u]) > total_dist(p, ixs, c));
    let pd = choose|pos: int| #![trigger ixs[pos]] 0 <= pos < ixs.len() && ixs[pos] == d
        && (forall|u: int| 0 <= u < ixs.len() ==> total_dist(p, ixs, ixs[u]) >= total_dist(p, ixs, d))
        && (forall|u: int| 0 <= u < pos ==> total_dist(p, ixs, ixs[u]) > total_dist(p, ixs, d));
    if pc < pd {
        assert(total_dist(p, ixs, ixs[pc]) > total_dist(p, ixs, d));
    } else if pd < pc {
        assert(total_dist(p, ixs, ixs[pd]) > total_dist(p, ixs, c));
    }
}

/// The centroid list of the next round: the medoid of each cluster of an
/// assignment round to `cs`.
pub open spec fn next_centroids<T, D: Distance<T> + Copy>(
    p: VecProvider<'_, T, D>,
    all: Seq<usize>,
    cs: Seq<usize>,
) -> Seq<usize> {
    Seq::new(cs.len(), |j: int| medoid_of(p, cluster_of(p, all, cs, j)))
}

/// `cs` is one of the lists in the history `h`.
pub open spec fn in_history(h: Seq<Seq<usize>>, cs: Seq<usize>) -> bool {
    exists|i: int| 0 <= i < h.len() && h[i] == cs
}

/// The history after a new list: newest first, at most ten lists.
pub open spec fn push_history(h: Seq<Seq<usize>>, cs: Seq<usize>) -> Seq<Seq<usize>> {
    seq![cs] + (if h.len() >= KMEDOID_HISTORY { h.take(KMEDOID_HISTORY - 1) } else { h })
}

/// The centroid list a k-medoid run ends on, from history `h` (current list
/// first) with `rounds` rounds left: the run stops when the previous round's
/// list repeated a list of the history (`done`) or when the rounds run out,
/// and otherwise moves to the medoids of the current assignment.
pub open spec fn km_run<T, D: Distance<T> + Copy>(
    p: VecProvider<'_, T, D>,
    all: Seq<usize>,
    h: Seq<Seq<usize>>,
    rounds: nat,
    done: bool,
) -> Seq<usize>
    decreases rounds,
{
    if h.len() == 0 {
        Seq::empty()
    } else if done || rounds <= 1 {
        h[0]
    } else {
        let n = next_centroids(p, all, h[0]);
        km_run(p, all, push_history(h, n), (rounds - 1) as nat, in_history(h, n))
    }
}

/// The seed list: the given one, or the first `k` indices.
pub open spec fn seed_of(all: Seq<usize>, init: Option<Vec<usize>>, k: int) -> Seq<usize> {
    match init {
        Some(c) => c@,
        None => all.take(k),
    }
}

/// `cs` lists the medoids of the clusters of some partition of `all`, in order.
pub open spec fn medoids_of_partition<T, D: Distance<T> + Copy>(
    p: VecProvider<'_, T, D>,
    all: Seq<usize>,
    cs: Seq<usize>,
) -> bool {
    exists|prev: Seq<(usize, Vec<usize>)>| #![trigger cluster_members(prev)] prev.len() == cs.len()
        && cluster_members(prev) == all.to_multiset()
        && forall|i: int| 0 <= i < cs.len() ==> is_medoid(p, (#[trigger] prev[i]).1@, cs[i])
}

/// Depth of the history of centroid lists used to detect fixed points and cycles.
pub const KMEDOID_HISTORY: usize = 10;

/// Iteration cap of the k-medoid loop.
pub const KMEDOID_ROUNDS: usize = 1000;

/// Partitions `all_ixs` into `k_num` clusters around medoids (or into
/// singletons when there are no more than `k_num` indices). Each cluster lists
/// its centroid first; together the clusters hold every index exactly once.
///
/// Rounds alternate assignment to the nearest centroid and recomputation of
/// each cluster's medoid, and stop one round after the centroid list repeats
/// one of the last ten, or after a thousand rounds.
pub fn kmedoid<T, D: Distance<T> + Copy, C: Cache, I: Info>(
    provider: &VecProvider<'_, T, D>,
    all_ixs: Vec<usize>,
    init_centroids: Option<Vec<usize>>,
    k_num: usize,
    cache: &mut C,
    info: &mut I,
) -> (r: Vec<(usize, Vec<usize>)>)
    requires
        provider.wf(),
        all_ixs@.no_duplicates(),
        all_in_range(*provider, all_ixs@),
        k_num >= 1,
        init_centroids matches Some(c) ==> valid_seed(all_ixs@, c@, k_num as int),
        provider.cache_ok(old(cache).contents()),
    ensures
        r@.len() == if all_ixs@.len() <= k_num { all_ixs@.len() } else { k_num as nat },
        all_ixs@.len() <= k_num ==> forall|i: int| 0 <= i < r@.len() ==> (#[trigger] r@[i]).0 == all_ixs@[i]
            && r@[i].1@ == seq![all_ixs@[i]],
        centroid_first(r@),
        cluster_members(r@) == all_ixs@.to_multiset(),
        assigned_nearest(*provider, r@),
        all_ixs@.len() > k_num ==> medoids_of_partition(*provider, all_ixs@, r@.map_values(
            |c: (usize, Vec<usize>)| c.0,
        )),
        all_ixs@.len() > k_num ==> forall|j: int| 0 <= j < r@.len() ==> {
            let cs = km_run(*provider, all_ixs@, seq![seed_of(all_ixs@, init_centroids, k_num as int)],
                KMEDOID_ROUNDS as nat, false);
            &&& cs.len() == r@.len()
            &&& (#[trigger] r@[j]).0 == cs[j]
            &&& r@[j].1@ == cluster_of(*provider, all_ixs@, cs, j)
        },
        forall|i: int, x: usize| 0 <= i < r@.len() && #[trigger] r@[i].1@.contains(x)
            ==> all_ixs@.contains(x),
        provider.cache_ok(final(cache).contents()),
{
    if all_ixs.len() <= k_num {
        let mut res: Vec<(usize, Vec<usize>)> = Vec::new();
        let mut i: usize = 0;
        while i < all_ixs.len()
            invariant
                i <= all_ixs@.len(),
                res@.len() == i,
                forall|u: int| 0 <= u < i ==> (#[trigger] res@[u]).0 == all_ixs@[u] && res@[u].1@ == seq![all_ixs@[u]],
                cluster_members(res@) == all_ixs@.take(i as int).to_multiset(),
            decreases all_ixs@.len() - i,
        {
            let c = all_ixs[i];
            let ghost before = res@;
            let single = vec![c];
            assert(single@ =~= seq![c]);
            res.push((c, single));
            proof {
                lemma_cluster_members_push(before, res@[i as int]);
                assert(res@ =~= before.push(res@[i as int]));
                assert(all_ixs@.take(i + 1) =~= all_ixs@.take(i as int).push(c));
                vstd::seq_lib::to_multiset_build(Seq::<usize>::empty(), c);
                assert(seq![c] =~= Seq::<usize>::empty().push(c));
                vstd::seq_lib::to_multiset_build(all_ixs@.take(i as int), c);
            }
            i = i + 1;
        }
        proof {
            assert(all_ixs@.take(i as int) =~= all_ixs@);
            assert forall|i: int, x: usize| 0 <= i < res@.len() && #[trigger] res@[i].1@.contains(x)
                implies all_ixs@.contains(x) by {
                assert(res@[i].1@[0] == x);
            }
        }
        return res;
    }
    let ghost seed = seed_of(all_ixs@, init_centroids, k_num as int);
    let mut buff: Vec<Vec<usize>> = Vec::new();
    match init_centroids {
        Some(c) => {
            buff.push(c);
        },
        None => {
            let mut first: Vec<usize> = Vec::new();
            let mut i: usize = 0;
            while i < k_num
                invariant
                    k_num < all_ixs@.len(),
                    i <= k_num,
                    first@ == all_ixs@.take(i as int),
                decreases k_num - i,
            {
                first.push(all_ixs[i]);
                assert(all_ixs@.take(i + 1) =~= all_ixs@.take(i as int).push(all_ixs@[i as int]));
                i = i + 1;
            }
            proof {
                assert forall|a: int, b: int| 0 <= a < b < first@.len() implies first@[a] != first@[b] by {
                    assert(first@[a] == all_ixs@[a] && first@[b] == all_ixs@[b]);
                }
                assert forall|a: int| 0 <= a < first@.len() implies all_ixs@.contains(#[trigger] first@[a]) by {
                    assert(first@[a] == all_ixs@[a]);
                }
            }
            buff.push(first);
        },
    }
    let mut rounds: usize = KMEDOID_ROUNDS;
    let mut done = false;
    let ghost target = km_run(*provider, all_ixs@, seq![seed], KMEDOID_ROUNDS as nat, false);
    assert(buff@.map_values(|v: Vec<usize>| v@) =~= seq![seed]);
    loop
        invariant
            km_run(*provider, all_ixs@, buff@.map_values(|v: Vec<usize>| v@), rounds as nat, done) == target,
            target == km_run(*provider, all_ixs@, seq![seed_of(all_ixs@, init_centroids, k_num as int)],
                KMEDOID_ROUNDS as nat, false),
            provider.wf(),
            all_ixs@.no_duplicates(),
            all_in_range(*provider, all_ixs@),
            k_num >= 1,
            k_num < all_ixs@.len(),
            provider.cache_ok(cache.contents()),
            1 <= buff@.len() <= KMEDOID_HISTORY,
            valid_seed(all_ixs@, buff@[0]@, k_num as int),
            rounds >= 1,
            rounds <= KMEDOID_ROUNDS,
            done || rounds < KMEDOID_ROUNDS ==> medoids_of_partition(*provider, all_ixs@, buff@[0]@),
        decreases rounds,
    {
        let centroids = buff[0].clone();
        assert(centroids@ =~= buff@[0]@);
        let res = assign(provider, &all_ixs, &centroids, cache, info);
        let ghost h = buff@.map_values(|v: Vec<usize>| v@);
        let ghost rounds0 = rounds;
        proof {
            assert(res@.map_values(|c: (usize, Vec<usize>)| c.0) =~= centroids@);
            assert(h[0] == centroids@);
        }
        if done {
            proof {
                assert(target == centroids@);
                assert forall|j: int| 0 <= j < res@.len() implies {
                    let cs = km_run(*provider, all_ixs@, seq![seed_of(all_ixs@, init_centroids, k_num as int)],
                        KMEDOID_ROUNDS as nat, false);
                    &&& cs.len() == res@.len()
                    &&& (#[trigger] res@[j]).0 == cs[j]
                    &&& res@[j].1@ == cluster_of(*provider, all_ixs@, cs, j)
                } by {
                }
            }
            return res;
        }
        rounds = rounds - 1;
        if rounds == 0 {
            proof {
                assert(target == centroids@);
                assert forall|j: int| 0 <= j < res@.len() implies {
                    let cs = km_run(*provider, all_ixs@, seq![seed_of(all_ixs@, init_centroids, k_num as int)],
                        KMEDOID_ROUNDS as nat, false);
                    &&& cs.len() == res@.len()
                    &&& (#[trigger] res@[j]).0 == cs[j]
                    &&& res@[j].1@ == cluster_of(*provider, all_ixs@, cs, j)
                } by {
                }
            }
            return res;
        }
        let mut new_cs: Vec<usize> = Vec::new();
        let mut i: usize = 0;
        while i < res.len()
            invariant
                provider.wf(),
                all_ixs@.no_duplicates(),
                all_in_range(*provider, all_ixs@),
                provider.cache_ok(cache.contents()),
                res@.len() == k_num,
                centroid_first(res@),
                cluster_members(res@) == all_ixs@.to_multiset(),
                forall|a: int, x: usize| 0 <= a < res@.len() && #[trigger] res@[a].1@.contains(x)
                    ==> all_ixs@.contains(x),
                i <= res@.len(),
                new_cs@.len() == i,
                forall|a: int| 0 <= a < i ==> res@[a].1@.contains(#[trigger] new_cs@[a]),
                forall|a: int| 0 <= a < i ==> is_medoid(*provider, res@[a].1@, #[trigger] new_cs@[a]),
                forall|j: int| 0 <= j < res@.len() ==> (#[trigger] res@[j]).1@ == cluster_of(*provider, all_ixs@, centroids@, j),
                forall|a: int| 0 <= a < i ==> #[trigger] new_cs@[a] == medoid_of(*provider, cluster_of(*provider, all_ixs@, centroids@, a)),
            decreases res@.len() - i,
        {
            proof {
                assert(res@[i as int].1@.len() > 0);
                assert forall|t: int| 0 <= t < res@[i as int].1@.len()
                    implies provider.in_range(#[trigger] res@[i as int].1@[t] as int) by {
                    assert(res@[i as int].1@.contains(res@[i as int].1@[t]));
                    assert(all_ixs@.contains(res@[i as int].1@[t]));
                }
            }
            let c = centroid(provider, &res[i].1, cache, info);
            proof {
                let pos = choose|pos: int| #![trigger res@[i as int].1@[pos]] 0 <= pos < res@[i as int].1@.len()
                    && res@[i as int].1@[pos] == c
                    && (forall|u: int| 0 <= u < res@[i as int].1@.len() ==> total_dist(*provider, res@[i as int].1@,
                        res@[i as int].1@[u]) >= total_dist(*provider, res@[i as int].1@, c))
                    && (forall|u: int| 0 <= u < pos ==> total_dist(*provider, res@[i as int].1@, res@[i as int].1@[u])
                        > total_dist(*provider, res@[i as int].1@, c));
                assert(res@[i as int].1@.contains(c));
                lemma_medoid_unique(*provider, res@[i as int].1@, c);
            }
            new_cs.push(c);
            i = i + 1;
        }
        proof {
            assert forall|a: int, b: int| 0 <= a < b < new_cs@.len() implies new_cs@[a] != new_cs@[b] by {
                if new_cs@[a] == new_cs@[b] {
                    lemma_member_in_two_clusters(res@, a, b, new_cs@[a]);
                    lemma_count_no_dup(all_ixs@, new_cs@[a]);
                }
            }
            assert forall|a: int| 0 <= a < new_cs@.len() implies all_ixs@.contains(#[trigger] new_cs@[a]) by {
                assert(res@[a].1@.contains(new_cs@[a]));
            }
        }
        let ghost ncs = new_cs@;
        assert(ncs =~= next_centroids(*provider, all_ixs@, centroids@));
        let mut b: usize = 0;
        while b < buff.len()
            invariant
                b <= buff@.len(),
                h == buff@.map_values(|v: Vec<usize>| v@),
                ncs == new_cs@,
                done == exists|b2: int| 0 <= b2 < b && h[b2] == ncs,
            decreases buff@.len() - b,
        {
            if same_centroids(&buff[b], &new_cs) {
                done = true;
            }
            proof {
                assert(h[b as int] == buff@[b as int]@);
                if done && !(exists|b2: int| 0 <= b2 < b && h[b2] == ncs) {
                    assert(h[b as int] == ncs);
                }
            }
            b = b + 1;
        }
        assert(done == in_history(h, ncs));
        let ghost blen = buff@.len();
        assert(h.take(blen as int) =~= h);
        while buff.len() >= KMEDOID_HISTORY
            invariant
                buff@.len() >= 1,
                buff@.len() <= blen,
                h.len() == blen,
                blen <= KMEDOID_HISTORY,
                buff@.len() < blen ==> buff@.len() >= KMEDOID_HISTORY - 1,
                buff@.map_values(|v: Vec<usize>| v@) == h.take(buff@.len() as int),
            decreases buff@.len(),
        {
            let ghost bb = buff@;
            buff.pop();
            assert(buff@ =~= bb.drop_last());
            assert forall|t: int| 0 <= t < buff@.len() implies buff@.map_values(|v: Vec<usize>| v@)[t]
                == h.take(buff@.len() as int)[t] by {
                assert(buff@[t] == bb[t]);
                assert(bb.map_values(|v: Vec<usize>| v@)[t] == bb[t]@);
                assert(h.take(bb.len() as int)[t] == h[t]);
                assert(bb.map_values(|v: Vec<usize>| v@)[t] == h.take(bb.len() as int)[t]);
            }
            assert(buff@.map_values(|v: Vec<usize>| v@) =~= h.take(buff@.len() as int));
        }
        let ghost trimmed = buff@;
        buff.insert(0, new_cs);
        proof {
            assert(buff@.map_values(|v: Vec<usize>| v@) =~= push_history(h, ncs)) by {
                if blen >= KMEDOID_HISTORY {
                    assert(trimmed.len() == KMEDOID_HISTORY - 1);
                } else {
                    assert(trimmed.len() == blen);
                    assert(h.take(blen as int) =~= h);
                }
                assert(buff@ == trimmed.insert(0, buff@[0]));
            }
            assert(rounds0 > 1);
            assert(km_run(*provider, all_ixs@, h, rounds0 as nat, false) == km_run(*provider, all_ixs@,
                push_history(h, ncs), (rounds0 - 1) as nat, in_history(h, ncs)));
            assert(buff@[0]@ == ncs);
            assert(cluster_members(res@) == all_ixs@.to_multiset());
            assert(forall|i: int| 0 <= i < ncs.len() ==> is_medoid(*provider, (#[trigger] res@[i]).1@, ncs[i]));
            assert(medoids_of_partition(*provider, all_ixs@, ncs));
        }
    }
}

pub proof fn lemma_cluster_within(cs: Seq<(usize, Vec<usize>)>, i: int)
    requires
        0 <= i < cs.len(),
    ensures
        cs[i].1@.to_multiset().subset_of(cluster_members(cs)),
        cs[i].1@.len() <= cluster_members(cs).len(),
    decreases cs.len(),
{
    if i < cs.len() - 1 {
        lemma_cluster_within(cs.drop_last(), i);
    }
    vstd::seq_lib::to_multiset_len(cs[i].1@);
}

/// Floor of the square root.
pub fn isqrt(n: usize) -> (r: usize)
    ensures
        r * r <= n,
        n < (r + 1) * (r + 1),
{
    let mut r: usize = 0;
    loop
        invariant
            r * r <= n,
            r <= n,
        decreases n - r,
    {
        assert(r < n || r < 2) by (nonlinear_arith)
            requires r * r <= n;
        let next = r + 1;
        match next.checked_mul(next) {
            Some(sq) => {
                if sq > n {
                    return r;
                }
                assert(next <= next * next) by (nonlinear_arith)
                    requires next >= 1;
                r = next;
            },
            None => {
                return r;
            },
        }
    }
}

/// Fan-out used at one level: `m` while `m * m` exceeds the set size,
/// otherwise the square root of the size (at least one).
pub open spec fn fanout(m: nat, n: nat) -> nat {
    if m * m > n {
        m
    } else {
        let r = choose|r: nat| is_floor_sqrt(r, n);
        if r == 0 { 1 } else { r }
    }
}

pub open spec fn is_floor_sqrt(r: nat, n: nat) -> bool {
    r * r <= n < (r + 1) * (r + 1)
}

fn num_k(max_node_size: usize, n: usize) -> (k: usize)
    ensures
        k >= 1,
        k == fanout(max_node_size as nat, n as nat),
{
    let big = match max_node_size.checked_mul(max_node_size) {
        Some(sq) => sq > n,
        None => true,
    };
    if big {
        assert(max_node_size >= 1) by (nonlinear_arith)
            requires max_node_size * max_node_size > n, n >= 0;
        max_node_size
    } else {
        let r = isqrt(n);
        proof {
            assert(is_floor_sqrt(r as nat, n as nat));
            let c = choose|c: nat| is_floor_sqrt(c, n as nat);
            lemma_isqrt_unique(c, r as nat, n as nat);
        }
        if r == 0 { 1 } else { r }
    }
}

pub proof fn lemma_isqrt_unique(a: nat, b: nat, n: nat)
    requires
        a * a <= n < (a + 1) * (a + 1),
        b * b <= n < (b + 1) * (b + 1),
    ensures
        a == b,
{
    if a < b {
        assert((a + 1) * (a + 1) <= b * b) by (nonlinear_arith)
            requires a < b;
    } else if b < a {
        assert((b + 1) * (b + 1) <= a * a) by (nonlinear_arith)
            requires b < a;
    }
}

/// Every index below a child, other than the child's own centroid, is at
/// least as near to that child's centroid as to any other child's: the
/// children's subtrees are the clusters of a nearest-centroid assignment.
pub open spec fn children_nearest<T, D: Distance<T> + Copy>(p: VecProvider<'_, T, D>, n: Node) -> bool {
    forall|t: int, u: int, x: usize|
        #![trigger n.children@[t].node.indices().count(x), n.children@[u]]
        0 <= t < n.children@.len() && 0 <= u < n.children@.len() && n.children@[t].node.indices().count(x) > 0
            && x != n.children@[t].node.centroid_index ==> p.pair_dist(x as int, n.children@[t].node.centroid_index as int)
            <= p.pair_dist(x as int, n.children@[u].node.centroid_index as int)
}

/// Number of children of a level over `n` remaining indices: one leaf per
/// index when the fan-out is one or covers them all, else one per cluster.
pub open spec fn level_children(m: nat, n: nat) -> nat {
    let k = fanout(m, n);
    if k == 1 || n <= k { n } else { k }
}

fn tail(v: &Vec<usize>) -> (r: Vec<usize>)
    requires
        v@.len() > 0,
    ensures
        r@ == v@.subrange(1, v@.len() as int),
{
    let mut r: Vec<usize> = Vec::new();
    let mut i: usize = 1;
    while i < v.len()
        invariant
            1 <= i <= v@.len(),
            r@ == v@.subrange(1, i as int),
        decreases v@.len() - i,
    {
        r.push(v[i]);
        assert(v@.subrange(1, i + 1) =~= v@.subrange(1, i as int).push(v@[i as int]));
        i = i + 1;
    }
    r
}

/// Builds the subtree rooted at `cur_root_ix` over the remaining indices
/// `cur_all_ixs`: leaves when the fan-out is one or covers the whole set,
/// otherwise one child subtree per k-medoid cluster.
pub fn build_level<T, D: Distance<T> + Copy, C: Cache, I: Info>(
    provider: &VecProvider<'_, T, D>,
    cache: &mut C,
    info: &mut I,
    cur_root_ix: usize,
    cur_all_ixs: Vec<usize>,
    max_node_size: usize,
) -> (node: Node)
    requires
        provider.wf(),
        cur_all_ixs@.no_duplicates(),
        all_in_range(*provider, cur_all_ixs@),
        provider.in_range(cur_root_ix as int),
        !cur_all_ixs@.contains(cur_root_ix),
        provider.cache_ok(old(cache).contents()),
    ensures
        node_wf(node, *provider),
        node.centroid_index == cur_root_ix,
        node.indices() == cur_all_ixs@.to_multiset().insert(cur_root_ix),
        node.children@.len() == level_children(max_node_size as nat, cur_all_ixs@.len()),
        children_nearest(*provider, node),
        fanout(max_node_size as nat, cur_all_ixs@.len()) == 1 || cur_all_ixs@.len() <= fanout(
            max_node_size as nat,
            cur_all_ixs@.len(),
        ) ==> crate::search::shallow(node),
        provider.cache_ok(final(cache).contents()),
    decreases cur_all_ixs@.len(),
{
    let mut node = Node::new(cur_root_ix);
    let n = cur_all_ixs.len();
    let k = num_k(max_node_size, n);
    if k == 1 || n <= k {
        let mut i: usize = 0;
        while i < n
            invariant
                provider.wf(),
                n == cur_all_ixs@.len(),
                all_in_range(*provider, cur_all_ixs@),
                provider.in_range(cur_root_ix as int),
                provider.cache_ok(cache.contents()),
                i <= n,
                node.centroid_index == cur_root_ix,
                node.radius.value == 0,
                children_ordered(node.children@),
                forall|c: int| 0 <= c < node.children@.len() ==> {
                    &&& (#[trigger] node.children@[c]).center_dist.value
                        == provider.pair_dist(cur_root_ix as int, node.children@[c].node.centroid_index as int)
                    &&& node_wf(node.children@[c].node, *provider)
                },
                children_indices(node.children@) == cur_all_ixs@.take(i as int).to_multiset(),
                node.children@.len() == i,
                crate::search::shallow(node),
            decreases n - i,
        {
            let ix = cur_all_ixs[i];
            assert(provider.in_range(cur_all_ixs@[i as int] as int));
            let leaf = Node::new(ix);
            assert(node_wf(leaf, *provider));
            proof {
                assert(leaf.children@ =~= Seq::<Child>::empty());
                assert(leaf.indices() =~= Multiset::singleton(ix));
            }
            let ghost before = node.children@;
            let ghost leaf_g = leaf;
            node.add_child(leaf, provider, cache, info);
            proof {
                let p = choose|p: int| 0 <= p <= before.len() && node.children@ == before.insert(p, Child {
                    node: leaf_g,
                    center_dist: DistanceCmp { value: provider.pair_dist(cur_root_ix as int, ix as int) },
                });
                lemma_children_indices_insert(before, p, node.children@[p]);
                assert(cur_all_ixs@.take(i + 1) =~= cur_all_ixs@.take(i as int).push(ix));
                assert(Multiset::singleton(ix) =~= Multiset::<usize>::empty().insert(ix));
                assert forall|c: int| 0 <= c < node.children@.len() implies {
                    &&& (#[trigger] node.children@[c]).center_dist.value
                        == provider.pair_dist(cur_root_ix as int, node.children@[c].node.centroid_index as int)
                    &&& node_wf(node.children@[c].node, *provider)
                } by {
                    if c < p {
                        assert(node.children@[c] == before[c]);
                    } else if c > p {
                        assert(node.children@[c] == before[c - 1]);
                    }
                }
                assert forall|c: int| 0 <= c < node.children@.len()
                    implies (#[trigger] node.children@[c]).node.children@.len() == 0 by {
                    if c < p {
                        assert(node.children@[c] == before[c]);
                    } else if c > p {
                        assert(node.children@[c] == before[c - 1]);
                    }
                }
            }
            i = i + 1;
        }
        assert(cur_all_ixs@.take(n as int) =~= cur_all_ixs@);
        proof {
            assert forall|t: int, u: int, x: usize|
                #![trigger node.children@[t].node.indices().count(x), node.children@[u]]
                0 <= t < node.children@.len() && 0 <= u < node.children@.len()
                    && node.children@[t].node.indices().count(x) > 0
                    implies x == node.children@[t].node.centroid_index by {
                crate::search::lemma_leaf_indices(node.children@[t].node);
            }
        }
    } else {
        let clusters = kmedoid(provider, cur_all_ixs, None, k, cache, info);
        let ghost mut src: Seq<int> = Seq::empty();
        let nc = clusters.len();
        let mut i: usize = 0;
        while i < nc
            invariant
                provider.wf(),
                nc == clusters@.len(),
                n == cur_all_ixs@.len(),
                cur_all_ixs@.no_duplicates(),
                all_in_range(*provider, cur_all_ixs@),
                !cur_all_ixs@.contains(cur_root_ix),
                provider.in_range(cur_root_ix as int),
                provider.cache_ok(cache.contents()),
                centroid_first(clusters@),
                cluster_members(clusters@) == cur_all_ixs@.to_multiset(),
                forall|a: int, x: usize| 0 <= a < clusters@.len() && #[trigger] clusters@[a].1@.contains(x)
                    ==> cur_all_ixs@.contains(x),
                i <= nc,
                node.centroid_index == cur_root_ix,
                node.radius.value == 0,
                children_ordered(node.children@),
                forall|c: int| 0 <= c < node.children@.len() ==> {
                    &&& (#[trigger] node.children@[c]).center_dist.value
                        == provider.pair_dist(cur_root_ix as int, node.children@[c].node.centroid_index as int)
                    &&& node_wf(node.children@[c].node, *provider)
                },
                children_indices(node.children@) == cluster_members(clusters@.take(i as int)),
                node.children@.len() == i,
                assigned_nearest(*provider, clusters@),
                src.len() == node.children@.len(),
                forall|t: int| 0 <= t < node.children@.len() ==> 0 <= #[trigger] src[t] < nc
                    && node.children@[t].node.centroid_index == clusters@[src[t]].0
                    && node.children@[t].node.indices() == clusters@[src[t]].1@.to_multiset(),
            decreases nc - i,
        {
            let c = clusters[i].0;
            let members = &clusters[i].1;
            let ghost ms = members@;
            proof {
                lemma_cluster_within(clusters@, i as int);
                assert(ms.len() > 0 && ms[0] == c);
                assert(ms.contains(c));
                assert(cur_all_ixs@.contains(c));
                vstd::seq_lib::to_multiset_len(cur_all_ixs@);
                assert forall|x: usize| ms.to_multiset().count(x) <= 1 by {
                    lemma_count_no_dup(cur_all_ixs@, x);
                }
                ms.lemma_multiset_has_no_duplicates_conv();
            }
            let rest = tail(members);
            proof {
                assert(ms.remove(0) =~= rest@);
                vstd::seq_lib::to_multiset_remove(ms, 0);
                assert(rest@.to_multiset().insert(c) =~= ms.to_multiset());
                assert(!rest@.contains(c)) by {
                    if rest@.contains(c) {
                        let u = choose|u: int| 0 <= u < rest@.len() && rest@[u] == c;
                        assert(ms[u + 1] == ms[0]);
                    }
                }
                assert(rest@.no_duplicates()) by {
                    assert forall|a: int, b: int| 0 <= a < b < rest@.len() implies rest@[a] != rest@[b] by {
                        assert(rest@[a] == ms[a + 1] && rest@[b] == ms[b + 1]);
                    }
                }
                assert forall|t: int| 0 <= t < rest@.len() implies provider.in_range(#[trigger] rest@[t] as int) by {
                    assert(ms.contains(ms[t + 1]));
                    assert(cur_all_ixs@.contains(rest@[t]));
                }
                assert(provider.in_range(c as int));
                vstd::seq_lib::to_multiset_len(ms);
                vstd::seq_lib::to_multiset_len(cur_all_ixs@);
            }
            let child = build_level(provider, cache, info, c, rest, max_node_size);
            let ghost before = node.children@;
            let ghost src_before = src;
            let ghost child_g = child;
            node.add_child(child, provider, cache, info);
            proof {
                let p = choose|p: int| 0 <= p <= before.len() && node.children@ == before.insert(p, Child {
                    node: child_g,
                    center_dist: DistanceCmp { value: provider.pair_dist(cur_root_ix as int, c as int) },
                });
                lemma_children_indices_insert(before, p, node.children@[p]);
                assert(clusters@.take(i + 1).drop_last() =~= clusters@.take(i as int));
                src = src_before.insert(p, i as int);
                assert forall|t: int| 0 <= t < node.children@.len() implies 0 <= #[trigger] src[t] < nc
                    && node.children@[t].node.centroid_index == clusters@[src[t]].0
                    && node.children@[t].node.indices() == clusters@[src[t]].1@.to_multiset() by {
                    if t < p {
                        assert(node.children@[t] == before[t]);
                    } else if t > p {
                        assert(node.children@[t] == before[t - 1]);
                    }
                }
                assert forall|q: int| 0 <= q < node.children@.len() implies {
                    &&& (#[trigger] node.children@[q]).center_dist.value
                        == provider.pair_dist(cur_root_ix as int, node.children@[q].node.centroid_index as int)
                    &&& node_wf(node.children@[q].node, *provider)
                } by {
                    if q < p {
                        assert(node.children@[q] == before[q]);
                    } else if q > p {
                        assert(node.children@[q] == before[q - 1]);
                    }
                }
            }
            i = i + 1;
        }
        assert(clusters@.take(nc as int) =~= clusters@);
        proof {
            assert forall|t: int, u: int, x: usize|
                #![trigger node.children@[t].node.indices().count(x), node.children@[u]]
                0 <= t < node.children@.len() && 0 <= u < node.children@.len()
                    && node.children@[t].node.indices().count(x) > 0
                    && x != node.children@[t].node.centroid_index
                    implies provider.pair_dist(x as int, node.children@[t].node.centroid_index as int)
                    <= provider.pair_dist(x as int, node.children@[u].node.centroid_index as int) by {
                let a = src[t];
                let b = src[u];
                let ms = clusters@[a].1@;
                assert(ms.to_multiset().count(x) > 0);
                assert(ms.contains(x));
                let w = choose|w: int| 0 <= w < ms.len() && ms[w] == x;
                assert(ms[0] == clusters@[a].0);
                assert(w >= 1);
                assert(nearest_centroid(*provider, clusters@, clusters@[a].1@[w], a));
                assert(provider.pair_dist(x as int, clusters@[a].0 as int) <= provider.pair_dist(x as int,
                    clusters@[b].0 as int));
            }
        }
    }
    node.compute_radius();
    node
}

impl Node {
    pub fn new(centroid_index: usize) -> (r: Node)
        ensures
            r.centroid_index == centroid_index,
            r.radius.value == 0,
            r.children@.len() == 0,
    {
        Node { centroid_index, radius: DistanceCmp::zero(), children: Vec::new() }
    }

    /// The ball's reach through one child: `center_dist + child radius`.
    pub fn get_child_dist_max(child: &Child) -> (r: DistanceCmp)
        ensures
            r.value == sat_add(child.center_dist.value, child.node.radius.value),
    {
        child.center_dist.add(child.node.radius)
    }

    /// Sets the radius to the largest reach over the children.
    pub fn compute_radius(&mut self)
        ensures
            final(self).radius.value == max_reach(old(self).children@),
            final(self).centroid_index == old(self).centroid_index,
            final(self).children@ == old(self).children@,
    {
        let mut m = DistanceCmp::zero();
        let mut i: usize = 0;
        while i < self.children.len()
            invariant
                i <= self.children@.len(),
                m.value == max_reach(self.children@.take(i as int)),
            decreases self.children@.len() - i,
        {
            let r = Node::get_child_dist_max(&self.children[i]);
            assert(self.children@.take(i + 1).drop_last() =~= self.children@.take(i as int));
            if r.value > m.value {
                m = r;
            }
            i = i + 1;
        }
        assert(self.children@.take(i as int) =~= self.children@);
        self.radius = m;
    }

    /// Lower bound on the distance from a query to any point of the subtree,
    /// given the query's distance to the centroid.
    pub fn get_dist_min(&self, dist: &DistanceCmp) -> (r: DistanceCmp)
        ensures
            r.value == crate::dist::sat_sub(dist.value, self.radius.value),
    {
        dist.sub(self.radius)
    }

    /// Attaches a subtree, measuring its centre distance through the cache and
    /// keeping the children ordered by non-increasing centre distance (a new
    /// child goes after all children at least as far).
    pub fn add_child<T, D: Distance<T> + Copy, C: Cache, I: Info>(
        &mut self,
        child: Node,
        provider: &VecProvider<'_, T, D>,
        cache: &mut C,
        info: &mut I,
    )
        requires
            provider.wf(),
            provider.in_range(old(self).centroid_index as int),
            provider.in_range(child.centroid_index as int),
            children_ordered(old(self).children@),
            provider.cache_ok(old(cache).contents()),
        ensures
            final(self).centroid_index == old(self).centroid_index,
            final(self).radius == old(self).radius,
            children_ordered(final(self).children@),
            provider.cache_ok(final(cache).contents()),
            exists|p: int| 0 <= p <= old(self).children@.len()
                && (forall|i: int| 0 <= i < p ==> provider.pair_dist(old(self).centroid_index as int,
                    child.centroid_index as int) <= (#[trigger] old(self).children@[i]).center_dist.value)
                && (forall|i: int| p <= i < old(self).children@.len() ==> (#[trigger] old(self).children@[i]).center_dist.value
                    < provider.pair_dist(old(self).centroid_index as int, child.centroid_index as int))
                && final(self).children@ == old(self).children@.insert(p, Child {
                    node: child,
                    center_dist: DistanceCmp {
                        value: provider.pair_dist(old(self).centroid_index as int, child.centroid_index as int),
                    },
                }),
    {
        let center_dist = provider.dist_internal(self.centroid_index, child.centroid_index, cache, info);
        let mut p: usize = 0;
        while p < self.children.len() && center_dist.value <= self.children[p].center_dist.value
            invariant
                p <= self.children@.len(),
                forall|i: int| 0 <= i < p ==> center_dist.value <= self.children@[i].center_dist.value,
            decreases self.children@.len() - p,
        {
            p = p + 1;
        }
        let ghost old_cs = self.children@;
        let ghost c = Child { node: child, center_dist };
        assert(forall|i: int| p <= i < old_cs.len() ==> (#[trigger] old_cs[i]).center_dist.value < center_dist.value) by {
            assert forall|i: int| p <= i < old_cs.len() implies (#[trigger] old_cs[i]).center_dist.value < center_dist.value by {
                assert(old_cs[p as int].center_dist.value < center_dist.value);
                assert(children_ordered(old_cs));
            }
        }
        self.children.insert(p, Child { node: child, center_dist });
        assert(self.children@ == old_cs.insert(p as int, c));
        assert forall|i: int, j: int| 0 <= i < j < self.children@.len()
            implies self.children@[j].center_dist.value <= self.children@[i].center_dist.value by {
            if j < p {
            } else if j == p {
            } else if i < p {
                assert(self.children@[j] == old_cs[j - 1]);
                if j - 1 >= p {
                    assert(!(center_dist.value <= old_cs[p as int].center_dist.value) || p == old_cs.len());
                }
            } else if i == p {
                assert(self.children@[j] == old_cs[j - 1]);
            } else {
            }
        }
    }
}

} // verus!

verus! {

/// Parameters of a tree build; without a maximum node size the provider's
/// full size is used.
#[derive(Clone, Copy, Debug)]
pub struct FannBuildParams {
    pub max_node_size: Option<usize>,
}

/// A built tree, with the provider fingerprint and kernel name it was built
/// under.
pub struct FannTree {
    pub root: Node,
    pub hash: String,
    pub distance_name: String,
}

/// The indices `[a, b)` in increasing order.
pub open spec fn range_seq(a: usize, b: usize) -> Seq<usize> {
    Seq::new((b - a) as nat, |i: int| (a + i) as usize)
}

/// Every index of the provider's range appears exactly once in the tree, and
/// no other index appears.
pub open spec fn covers_range<T, D: Distance<T> + Copy>(n: Node, p: VecProvider<'_, T, D>) -> bool {
    forall|x: usize| #[trigger] n.indices().count(x) == if p.in_range(x as int) { 1nat } else { 0nat }
}

impl FannTree {
    pub open spec fn tree_wf<T, D: Distance<T> + Copy>(&self, p: VecProvider<'_, T, D>) -> bool {
        &&& node_wf(self.root, p)
        &&& covers_range(self.root, p)
    }

    /// `ixs` without the entries equal to `index`.
    pub fn remove(ixs: &mut Vec<usize>, index: usize)
        ensures
            forall|x: usize| final(ixs)@.contains(x) <==> (old(ixs)@.contains(x) && x != index),
            old(ixs)@.no_duplicates() ==> final(ixs)@.no_duplicates(),
            final(ixs)@.len() <= old(ixs)@.len(),
            old(ixs)@.contains(index) ==> final(ixs)@.len() < old(ixs)@.len(),
    {
        let mut out: Vec<usize> = Vec::new();
        let mut i: usize = 0;
        while i < ixs.len()
            invariant
                i <= ixs@.len(),
                out@.len() <= i,
                ixs@.take(i as int).contains(index) ==> out@.len() < i,
                forall|x: usize| #![trigger out@.contains(x)] out@.contains(x) <==> (ixs@.take(i as int).contains(x) && x != index),
                ixs@.no_duplicates() ==> out@.no_duplicates(),
            decreases ixs@.len() - i,
        {
            let v = ixs[i];
            proof {
                assert forall|x: usize| #![trigger ixs@.take(i + 1).contains(x)] ixs@.take(i + 1).contains(x) == (ixs@.take(i as int).contains(x) || x == v) by {
                    lemma_take_contains(ixs@, i as int, x);
                }
            }
            let ghost out0 = out@;
            if v != index {
                let ghost before = out@;
                out.push(v);
                proof {
                    assert forall|x: usize| out@.contains(x) <==> (before.contains(x) || x == v) by {
                        if out@.contains(x) {
                            let u = choose|u: int| 0 <= u < out@.len() && out@[u] == x;
                            if u < before.len() {
                                assert(before[u] == x);
                            }
                        }
                        if before.contains(x) {
                            let u = choose|u: int| 0 <= u < before.len() && before[u] == x;
                            assert(out@[u] == x);
                        }
                        assert(out@[before.len() as int] == v);
                    }
                    if ixs@.no_duplicates() {
                        assert(!before.contains(v)) by {
                            if ixs@.take(i as int).contains(v) {
                                let u = choose|u: int| 0 <= u < i && ixs@.take(i as int)[u] == v;
                                assert(ixs@[u] == ixs@[i as int]);
                            }
                        }
                        assert forall|a: int, b: int| 0 <= a < b < out@.len() implies out@[a] != out@[b] by {
                            if b == before.len() {
                                assert(before.contains(out@[a]));
                            } else {
                                assert(out@[a] == before[a] && out@[b] == before[b]);
                            }
                        }
                    }
                }
            }
            proof {
                assert forall|x: usize| #![trigger out@.contains(x)] out@.contains(x) <==> (ixs@.take(i + 1).contains(x) && x != index) by {
                    assert(ixs@.take(i + 1).contains(x) == (ixs@.take(i as int).contains(x) || x == v));
                    assert(out0.contains(x) <==> (ixs@.take(i as int).contains(x) && x != index));
                }
            }
            i = i + 1;
        }
        assert(ixs@.take(i as int) =~= ixs@);
        *ixs = out;
    }

    /// Builds the tree over the provider's whole range: the root is the range's
    /// medoid, the rest is built level by level.
    pub fn build<T, D: Distance<T> + Copy, C: Cache, I: Info>(
        provider: &VecProvider<'_, T, D>,
        params: &FannBuildParams,
        cache: &mut C,
        info: &mut I,
    ) -> (r: FannTree)
        requires
            provider.wf(),
            provider.size() > 0,
            provider.cache_ok(old(cache).contents()),
        ensures
            r.tree_wf(*provider),
            params.max_node_size is None ==> crate::search::shallow(r.root),
            is_medoid(*provider, range_seq(provider.spec_start(), provider.spec_end()), r.root.centroid_index),
            r.hash@ == provider.fingerprint_spec(),
            r.distance_name@ == provider.spec_distance().name_of()@,
            provider.cache_ok(final(cache).contents()),
    {
        let range = provider.all();
        let mut all_ixs: Vec<usize> = Vec::new();
        let mut i: usize = range.start;
        while i < range.end
            invariant
                provider.wf(),
                range.start == provider.spec_start(),
                range.end == provider.spec_end(),
                range.start <= i <= range.end,
                all_ixs@.len() == i - range.start,
                forall|t: int| 0 <= t < all_ixs@.len() ==> #[trigger] all_ixs@[t] == range.start + t,
            decreases range.end - i,
        {
            all_ixs.push(i);
            i = i + 1;
        }
        proof {
            assert forall|a: int, b: int| 0 <= a < b < all_ixs@.len() implies all_ixs@[a] != all_ixs@[b] by {
                assert(all_ixs@[a] == range.start + a);
                assert(all_ixs@[b] == range.start + b);
            }
            assert forall|t: int| 0 <= t < all_ixs@.len() implies provider.in_range(#[trigger] all_ixs@[t] as int) by {
                assert(all_ixs@[t] == range.start + t);
            }
        }
        let max_node_size = match params.max_node_size {
            Some(m) => m,
            None => all_ixs.len(),
        };
        let root_ix = centroid(provider, &all_ixs, cache, info);
        let ghost full = all_ixs@;
        assert(full =~= range_seq(range.start, range.end));
        proof {
            assert forall|x: usize| full.contains(x) <==> provider.in_range(x as int) by {
                if provider.in_range(x as int) {
                    assert(full[x - range.start] == x);
                }
            }
        }
        FannTree::remove(&mut all_ixs, root_ix);
        proof {
            assert forall|t: int| 0 <= t < all_ixs@.len() implies provider.in_range(#[trigger] all_ixs@[t] as int) by {
                assert(all_ixs@.contains(all_ixs@[t]));
            }
        }
        let ghost rest_len = all_ixs@.len();
        assert(full.contains(root_ix)) by {
            let pos = choose|pos: int| #![trigger full[pos]] 0 <= pos < full.len() && full[pos] == root_ix
                && (forall|u: int| 0 <= u < full.len() ==> total_dist(*provider, full, full[u]) >= total_dist(*provider, full, root_ix))
                && (forall|u: int| 0 <= u < pos ==> total_dist(*provider, full, full[u]) > total_dist(*provider, full, root_ix));
        }
        let root = build_level(provider, cache, info, root_ix, all_ixs, max_node_size);
        proof {
            if params.max_node_size is None {
                assert(rest_len < max_node_size);
                assert(max_node_size * max_node_size >= max_node_size) by (nonlinear_arith)
                    requires max_node_size >= 1;
                assert(fanout(max_node_size as nat, rest_len) == max_node_size);
            }
        }
        proof {
            assert forall|x: usize| #[trigger] root.indices().count(x) == if provider.in_range(x as int) { 1nat } else { 0nat } by {
                lemma_count_no_dup(all_ixs@, x);
            }
        }
        let hash = provider.compute_hash();
        let distance_name = provider.distance().name();
        FannTree { root, hash, distance_name }
    }

    pub fn fingerprint(&self) -> (r: (&str, &str))
        ensures
            r.0@ == self.hash@,
            r.1@ == self.distance_name@,
    {
        (self.hash.as_str(), self.distance_name.as_str())
    }

    pub fn get_root(&self) -> (r: &Node)
        ensures
            *r == self.root,
    {
        &self.root
    }
}

} // verus!

verus! {

pub proof fn lemma_prefix_multiset(s: Seq<usize>, n: int)
    requires
        0 <= n <= s.len(),
    ensures
        s.take(n).to_multiset().subset_of(s.to_multiset()),
    decreases s.len() - n,
{
    if n < s.len() {
        lemma_prefix_multiset(s, n + 1);
        assert(s.take(n + 1) =~= s.take(n).push(s[n]));
    } else {
        assert(s.take(n) =~= s);
    }
}

/// A multiset holding each integer of `[a, b)` once has `b - a` elements.
pub proof fn lemma_range_count_len(m: Multiset<usize>, a: int, b: int)
    requires
        0 <= a <= b <= usize::MAX,
        forall|x: usize| #[trigger] m.count(x) == if a <= x < b { 1nat } else { 0nat },
    ensures
        m.len() == b - a,
    decreases b - a,
{
    if a == b {
        assert(m =~= Multiset::empty());
    } else {
        let v = (b - 1) as usize;
        let one = Multiset::singleton(v);
        assert(one.subset_of(m));
        vstd::multiset::axiom_len_sub(m, one);
        let m2 = m.sub(one);
        assert forall|x: usize| #[trigger] m2.count(x) == if a <= x < b - 1 { 1nat } else { 0nat } by {
        }
        lemma_range_count_len(m2, a, b - 1);
    }
}

impl FannTree {
    pub proof fn lemma_tree_size<T, D: Distance<T> + Copy>(&self, p: VecProvider<'_, T, D>)
        requires
            p.wf(),
            self.tree_wf(p),
        ensures
            self.root.indices().len() == p.size(),
    {
        lemma_range_count_len(self.root.indices(), p.spec_start() as int, p.spec_end() as int);
    }
}

} // verus!

verus! {

impl Node {
    /// Checks this node's invariants recursively against the provider,
    /// recomputing every child-centre distance.
    pub fn check<T, D: Distance<T> + Copy, I: Info>(&self, provider: &VecProvider<'_, T, D>, info: &mut I) -> (r: bool)
        requires
            provider.wf(),
        ensures
            r == node_wf(*self, *provider),
        decreases self,
    {
        let range = provider.all();
        if self.centroid_index < range.start || self.centroid_index >= range.end {
            return false;
        }
        let mut cache = crate::cache::no_cache();
        let mut reach = DistanceCmp::zero();
        let n = self.children.len();
        let mut i: usize = 0;
        while i < n
            invariant
                provider.wf(),
                provider.in_range(self.centroid_index as int),
                n == self.children@.len(),
                i <= n,
                cache.contents() == Map::<(usize, usize), u64>::empty(),
                reach.value == max_reach(self.children@.take(i as int)),
                forall|a: int, b: int| 0 <= a < b < i ==> self.children@[b].center_dist.value
                    <= self.children@[a].center_dist.value,
                forall|c: int| 0 <= c < i ==> {
                    &&& (#[trigger] self.children@[c]).center_dist.value
                        == provider.pair_dist(self.centroid_index as int, self.children@[c].node.centroid_index as int)
                    &&& node_wf(self.children@[c].node, *provider)
                },
            decreases n - i,
        {
            let child = &self.children[i];
            assert(decreases_to!(self => self.children@[i as int].node));
            if !child.node.check(provider, info) {
                return false;
            }
            let d = provider.dist_internal(self.centroid_index, child.node.centroid_index, &mut cache, info);
            if d.value != child.center_dist.value {
                return false;
            }
            if i > 0 && child.center_dist.value > self.children[i - 1].center_dist.value {
                return false;
            }
            let r = Node::get_child_dist_max(child);
            assert(self.children@.take(i + 1).drop_last() =~= self.children@.take(i as int));
            if r.value > reach.value {
                reach = r;
            }
            i = i + 1;
        }
        assert(self.children@.take(n as int) =~= self.children@);
        reach.value == self.radius.value
    }

    /// Appends the subtree's corpus indices to `out`.
    pub fn collect_indices(&self, out: &mut Vec<usize>)
        ensures
            final(out)@.to_multiset() == old(out)@.to_multiset().add(self.indices()),
        decreases self,
    {
        let ghost start = out@.to_multiset();
        out.push(self.centroid_index);
        let n = self.children.len();
        let mut i: usize = 0;
        while i < n
            invariant
                n == self.children@.len(),
                i <= n,
                out@.to_multiset() == start.insert(self.centroid_index).add(children_indices(self.children@.take(i as int))),
            decreases n - i,
        {
            assert(decreases_to!(self => self.children@[i as int].node));
            self.children[i].node.collect_indices(out);
            assert(self.children@.take(i + 1).drop_last() =~= self.children@.take(i as int));
            assert(out@.to_multiset() =~= start.insert(self.centroid_index).add(
                children_indices(self.children@.take(i + 1))));
            i = i + 1;
        }
        assert(self.children@.take(n as int) =~= self.children@);
        assert(out@.to_multiset() =~= start.add(self.indices()));
    }
}

impl FannTree {
    /// Checks that the tree describes the provider: node invariants, and
    /// every index of the range present exactly once.
    pub fn check<T, D: Distance<T> + Copy, I: Info>(&self, provider: &VecProvider<'_, T, D>, info: &mut I) -> (r: bool)
        requires
            provider.wf(),
        ensures
            r == self.tree_wf(*provider),
    {
        if !self.root.check(provider, info) {
            return false;
        }
        let mut out: Vec<usize> = Vec::new();
        self.root.collect_indices(&mut out);
        assert(out@.to_multiset() =~= self.root.indices());
        let range = provider.all();
        let size = range.end - range.start;
        let mut seen: Vec<bool> = Vec::new();
        let mut k: usize = 0;
        while k < size
            invariant
                k <= size,
                seen@.len() == k,
                forall|u: int| 0 <= u < k ==> !seen@[u],
            decreases size - k,
        {
            seen.push(false);
            k = k + 1;
        }
        let mut t: usize = 0;
        while t < out.len()
            invariant
                range.start == provider.spec_start(),
                range.end == provider.spec_end(),
                size == range.end - range.start,
                seen@.len() == size,
                out@.to_multiset() == self.root.indices(),
                t <= out@.len(),
                out@.take(t as int).no_duplicates(),
                forall|u: int| 0 <= u < t ==> provider.in_range(#[trigger] out@[u] as int),
                forall|u: int| 0 <= u < size ==> (#[trigger] seen@[u] <==> out@.take(t as int).contains((range.start + u) as usize)),
            decreases out@.len() - t,
        {
            let x = out[t];
            if x < range.start || x >= range.end {
                proof {
                    assert(out@.to_multiset().count(out@[t as int]) > 0);
                }
                return false;
            }
            let off = x - range.start;
            if seen[off] {
                proof {
                    assert(out@.take(t as int).contains(x));
                    assert(out@.take(t + 1) =~= out@.take(t as int).push(x));
                    lemma_prefix_multiset(out@, t + 1);
                    assert(out@.take(t + 1).to_multiset().count(x) >= 2);
                }
                return false;
            }
            proof {
                assert forall|y: usize| out@.take(t + 1).contains(y) == (out@.take(t as int).contains(y) || y == x) by {
                    lemma_take_contains(out@, t as int, y);
                }
                assert(!out@.take(t as int).contains(x)) by {
                    assert(x == (range.start + off) as usize);
                }
                let st = out@.take(t + 1);
                let s0 = out@.take(t as int);
                assert forall|a: int, b: int| 0 <= a < b < st.len() implies #[trigger] st[a] != #[trigger] st[b] by {
                    if b == t {
                        assert(s0[a] == st[a]);
                        assert(s0.contains(st[a]));
                    } else {
                        assert(s0[a] == st[a]);
                        assert(s0[b] == st[b]);
                    }
                }
                assert(st.no_duplicates());
            }
            seen.set(off, true);
            proof {
                assert forall|u: int| 0 <= u < size implies (#[trigger] seen@[u] <==> out@.take(t + 1).contains((range.start + u) as usize)) by {
                    if u == off as int {
                    } else {
                        assert((range.start + u) as usize != x);
                    }
                }
            }
            t = t + 1;
        }
        let mut u: usize = 0;
        while u < size
            invariant
                range.start == provider.spec_start(),
                range.end == provider.spec_end(),
                size == range.end - range.start,
                out@.to_multiset() == self.root.indices(),
                forall|w: int| 0 <= w < size ==> (#[trigger] seen@[w] <==> out@.take(out@.len() as int).contains((range.start + w) as usize)),
                u <= size,
                seen@.len() == size,
                forall|w: int| 0 <= w < u ==> seen@[w],
            decreases size - u,
        {
            if !seen[u] {
                proof {
                    let x = (range.start + u) as usize;
                    assert(provider.in_range(x as int));
                    if self.tree_wf(*provider) {
                        assert(out@.to_multiset().count(x) == 1);
                        assert(out@.take(out@.len() as int) =~= out@);
                        assert(out@.contains(x));
                    }
                }
                return false;
            }
            u = u + 1;
        }
        proof {
            assert(out@.take(out@.len() as int) =~= out@);
            assert forall|x: usize| #[trigger] self.root.indices().count(x)
                == if provider.in_range(x as int) { 1nat } else { 0nat } by {
                lemma_count_no_dup(out@, x);
                if provider.in_range(x as int) {
                    let w = x - range.start;
                    assert(seen@[w]);
                    assert((range.start + w) as usize == x);
                } else if out@.contains(x) {
                    let w = choose|w: int| 0 <= w < out@.len() && out@[w] == x;
                    assert(provider.in_range(out@[w] as int));
                }
            }
        }
        true
    }
}

} // verus!
