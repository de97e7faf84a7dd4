//! Branch-and-bound search of a metric tree, driven by a queue of nodes keyed
//! by the lower bound of their subtree's distance to the query.
use vstd::prelude::*;
use vstd::multiset::Multiset;
use crate::base::{Distance, Info, Observation};
use crate::dist::{sat_sub, DistanceCmp, DIST_INF};
use crate::provider::VecProvider;
use crate::topk::{indices_of, insert_bounded, lemma_indices_bounded, lemma_indices_insert, sorted};
use crate::tree::{children_indices, node_wf, FannTree, Node};

verus! {

broadcast use vstd::seq_lib::group_to_multiset_ensures;

/// What is known of a queued node's distance to the query: the distance
/// itself, or only a lower bound on its subtree.
#[derive(Clone, Copy, Debug, PartialEq, Eq, Structural)]
pub enum MaybeDistance {
    Dist(DistanceCmp),
    DistMinEst(DistanceCmp),
}

/// A queued tree node with what is known of its distance to the query.
pub struct StreamingElement<'a> {
    pub elem: &'a Node,
    pub dist: MaybeDistance,
}

/// All corpus indices under the queued nodes, with multiplicity.
pub open spec fn queue_indices(qs: Seq<StreamingElement<'_>>) -> Multiset<usize>
    decreases qs.len(),
{
    if qs.len() == 0 {
        Multiset::empty()
    } else {
        queue_indices(qs.drop_last()).add(qs.last().elem.indices())
    }
}

pub proof fn lemma_queue_push<'a>(qs: Seq<StreamingElement<'a>>, e: StreamingElement<'a>)
    ensures
        queue_indices(qs.push(e)) == queue_indices(qs).add(e.elem.indices()),
{
    assert(qs.push(e).drop_last() =~= qs);
}

pub proof fn lemma_queue_remove<'a>(qs: Seq<StreamingElement<'a>>, i: int)
    requires
        0 <= i < qs.len(),
    ensures
        queue_indices(qs) == queue_indices(qs.remove(i)).add(qs[i].elem.indices()),
    decreases qs.len(),
{
    if i == qs.len() - 1 {
        assert(qs.remove(i) =~= qs.drop_last());
    } else {
        lemma_queue_remove(qs.drop_last(), i);
        assert(qs.remove(i).drop_last() =~= qs.drop_last().remove(i));
        assert(qs.remove(i).last() == qs.last());
        assert(queue_indices(qs) =~= queue_indices(qs.remove(i)).add(qs[i].elem.indices()));
    }
}

pub proof fn lemma_subset_len(big: Multiset<usize>, small: Multiset<usize>)
    requires
        small.subset_of(big),
    ensures
        small.len() <= big.len(),
{
    vstd::multiset::axiom_len_sub(big, small);
}

pub proof fn lemma_subset_same_len(big: Multiset<usize>, small: Multiset<usize>)
    requires
        small.subset_of(big),
        small.len() == big.len(),
    ensures
        small == big,
{
    vstd::multiset::axiom_len_sub(big, small);
    let diff = big.sub(small);
    assert forall|x: usize| small.count(x) == big.count(x) by {
        if diff.count(x) > 0 {
            vstd::multiset::axiom_count_le_len(diff, x);
        }
    }
    assert(small =~= big);
}

pub proof fn lemma_node_indices_len(n: Node)
    ensures
        n.indices().len() == 1 + children_indices(n.children@).len(),
        n.indices().count(n.centroid_index) >= 1,
{
}

impl<'a> StreamingElement<'a> {
    /// A known distance is the kernel's distance from the query to the centroid.
    pub open spec fn known_ok<T, D: Distance<T> + Copy>(&self, p: VecProvider<'_, T, D>, q: T) -> bool {
        self.dist matches MaybeDistance::Dist(d) ==> d.value == p.query_dist(q, self.elem.centroid_index as int)
    }

    /// The lower bound by which the queue is ordered.
    pub open spec fn spec_dist_min(&self) -> u64 {
        match self.dist {
            MaybeDistance::Dist(d) => sat_sub(d.value, self.elem.radius.value),
            MaybeDistance::DistMinEst(e) => e.value,
        }
    }

    /// Queues `elem` with its distance to the query computed now.
    pub fn new<T, D: Distance<T> + Copy, I: Info>(
        elem: &'a Node,
        provider: &VecProvider<'_, T, D>,
        q: &T,
        info: &mut I,
    ) -> (r: Self)
        requires
            provider.wf(),
            provider.in_range(elem.centroid_index as int),
        ensures
            r.elem == elem,
            r.dist == MaybeDistance::Dist(DistanceCmp { value: provider.query_dist(*q, elem.centroid_index as int) }),
            final(info).records() == old(info).records(),
            final(info).records() ==> final(info).observations() == old(info).observations().push(
                Observation::Dist(elem.centroid_index),
            ),
    {
        let d = provider.query_distance(q, elem.centroid_index, info);
        StreamingElement { elem, dist: MaybeDistance::Dist(d) }
    }

    /// Queues `elem` with only a lower bound, its distance deferred until it is
    /// taken from the queue.
    pub fn with_estimate(elem: &'a Node, estimate: DistanceCmp) -> (r: Self)
        ensures
            r.elem == elem,
            r.dist == MaybeDistance::DistMinEst(estimate),
    {
        StreamingElement { elem, dist: MaybeDistance::DistMinEst(estimate) }
    }

    pub fn get_index(&self) -> (r: usize)
        ensures
            r == self.elem.centroid_index,
    {
        self.elem.centroid_index
    }

    pub fn get_radius(&self) -> (r: DistanceCmp)
        ensures
            r == self.elem.radius,
    {
        self.elem.radius
    }

    /// The node's distance to the query, computed (once) if only a bound was known.
    pub fn get_distance<T, D: Distance<T> + Copy, I: Info>(
        &mut self,
        provider: &VecProvider<'_, T, D>,
        q: &T,
        info: &mut I,
    ) -> (r: DistanceCmp)
        requires
            provider.wf(),
            provider.in_range(old(self).elem.centroid_index as int),
        ensures
            old(self).dist matches MaybeDistance::Dist(d) ==> r == d,
            old(self).dist is DistMinEst ==> r.value == provider.query_dist(*q, old(self).elem.centroid_index as int),
            final(info).records() == old(info).records(),
            old(self).dist is Dist ==> final(info).observations() == old(info).observations(),
            old(self).dist is DistMinEst && final(info).records() ==> final(info).observations()
                == old(info).observations().push(Observation::Dist(old(self).elem.centroid_index)),
            final(self).elem == old(self).elem,
            final(self).dist == MaybeDistance::Dist(r),
    {
        match self.dist {
            MaybeDistance::Dist(d) => d,
            MaybeDistance::DistMinEst(_) => {
                let d = provider.query_distance(q, self.elem.centroid_index, info);
                self.dist = MaybeDistance::Dist(d);
                d
            },
        }
    }

    pub fn dist_min(&self) -> (r: DistanceCmp)
        ensures
            r.value == self.spec_dist_min(),
    {
        match self.dist {
            MaybeDistance::Dist(d) => d.sub(self.elem.radius),
            MaybeDistance::DistMinEst(e) => e,
        }
    }
}

/// The search's cut-off: the worst kept distance once `count` results are
/// held, infinity before.
pub fn max_dist(res: &Vec<(usize, DistanceCmp)>, count: usize) -> (r: DistanceCmp)
    ensures
        r.value == if res@.len() < count || res@.len() == 0 { DIST_INF } else { res@[res@.len() - 1].1.value },
{
    if res.len() < count || res.len() == 0 {
        return DistanceCmp::inf();
    }
    res[res.len() - 1].1
}

/// The queued nodes are well formed and their known distances exact.
pub open spec fn queue_ok<T, D: Distance<T> + Copy>(qs: Seq<StreamingElement<'_>>, p: VecProvider<'_, T, D>, q: T) -> bool {
    forall|i: int| 0 <= i < qs.len() ==> node_wf(*(#[trigger] qs[i]).elem, p) && qs[i].known_ok(p, q)
}

/// Results are sorted, bounded by `count`, and hold exact query distances.
pub open spec fn results_ok<T, D: Distance<T> + Copy>(
    res: Seq<(usize, DistanceCmp)>,
    p: VecProvider<'_, T, D>,
    q: T,
    count: usize,
) -> bool {
    &&& sorted(res)
    &&& res.len() <= count
    &&& forall|t: int| 0 <= t < res.len() ==> (#[trigger] res[t]).1.value == p.query_dist(q, res[t].0 as int)
}

/// Branch-and-bound from the queued `roots`: repeatedly takes the node of
/// least lower bound, stops once that bound exceeds the cut-off, keeps the
/// node's centroid if it improves the results, and queues its children:
/// with a bound from the precomputed centre distance when the query lies
/// outside the node's ball, with their computed distance otherwise.
///
/// The results are the kept `(index, distance)` pairs, ascending by distance,
/// at most `count` of them, each index at most once and taken from the
/// queued subtrees. When `count` is at least the number of indices under
/// the roots, every one of them is returned.
pub fn compute_closest<'a, T, D: Distance<T> + Copy, I: Info>(
    roots: Vec<StreamingElement<'a>>,
    provider: &VecProvider<'_, T, D>,
    q: &T,
    count: usize,
    info: &mut I,
) -> (r: Vec<(usize, DistanceCmp)>)
    requires
        provider.wf(),
        queue_ok(roots@, *provider, *q),
        forall|x: usize| #[trigger] queue_indices(roots@).count(x) <= 1,
    ensures
        results_ok(r@, *provider, *q, count),
        indices_of(r@).subset_of(queue_indices(roots@)),
        r@.len() == if count <= queue_indices(roots@).len() { count as nat } else { queue_indices(roots@).len() },
        count >= queue_indices(roots@).len() ==> indices_of(r@) == queue_indices(roots@),
        query_triangle(*provider, *q) && (forall|i: int| 0 <= i < roots@.len() ==> entry_sound(#[trigger] roots@[i], *provider, *q))
            ==> forall|x: usize| #![trigger queue_indices(roots@).count(x)] queue_indices(roots@).count(x) > 0
                && indices_of(r@).count(x) == 0 ==> beaten(r@, *provider, *q, count, x),
{
    let ghost all = queue_indices(roots@);
    let ghost sound = query_triangle(*provider, *q)
        && (forall|i: int| 0 <= i < roots@.len() ==> entry_sound(#[trigger] roots@[i], *provider, *q));
    let mut res: Vec<(usize, DistanceCmp)> = Vec::new();
    assert(indices_of(res@) =~= Multiset::<usize>::empty());
    let mut queue = roots;
    while queue.len() > 0
        invariant
            provider.wf(),
            queue_ok(queue@, *provider, *q),
            results_ok(res@, *provider, *q, count),
            forall|x: usize| #[trigger] all.count(x) <= 1,
            indices_of(res@).add(queue_indices(queue@)).subset_of(all),
            res@.len() < count ==> indices_of(res@).add(queue_indices(queue@)) == all,
            sound ==> query_triangle(*provider, *q),
            sound ==> forall|i: int| 0 <= i < queue@.len() ==> entry_sound(#[trigger] queue@[i], *provider, *q),
            sound ==> forall|x: usize| #![trigger all.count(x)] all.count(x) > 0 && indices_of(res@).count(x) == 0
                && queue_indices(queue@).count(x) == 0 ==> beaten(res@, *provider, *q, count, x),
        ensures
            results_ok(res@, *provider, *q, count),
            indices_of(res@).add(queue_indices(queue@)).subset_of(all),
            res@.len() < count ==> indices_of(res@).add(queue_indices(queue@)) == all,
            res@.len() < count ==> queue@.len() == 0,
            sound ==> forall|x: usize| #![trigger all.count(x)] all.count(x) > 0 && indices_of(res@).count(x) == 0
                ==> beaten(res@, *provider, *q, count, x),
        decreases queue_indices(queue@).len(),
    {
        let mut m: usize = 0;
        let mut best = queue[0].dist_min();
        let mut j: usize = 1;
        while j < queue.len()
            invariant
                1 <= j <= queue@.len(),
                m < j,
                best.value == queue@[m as int].spec_dist_min(),
                forall|j2: int| 0 <= j2 < j ==> best.value <= (#[trigger] queue@[j2]).spec_dist_min(),
            decreases queue@.len() - j,
        {
            let dj = queue[j].dist_min();
            if dj.value < best.value {
                m = j;
                best = dj;
            }
            j = j + 1;
        }
        let ghost q0 = queue@;
        let mut cur = queue.remove(m);
        proof {
            lemma_queue_remove(q0, m as int);
            lemma_node_indices_len(*cur.elem);
            lemma_subset_len(all, indices_of(res@).add(queue_indices(q0)));
            assert(node_wf(*q0[m as int].elem, *provider));
        }
        let maxd = max_dist(&res, count);
        if best.value > maxd.value {
            proof {
                if res@.len() < count {
                    assert(maxd.value == DIST_INF);
                }
                if sound {
                    assert forall|x: usize| #![trigger all.count(x)] all.count(x) > 0 && indices_of(res@).count(x) == 0
                        implies beaten(res@, *provider, *q, count, x) by {
                        if queue_indices(q0).count(x) > 0 {
                            lemma_queue_member(q0, x);
                            let i = choose|i: int| 0 <= i < q0.len() && (#[trigger] q0[i]).elem.indices().count(x) > 0;
                            lemma_entry_bound(q0[i], *provider, *q, x);
                        }
                    }
                }
            }
            break;
        }
        let d = cur.get_distance(provider, q, info);
        let ghost res0 = res@;
        let ghost mut inserted = false;
        let ghost mut pos: int = 0;
        let c = cur.get_index();
        proof {
            assert(all.count(c) >= indices_of(res0).count(c) + queue_indices(q0).count(c));
            assert(queue_indices(q0).count(c) >= 1);
            assert(indices_of(res0).add(queue_indices(queue@)).add(cur.elem.indices()) =~= indices_of(res0).add(queue_indices(q0)));
        }
        if res.len() < count || d.value < maxd.value {
            let p = insert_bounded(&mut res, (c, d), count);
            proof {
                inserted = true;
                pos = p as int;
                lemma_indices_insert(res0, p as int, (c, d));
                lemma_indices_bounded(res0.insert(p as int, (c, d)), count as int);
                assert forall|t: int| 0 <= t < res@.len() implies (#[trigger] res@[t]).1.value
                    == provider.query_dist(*q, res@[t].0 as int) by {
                    let ins = res0.insert(p as int, (c, d));
                    assert(res@[t] == ins[t]);
                    if t < p {
                        assert(ins[t] == res0[t]);
                    } else if t > p {
                        assert(ins[t] == res0[t - 1]);
                    }
                }
                if res0.len() < count {
                    assert(res@ == res0.insert(p as int, (c, d)));
                }
            }
        }
        let ghost res1 = res@;
        proof {
            if sound {
                assert(entry_sound(q0[m as int], *provider, *q));
                assert forall|x: usize| #![trigger all.count(x)] all.count(x) > 0 && indices_of(res1).count(x) == 0
                    && (x == c || indices_of(res0).count(x) > 0 || queue_indices(q0).count(x) == 0)
                    implies beaten(res1, *provider, *q, count, x) by {
                    lemma_after_insert(res0, res1, *provider, *q, count, c, d, x, inserted, pos);
                }
            }
        }
        proof {
            assert(indices_of(res1).subset_of(indices_of(res0).insert(c)));
            assert(res0.len() < count ==> indices_of(res1) == indices_of(res0).insert(c));
            assert(res1.len() < count ==> res0.len() < count);
            assert(cur.elem.children@.take(cur.elem.children@.len() as int) =~= cur.elem.children@);
            let before = indices_of(res0).add(queue_indices(q0));
            let now = indices_of(res1).add(queue_indices(queue@)).add(children_indices(cur.elem.children@));
            assert(cur.elem.indices() =~= Multiset::singleton(c).add(children_indices(cur.elem.children@)));
            assert forall|x: usize| now.count(x) <= before.count(x) by {
                assert(indices_of(res1).count(x) <= indices_of(res0).insert(c).count(x));
            }
            assert(now.subset_of(all));
            if res1.len() < count {
                assert(now =~= before);
            }
        }
        let is_outer = cur.get_radius().value < d.value;
        info.log_scan(c, is_outer);
        let node: &'a Node = cur.elem;
        let ghost qr = queue@;
        let mut j: usize = node.children.len();
        while j > 0
            invariant
                provider.wf(),
                node_wf(*node, *provider),
                j <= node.children@.len(),
                queue_ok(queue@, *provider, *q),
                results_ok(res@, *provider, *q, count),
                res@ == res1,
                queue_indices(queue@).len() + children_indices(node.children@.take(j as int)).len()
                    <= queue_indices(qr).len() + children_indices(node.children@).len(),
                d.value == provider.query_dist(*q, node.centroid_index as int),
                forall|x: usize| #[trigger] all.count(x) <= 1,
                indices_of(res1).add(queue_indices(queue@)).add(children_indices(node.children@.take(j as int)))
                    .subset_of(all),
                res1.len() < count ==> indices_of(res1).add(queue_indices(queue@)).add(
                    children_indices(node.children@.take(j as int))) == all,
                sound ==> query_triangle(*provider, *q),
                sound ==> shallow(*node),
                sound ==> forall|i: int| 0 <= i < queue@.len() ==> entry_sound(#[trigger] queue@[i], *provider, *q),
                sound ==> forall|x: usize| #![trigger all.count(x)] all.count(x) > 0 && indices_of(res1).count(x) == 0
                    && queue_indices(queue@).count(x) == 0 && children_indices(node.children@.take(j as int)).count(x) == 0
                    ==> beaten(res1, *provider, *q, count, x),
            decreases j,
        {
            let ghost qb = queue@;
            let child = &node.children[j - 1];
            proof {
                assert(node.children@.take(j as int).drop_last() =~= node.children@.take(j - 1));
                assert(node.children@.take(j as int).last() == node.children@[j - 1]);
                assert(node_wf(child.node, *provider));
                lemma_node_indices_len(child.node);
                lemma_subset_len(all, indices_of(res1).add(queue_indices(qb)).add(
                    children_indices(node.children@.take(j as int))));
            }
            let mx = max_dist(&res, count);
            let ghost cc = child.node.centroid_index;
            proof {
                if sound {
                    assert(child.node.children@.len() == 0);
                    lemma_leaf_indices(child.node);
                    assert(provider.in_range(cc as int));
                    assert(provider.query_dist(*q, node.centroid_index as int)
                        <= provider.query_dist(*q, cc as int) + provider.pair_dist(node.centroid_index as int, cc as int));
                }
            }
            let ghost pushed: bool;
            let ghost bound: u64;
            if is_outer {
                let est = d.sub(child.center_dist);
                proof {
                    bound = est.value;
                }
                if !(mx.value < est.value) {
                    queue.push(StreamingElement::with_estimate(&child.node, est));
                    proof {
                        pushed = true;
                        lemma_queue_push(qb, queue@[qb.len() as int]);
                        assert(queue@ =~= qb.push(queue@[qb.len() as int]));
                        assert forall|i: int| 0 <= i < queue@.len() implies node_wf(*(#[trigger] queue@[i]).elem, *provider)
                            && queue@[i].known_ok(*provider, *q) by {
                            if i < qb.len() {
                                assert(queue@[i] == qb[i]);
                            }
                        }
                        if sound {
                            assert forall|i: int| 0 <= i < queue@.len() implies entry_sound(#[trigger] queue@[i], *provider, *q) by {
                                if i < qb.len() {
                                    assert(queue@[i] == qb[i]);
                                }
                            }
                        }
                    }
                } else {
                    proof {
                        pushed = false;
                    }
                }
            } else {
                let ce = StreamingElement::new(&child.node, provider, q, info);
                let ce_min = ce.dist_min();
                proof {
                    bound = ce_min.value;
                }
                if !(mx.value < ce_min.value) {
                    queue.push(ce);
                    proof {
                        pushed = true;
                        lemma_queue_push(qb, queue@[qb.len() as int]);
                        assert(queue@ =~= qb.push(queue@[qb.len() as int]));
                        assert forall|i: int| 0 <= i < queue@.len() implies node_wf(*(#[trigger] queue@[i]).elem, *provider)
                            && queue@[i].known_ok(*provider, *q) by {
                            if i < qb.len() {
                                assert(queue@[i] == qb[i]);
                            }
                        }
                        if sound {
                            assert forall|i: int| 0 <= i < queue@.len() implies entry_sound(#[trigger] queue@[i], *provider, *q) by {
                                if i < qb.len() {
                                    assert(queue@[i] == qb[i]);
                                }
                            }
                        }
                    }
                } else {
                    proof {
                        pushed = false;
                    }
                }
            }
            proof {
                if sound {
                    assert(bound <= provider.query_dist(*q, cc as int));
                    assert(!pushed ==> mx.value < bound);
                    assert(!pushed ==> queue@ == qb);
                    assert(pushed ==> queue_indices(queue@) == queue_indices(qb).add(child.node.indices()));
                    assert forall|x: usize| #![trigger all.count(x)] all.count(x) > 0 && indices_of(res1).count(x) == 0
                        && queue_indices(queue@).count(x) == 0 && children_indices(node.children@.take(j - 1)).count(x) == 0
                        implies beaten(res1, *provider, *q, count, x) by {
                        if x == cc && !pushed {
                            assert(res1.len() == count);
                        } else {
                            assert(children_indices(node.children@.take(j as int)).count(x) == 0);
                        }
                    }
                }
            }
            j = j - 1;
        }
        assert(node.children@.take(0) =~= Seq::<crate::tree::Child>::empty());
    }
    proof {
        if queue@.len() == 0 {
            assert(queue_indices(queue@) =~= Multiset::<usize>::empty());
            assert(indices_of(res@).add(queue_indices(queue@)) =~= indices_of(res@));
        }
        assert(indices_of(res@).subset_of(indices_of(res@).add(queue_indices(queue@))));
        lemma_subset_len(all, indices_of(res@));
        assert(indices_of(res@).len() == res@.len());
        if count >= all.len() && res@.len() == count {
            lemma_subset_same_len(all, indices_of(res@));
        }
    }
    res
}

} // verus!

verus! {

/// The exhaustive scan's guarantees, phrased over the index multiset.
pub proof fn lemma_scan_indices<T, D: Distance<T> + Copy>(
    r: Seq<(usize, DistanceCmp)>,
    p: VecProvider<'_, T, D>,
    q: T,
    count: usize,
)
    requires
        r.len() == if count <= p.size() { count as nat } else { p.size() },
        forall|i: int, j: int| 0 <= i < j < r.len() ==> r[i].0 != r[j].0,
        forall|x: int| p.in_range(x) && !crate::topk::has_index(r, x) ==> r.len() == count && (count > 0
            ==> r[r.len() - 1].1.value <= p.query_dist(q, x)),
        count >= p.size() ==> forall|x: int| p.in_range(x) ==> crate::topk::has_index(r, x),
    ensures
        forall|x: usize| #[trigger] indices_of(r).count(x) <= 1,
        count >= p.size() ==> forall|x: usize| p.in_range(x as int) ==> #[trigger] indices_of(r).count(x) == 1,
        forall|x: usize| p.in_range(x as int) && #[trigger] indices_of(r).count(x) == 0 ==> beaten(r, p, q, count, x),
{
    let m = r.map_values(|e: (usize, DistanceCmp)| e.0);
    assert(m.no_duplicates()) by {
        assert forall|i: int, j: int| 0 <= i < m.len() && 0 <= j < m.len() && i != j implies m[i] != m[j] by {
            if i < j {
                assert(r[i].0 != r[j].0);
            } else {
                assert(r[j].0 != r[i].0);
            }
        }
    }
    m.lemma_multiset_has_no_duplicates();
    assert forall|x: usize| #[trigger] indices_of(r).count(x) <= 1 by {
    }
    assert forall|x: usize| crate::topk::has_index(r, x as int) implies #[trigger] indices_of(r).count(x) > 0 by {
        let t = choose|t: int| 0 <= t < r.len() && r[t].0 == x;
        assert(m[t] == x);
        assert(m.contains(x));
    }
}

/// The indices of a result sequence are pairwise distinct when no index
/// occurs twice in its multiset.
pub proof fn lemma_distinct_indices(r: Seq<(usize, DistanceCmp)>)
    requires
        forall|x: usize| #[trigger] indices_of(r).count(x) <= 1,
    ensures
        forall|i: int, j: int| 0 <= i < j < r.len() ==> r[i].0 != r[j].0,
{
    let s = r.map_values(|e: (usize, DistanceCmp)| e.0);
    assert forall|x: usize| s.to_multiset().contains(x) implies s.to_multiset().count(x) == 1 by {
        assert(indices_of(r).count(x) <= 1);
    }
    s.lemma_multiset_has_no_duplicates_conv();
    assert forall|i: int, j: int| 0 <= i < j < r.len() implies r[i].0 != r[j].0 by {
        assert(s[i] == r[i].0 && s[j] == r[j].0);
    }
}

impl FannTree {
    /// The `count` nearest indices to `q` found by branch-and-bound from the
    /// root, ascending by distance, each with its exact distance and each at
    /// most once. With `count` at least the tree's size, every index of the
    /// provider's range is returned.
    pub fn get_closest<T, D: Distance<T> + Copy, I: Info>(
        &self,
        count: usize,
        provider: &VecProvider<'_, T, D>,
        q: &T,
        info: &mut I,
    ) -> (r: Vec<(usize, DistanceCmp)>)
        requires
            provider.wf(),
            self.tree_wf(*provider),
        ensures
            results_ok(r@, *provider, *q, count),
            forall|t: int| 0 <= t < r@.len() ==> provider.in_range((#[trigger] r@[t]).0 as int),
            forall|i: int, j: int| 0 <= i < j < r@.len() ==> r@[i].0 != r@[j].0,
            r@.len() == if count <= provider.size() { count as nat } else { provider.size() },
            count >= provider.size() ==> forall|x: usize| provider.in_range(x as int)
                ==> #[trigger] indices_of(r@).count(x) == 1,
            provider.size() == 1 && count >= 1 ==> r@ == seq![
                (provider.spec_start(), DistanceCmp { value: provider.query_dist(*q, provider.spec_start() as int) }),
            ],
            shallow(self.root) && query_triangle(*provider, *q) ==> forall|x: usize| provider.in_range(x as int)
                && #[trigger] indices_of(r@).count(x) == 0 ==> beaten(r@, *provider, *q, count, x),
    {
        let root = StreamingElement::new(&self.root, provider, q, info);
        let mut roots: Vec<StreamingElement> = Vec::new();
        roots.push(root);
        proof {
            lemma_queue_push(Seq::empty(), root);
            assert(roots@ =~= Seq::<StreamingElement>::empty().push(root));
            assert(queue_indices(Seq::<StreamingElement>::empty()) =~= Multiset::<usize>::empty());
            assert(queue_indices(roots@) =~= self.root.indices());
            self.lemma_tree_size(*provider);
        }
        let r = compute_closest(roots, provider, q, count, info);
        proof {
            assert forall|x: usize| #[trigger] indices_of(r@).count(x) <= 1 by {
            }
            lemma_distinct_indices(r@);
            if shallow(self.root) && query_triangle(*provider, *q) {
                assert(entry_sound(roots@[0], *provider, *q));
                assert forall|x: usize| provider.in_range(x as int) && #[trigger] indices_of(r@).count(x) == 0
                    implies beaten(r@, *provider, *q, count, x) by {
                    assert(queue_indices(roots@).count(x) > 0);
                }
            }
            assert forall|t: int| 0 <= t < r@.len() implies provider.in_range((#[trigger] r@[t]).0 as int) by {
                let s = r@.map_values(|e: (usize, DistanceCmp)| e.0);
                assert(s[t] == r@[t].0);
                assert(s.to_multiset().count(r@[t].0) > 0);
            }
            let s = r@.map_values(|e: (usize, DistanceCmp)| e.0);
            assert(indices_of(r@).len() == r@.len());
            if provider.size() == 1 && count >= 1 {
                assert(provider.in_range(r@[0].0 as int));
                assert(r@ =~= seq![
                    (provider.spec_start(), DistanceCmp { value: provider.query_dist(*q, provider.spec_start() as int) }),
                ]);
            }
        }
        r
    }
}

} // verus!

verus! {

/// Every child of the node is a leaf.
pub open spec fn shallow(n: Node) -> bool {
    forall|i: int| 0 <= i < n.children@.len() ==> (#[trigger] n.children@[i]).node.children@.len() == 0
}

/// The kernel obeys the triangle inequality between the query and any two
/// corpus points: `d(q, a) <= d(q, b) + d(a, b)`.
pub open spec fn query_triangle<T, D: Distance<T> + Copy>(p: VecProvider<'_, T, D>, q: T) -> bool {
    forall|a: int, b: int| p.in_range(a) && p.in_range(b)
        ==> #[trigger] p.query_dist(q, a) <= p.query_dist(q, b) + #[trigger] p.pair_dist(a, b)
}

/// A queued entry whose bound is a true lower bound on its subtree's distances
/// for a reason that does not depend on the query's position: its node's
/// children are leaves, and an estimate is only ever held by a leaf.
pub open spec fn entry_sound<T, D: Distance<T> + Copy>(e: StreamingElement<'_>, p: VecProvider<'_, T, D>, q: T) -> bool {
    &&& shallow(*e.elem)
    &&& (e.dist matches MaybeDistance::DistMinEst(v) ==> e.elem.children@.len() == 0
        && v.value <= p.query_dist(q, e.elem.centroid_index as int))
}

/// `x` is beaten by every kept result: the results are full and the worst of
/// them is no farther than `x`.
pub open spec fn beaten<T, D: Distance<T> + Copy>(
    res: Seq<(usize, DistanceCmp)>,
    p: VecProvider<'_, T, D>,
    q: T,
    count: usize,
    x: usize,
) -> bool {
    &&& res.len() == count
    &&& (count > 0 ==> res[res.len() - 1].1.value <= p.query_dist(q, x as int))
}

pub proof fn lemma_queue_member<'a>(qs: Seq<StreamingElement<'a>>, x: usize)
    requires
        queue_indices(qs).count(x) > 0,
    ensures
        exists|i: int| 0 <= i < qs.len() && (#[trigger] qs[i]).elem.indices().count(x) > 0,
    decreases qs.len(),
{
    if qs.len() > 0 {
        if qs.last().elem.indices().count(x) > 0 {
            assert(qs[qs.len() - 1] == qs.last());
        } else {
            lemma_queue_member(qs.drop_last(), x);
            let i = choose|i: int| 0 <= i < qs.drop_last().len() && (#[trigger] qs.drop_last()[i]).elem.indices().count(x) > 0;
            assert(qs[i] == qs.drop_last()[i]);
        }
    }
}

/// After one result update (`res1` from `res0` and the candidate `(c, d)`):
/// the candidate, anything that left the results and anything already beaten
/// is beaten by the new results.
pub proof fn lemma_after_insert<T, D: Distance<T> + Copy>(
    res0: Seq<(usize, DistanceCmp)>,
    res1: Seq<(usize, DistanceCmp)>,
    p: VecProvider<'_, T, D>,
    q: T,
    count: usize,
    c: usize,
    d: DistanceCmp,
    x: usize,
    inserted: bool,
    pos: int,
)
    requires
        sorted(res0),
        res0.len() <= count,
        forall|t: int| 0 <= t < res0.len() ==> (#[trigger] res0[t]).1.value == p.query_dist(q, res0[t].0 as int),
        d.value == p.query_dist(q, c as int),
        inserted ==> 0 <= pos <= res0.len() && res1 == crate::topk::bounded(res0.insert(pos, (c, d)), count as int)
            && sorted(res0.insert(pos, (c, d))),
        inserted ==> forall|i: int| 0 <= i < pos ==> (#[trigger] res0[i]).1.value <= d.value,
        inserted && res0.len() == count && count > 0 ==> d.value < res0[res0.len() - 1].1.value,
        !inserted ==> res1 == res0 && res0.len() >= count && (res0.len() > 0 ==> res0[res0.len() - 1].1.value
            <= d.value),
        indices_of(res1).count(x) == 0,
        x == c || indices_of(res0).count(x) > 0 || beaten(res0, p, q, count, x),
    ensures
        beaten(res1, p, q, count, x),
{
    if inserted {
        let ins = res0.insert(pos, (c, d));
        crate::topk::lemma_indices_insert(res0, pos, (c, d));
        assert forall|t: int| 0 <= t < ins.len() implies (#[trigger] ins[t]).1.value == p.query_dist(q, ins[t].0 as int) by {
            if t < pos {
                assert(ins[t] == res0[t]);
            } else if t > pos {
                assert(ins[t] == res0[t - 1]);
            }
        }
        if x == c || indices_of(res0).count(x) > 0 {
            lemma_dropped_beaten(ins, p, q, count, x);
        } else if count > 0 {
            assert(res0.len() == count);
            if pos == count {
                assert(res0[count - 1].1.value <= d.value);
            }
            assert(ins[count as int] == res0[count - 1]);
            assert(res1[count - 1] == ins[count - 1]);
        }
    } else {
        if x != c && indices_of(res0).count(x) > 0 {
            assert(false);
        }
    }
}

/// From `a` to `b` the results stay full once full, the cut-off does not
/// grow, and every index that left is beaten by `b`.
pub open spec fn keeps<T, D: Distance<T> + Copy>(
    a: Seq<(usize, DistanceCmp)>,
    b: Seq<(usize, DistanceCmp)>,
    p: VecProvider<'_, T, D>,
    q: T,
    count: usize,
) -> bool {
    &&& a.len() == count ==> b.len() == count && (count > 0 ==> b[b.len() - 1].1.value <= a[a.len() - 1].1.value)
    &&& forall|x: usize| #![trigger indices_of(a).count(x)] indices_of(a).count(x) > 0 && indices_of(b).count(x) == 0
        ==> beaten(b, p, q, count, x)
}

pub proof fn lemma_keeps_refl<T, D: Distance<T> + Copy>(a: Seq<(usize, DistanceCmp)>, p: VecProvider<'_, T, D>, q: T, count: usize)
    ensures
        keeps(a, a, p, q, count),
{
}

pub proof fn lemma_keeps_beaten<T, D: Distance<T> + Copy>(
    a: Seq<(usize, DistanceCmp)>,
    b: Seq<(usize, DistanceCmp)>,
    p: VecProvider<'_, T, D>,
    q: T,
    count: usize,
    x: usize,
)
    requires
        keeps(a, b, p, q, count),
        beaten(a, p, q, count, x),
    ensures
        beaten(b, p, q, count, x),
{
}

pub proof fn lemma_keeps_trans<T, D: Distance<T> + Copy>(
    a: Seq<(usize, DistanceCmp)>,
    b: Seq<(usize, DistanceCmp)>,
    c: Seq<(usize, DistanceCmp)>,
    p: VecProvider<'_, T, D>,
    q: T,
    count: usize,
)
    requires
        keeps(a, b, p, q, count),
        keeps(b, c, p, q, count),
    ensures
        keeps(a, c, p, q, count),
{
    assert forall|x: usize| #![trigger indices_of(a).count(x)] indices_of(a).count(x) > 0 && indices_of(c).count(x) == 0
        implies beaten(c, p, q, count, x) by {
        if indices_of(b).count(x) == 0 {
            lemma_keeps_beaten(b, c, p, q, count, x);
        }
    }
}

/// One result update keeps the results (see [`keeps`]) and beats the
/// candidate if it did not stay.
pub proof fn lemma_insert_keeps<T, D: Distance<T> + Copy>(
    res0: Seq<(usize, DistanceCmp)>,
    res1: Seq<(usize, DistanceCmp)>,
    p: VecProvider<'_, T, D>,
    q: T,
    count: usize,
    c: usize,
    d: DistanceCmp,
    inserted: bool,
    pos: int,
)
    requires
        sorted(res0),
        res0.len() <= count,
        forall|t: int| 0 <= t < res0.len() ==> (#[trigger] res0[t]).1.value == p.query_dist(q, res0[t].0 as int),
        d.value == p.query_dist(q, c as int),
        inserted ==> 0 <= pos <= res0.len() && res1 == crate::topk::bounded(res0.insert(pos, (c, d)), count as int)
            && sorted(res0.insert(pos, (c, d))),
        inserted ==> forall|i: int| 0 <= i < pos ==> (#[trigger] res0[i]).1.value <= d.value,
        inserted && res0.len() == count && count > 0 ==> d.value < res0[res0.len() - 1].1.value,
        !inserted ==> res1 == res0 && res0.len() >= count && (res0.len() > 0 ==> res0[res0.len() - 1].1.value
            <= d.value),
    ensures
        keeps(res0, res1, p, q, count),
        indices_of(res1).count(c) == 0 ==> beaten(res1, p, q, count, c),
{
    assert forall|x: usize| #![trigger indices_of(res0).count(x)] indices_of(res0).count(x) > 0 && indices_of(res1).count(x) == 0
        implies beaten(res1, p, q, count, x) by {
        lemma_after_insert(res0, res1, p, q, count, c, d, x, inserted, pos);
    }
    if indices_of(res1).count(c) == 0 {
        lemma_after_insert(res0, res1, p, q, count, c, d, c, inserted, pos);
    }
    if inserted && res0.len() == count && count > 0 {
        let ins = res0.insert(pos, (c, d));
        if pos == count {
            assert(res0[count - 1].1.value <= d.value);
        }
        assert(ins[count as int] == res0[count - 1]);
        assert(res1[count - 1] == ins[count - 1]);
    }
}

pub proof fn lemma_final_beaten<T, D: Distance<T> + Copy>(
    node: &Node,
    res1: Seq<(usize, DistanceCmp)>,
    fin: Seq<(usize, DistanceCmp)>,
    p: VecProvider<'_, T, D>,
    q: T,
    count: usize,
    sound: bool,
)
    requires
        keeps(res1, fin, p, q, count),
        indices_of(res1).count(node.centroid_index) == 0 ==> beaten(res1, p, q, count, node.centroid_index),
        node.indices() == Multiset::singleton(node.centroid_index).add(children_indices(node.children@)),
        sound ==> forall|x: usize| #![trigger indices_of(fin).count(x)] children_indices(node.children@).count(x) > 0
            && indices_of(fin).count(x) == 0 ==> beaten(fin, p, q, count, x),
    ensures
        sound ==> forall|x: usize| node.indices().count(x) > 0 && #[trigger] indices_of(fin).count(x) == 0
            ==> beaten(fin, p, q, count, x),
{
    if sound {
        assert forall|x: usize| node.indices().count(x) > 0 && #[trigger] indices_of(fin).count(x) == 0
            implies beaten(fin, p, q, count, x) by {
            if x == node.centroid_index && indices_of(res1).count(x) == 0 {
                lemma_keeps_beaten(res1, fin, p, q, count, x);
            }
        }
    }
}

pub proof fn lemma_leaf_indices(n: Node)
    requires
        n.children@.len() == 0,
    ensures
        n.indices() =~= Multiset::singleton(n.centroid_index),
{
    assert(children_indices(n.children@) =~= Multiset::empty());
}

/// A sound entry's queue key bounds the distance of every index under it.
pub proof fn lemma_entry_bound<T, D: Distance<T> + Copy>(e: StreamingElement<'_>, p: VecProvider<'_, T, D>, q: T, x: usize)
    requires
        node_wf(*e.elem, p),
        e.known_ok(p, q),
        entry_sound(e, p, q),
        query_triangle(p, q),
        e.elem.indices().count(x) > 0,
    ensures
        e.spec_dist_min() <= p.query_dist(q, x as int),
{
    let n = *e.elem;
    let c = n.centroid_index;
    if x != c {
        crate::laws::lemma_children_member(n.children@, x);
        let i = choose|i: int| 0 <= i < n.children@.len() && (#[trigger] n.children@[i]).node.indices().count(x) > 0;
        let ch = n.children@[i];
        lemma_leaf_indices(ch.node);
        assert(x == ch.node.centroid_index);
        assert(node_wf(ch.node, p));
        assert(ch.node.radius.value == 0);
        crate::laws::lemma_max_reach_bounds(n.children@, i);
        assert(ch.center_dist.value <= n.radius.value);
        assert(p.query_dist(q, c as int) <= p.query_dist(q, x as int) + p.pair_dist(c as int, x as int));
    }
}

/// Inserting into a bounded buffer: whatever leaves it is beaten by what stays.
pub proof fn lemma_dropped_beaten<T, D: Distance<T> + Copy>(
    ins: Seq<(usize, DistanceCmp)>,
    p: VecProvider<'_, T, D>,
    q: T,
    count: usize,
    x: usize,
)
    requires
        sorted(ins),
        forall|t: int| 0 <= t < ins.len() ==> (#[trigger] ins[t]).1.value == p.query_dist(q, ins[t].0 as int),
        indices_of(ins).count(x) > 0,
        indices_of(crate::topk::bounded(ins, count as int)).count(x) == 0,
    ensures
        beaten(crate::topk::bounded(ins, count as int), p, q, count, x),
{
    crate::topk::lemma_count_has_index(ins, x);
    let t = choose|t: int| 0 <= t < ins.len() && ins[t].0 == x;
    let b = crate::topk::bounded(ins, count as int);
    if ins.len() <= count {
        assert(b[t].0 == x);
        assert(indices_of(b).count(x) > 0) by {
            let m = b.map_values(|e: (usize, DistanceCmp)| e.0);
            assert(m[t] == x);
            assert(m.contains(x));
        }
    } else {
        if t < count {
            assert(b[t].0 == x);
            let m = b.map_values(|e: (usize, DistanceCmp)| e.0);
            assert(m[t] == x);
            assert(m.contains(x));
        }
        if count > 0 {
            assert(b[count - 1] == ins[count - 1]);
        }
    }
}

} // verus!

verus! {

/// A child scheduled by the recursive search: its node, its distance to the
/// query and the lower bound of its subtree.
pub type Scheduled<'a> = (&'a Node, DistanceCmp, DistanceCmp);

/// All corpus indices under the scheduled nodes, with multiplicity.
pub open spec fn scheduled_indices(s: Seq<Scheduled<'_>>) -> Multiset<usize>
    decreases s.len(),
{
    if s.len() == 0 {
        Multiset::empty()
    } else {
        scheduled_indices(s.drop_last()).add(s.last().0.indices())
    }
}

pub proof fn lemma_scheduled_insert<'a>(s: Seq<Scheduled<'a>>, p: int, e: Scheduled<'a>)
    requires
        0 <= p <= s.len(),
    ensures
        scheduled_indices(s.insert(p, e)) == scheduled_indices(s).add(e.0.indices()),
    decreases s.len(),
{
    if p == s.len() {
        assert(s.insert(p, e).drop_last() =~= s);
    } else {
        lemma_scheduled_insert(s.drop_last(), p, e);
        assert(s.insert(p, e).drop_last() =~= s.drop_last().insert(p, e));
        assert(s.insert(p, e).last() == s.last());
        assert(scheduled_indices(s.insert(p, e)) =~= scheduled_indices(s).add(e.0.indices()));
    }
}

pub proof fn lemma_scheduled_take<'a>(s: Seq<Scheduled<'a>>, j: int)
    requires
        0 <= j < s.len(),
    ensures
        scheduled_indices(s.take(j + 1)) == scheduled_indices(s.take(j)).add(s[j].0.indices()),
{
    assert(s.take(j + 1).drop_last() =~= s.take(j));
}

pub proof fn lemma_children_prefix(cs: Seq<crate::tree::Child>, i: int)
    requires
        0 <= i < cs.len(),
    ensures
        children_indices(cs.take(i + 1)) == children_indices(cs.take(i)).add(cs[i].node.indices()),
        children_indices(cs.take(i + 1)).subset_of(children_indices(cs)),
    decreases cs.len() - i,
{
    assert(cs.take(i + 1).drop_last() =~= cs.take(i));
    if i + 1 < cs.len() {
        lemma_children_prefix(cs, i + 1);
    } else {
        assert(cs.take(i + 1) =~= cs);
    }
}

pub proof fn lemma_scheduled_prefix<'a>(s: Seq<Scheduled<'a>>, j: int)
    requires
        0 <= j < s.len(),
    ensures
        scheduled_indices(s.take(j + 1)) == scheduled_indices(s.take(j)).add(s[j].0.indices()),
        scheduled_indices(s.take(j + 1)).subset_of(scheduled_indices(s)),
    decreases s.len() - j,
{
    assert(s.take(j + 1).drop_last() =~= s.take(j));
    if j + 1 < s.len() {
        lemma_scheduled_prefix(s, j + 1);
    } else {
        assert(s.take(j + 1) =~= s);
    }
}

impl Node {
    /// Recursive branch-and-bound below this node, whose distance to the
    /// query is `own_dist`: keeps the centroid if it improves the results,
    /// then visits the children, skipping those whose bound exceeds the
    /// cut-off. Outside the ball the children are taken in their stored order
    /// with a bound from their centre distance; inside it, every child's
    /// distance is computed and they are taken by increasing lower bound.
    ///
    /// The results stay sorted, bounded by `count` and exact; they gain only
    /// indices of this subtree, and until they are full they gain all of them.
    /// Once full they stay full, the cut-off never grows, and every index that
    /// leaves them is beaten by what stays; when this node's children are
    /// leaves and the kernel obeys the triangle inequality, so is every index
    /// of the subtree that was not kept.
    pub fn get_closest<T, D: Distance<T> + Copy, I: Info>(
        &self,
        res: &mut Vec<(usize, DistanceCmp)>,
        own_dist: DistanceCmp,
        count: usize,
        provider: &VecProvider<'_, T, D>,
        q: &T,
        info: &mut I,
    )
        requires
            provider.wf(),
            node_wf(*self, *provider),
            own_dist.value == provider.query_dist(*q, self.centroid_index as int),
            results_ok(old(res)@, *provider, *q, count),
        ensures
            results_ok(final(res)@, *provider, *q, count),
            indices_of(final(res)@).subset_of(indices_of(old(res)@).add(self.indices())),
            final(res)@.len() < count ==> indices_of(final(res)@) == indices_of(old(res)@).add(self.indices()),
            final(res)@.len() >= old(res)@.len() || final(res)@.len() == count,
            keeps(old(res)@, final(res)@, *provider, *q, count),
            shallow(*self) && query_triangle(*provider, *q) ==> forall|x: usize| self.indices().count(x) > 0
                && #[trigger] indices_of(final(res)@).count(x) == 0 ==> beaten(final(res)@, *provider, *q, count, x),
        decreases self,
    {
        let ghost all = indices_of(res@).add(self.indices());
        let ghost res0 = res@;
        let ghost mut inserted = false;
        let ghost mut pos: int = 0;
        let maxd = max_dist(res, count);
        let c = self.centroid_index;
        proof {
            assert(self.indices().count(c) >= 1);
        }
        if res.len() < count || own_dist.value < maxd.value {
            let p = insert_bounded(res, (c, own_dist), count);
            proof {
                inserted = true;
                pos = p as int;
                lemma_indices_insert(res0, p as int, (c, own_dist));
                lemma_indices_bounded(res0.insert(p as int, (c, own_dist)), count as int);
                assert forall|t: int| 0 <= t < res@.len() implies (#[trigger] res@[t]).1.value
                    == provider.query_dist(*q, res@[t].0 as int) by {
                    let ins = res0.insert(p as int, (c, own_dist));
                    assert(res@[t] == ins[t]);
                    if t < p {
                        assert(ins[t] == res0[t]);
                    } else if t > p {
                        assert(ins[t] == res0[t - 1]);
                    }
                }
                if res0.len() < count {
                    assert(res@ == res0.insert(p as int, (c, own_dist)));
                }
            }
        }
        let ghost res1 = res@;
        let ghost sound = shallow(*self) && query_triangle(*provider, *q);
        proof {
            lemma_insert_keeps(res0, res1, *provider, *q, count, c, own_dist, inserted, pos);
            lemma_keeps_refl(res1, *provider, *q, count);
            assert(self.indices() =~= Multiset::singleton(c).add(children_indices(self.children@)));
            assert(indices_of(res1).subset_of(indices_of(res0).insert(c)));
            assert(res0.len() < count ==> indices_of(res1) == indices_of(res0).insert(c));
            assert(self.children@.take(0) =~= Seq::<crate::tree::Child>::empty());
        }
        let is_outer = self.radius.value < own_dist.value;
        info.log_scan(c, is_outer);
        let n = self.children.len();
        if is_outer {
            let mut i: usize = 0;
            while i < n
                invariant
                    provider.wf(),
                    node_wf(*self, *provider),
                    n == self.children@.len(),
                    i <= n,
                    results_ok(res@, *provider, *q, count),
                    all == indices_of(res0).add(self.indices()),
                    self.indices() == Multiset::singleton(c).add(children_indices(self.children@)),
                    indices_of(res@).subset_of(indices_of(res1).add(children_indices(self.children@.take(i as int)))),
                    res@.len() < count ==> indices_of(res@) == indices_of(res1).add(
                        children_indices(self.children@.take(i as int))),
                    res@.len() >= res1.len() || res@.len() == count,
                    res1.len() == count ==> res@.len() == count,
                    indices_of(res1).subset_of(indices_of(res0).insert(c)),
                    res0.len() < count ==> indices_of(res1) == indices_of(res0).insert(c),
                    res1.len() >= res0.len() || res1.len() == count,
                    res0.len() == count ==> res1.len() == count,
                    keeps(res0, res1, *provider, *q, count),
                    keeps(res1, res@, *provider, *q, count),
                    indices_of(res1).count(c) == 0 ==> beaten(res1, *provider, *q, count, c),
                    sound == (shallow(*self) && query_triangle(*provider, *q)),
                    own_dist.value == provider.query_dist(*q, c as int),
                    c == self.centroid_index,
                    sound ==> forall|x: usize| #![trigger indices_of(res@).count(x)]
                        children_indices(self.children@.take(i as int)).count(x) > 0
                        && indices_of(res@).count(x) == 0 ==> beaten(res@, *provider, *q, count, x),
                decreases n - i,
            {
                let child = &self.children[i];
                let ghost rb = res@;
                proof {
                    assert(node_wf(child.node, *provider));
                    assert(self.children@.take(i + 1).drop_last() =~= self.children@.take(i as int));
                    assert(self.children@.take(i + 1).last() == self.children@[i as int]);
                    lemma_children_prefix(self.children@, i as int);
                }
                let est = own_dist.sub(child.center_dist);
                let mx = max_dist(res, count);
                let ghost cc = child.node.centroid_index;
                proof {
                    if sound {
                        assert(self.children@[i as int].center_dist.value == provider.pair_dist(c as int, cc as int));
                        assert(child.node.children@.len() == 0);
                        lemma_leaf_indices(child.node);
                        assert(provider.in_range(cc as int));
                        assert(provider.in_range(c as int));
                        assert(provider.query_dist(*q, c as int)
                            <= provider.query_dist(*q, cc as int) + provider.pair_dist(c as int, cc as int));
                        assert(est.value <= provider.query_dist(*q, cc as int));
                    }
                }
                if !(mx.value < est.value) {
                    let cdist = provider.query_distance(q, child.node.centroid_index, info);
                    assert(decreases_to!(self => self.children@[i as int].node));
                    child.node.get_closest(res, cdist, count, provider, q, info);
                    proof {
                        lemma_keeps_trans(res1, rb, res@, *provider, *q, count);
                    }
                }
                proof {
                    lemma_keeps_refl(rb, *provider, *q, count);
                    if sound {
                        assert forall|x: usize| #![trigger indices_of(res@).count(x)]
                            children_indices(self.children@.take(i + 1)).count(x) > 0
                            && indices_of(res@).count(x) == 0 implies beaten(res@, *provider, *q, count, x) by {
                            if children_indices(self.children@.take(i as int)).count(x) > 0 {
                                if indices_of(rb).count(x) == 0 {
                                    lemma_keeps_beaten(rb, res@, *provider, *q, count, x);
                                }
                            } else {
                                assert(x == cc);
                            }
                        }
                    }
                }
                i = i + 1;
            }
            proof {
                assert(self.children@.take(n as int) =~= self.children@);
                lemma_keeps_trans(res0, res1, res@, *provider, *q, count);
                lemma_final_beaten(self, res1, res@, *provider, *q, count, sound);
                assert forall|x: usize| indices_of(res@).count(x) <= indices_of(res0).add(self.indices()).count(x) by {
                }
                if res@.len() < count {
                    assert(indices_of(res@) =~= indices_of(res0).add(self.indices()));
                }
            }
        } else {
            let mut inners: Vec<Scheduled> = Vec::new();
            let ghost mut pos_of: Seq<int> = Seq::empty();
            let mut i: usize = 0;
            while i < n
                invariant
                    provider.wf(),
                    node_wf(*self, *provider),
                    n == self.children@.len(),
                    i <= n,
                    pos_of.len() == inners@.len(),
                    forall|t: int| 0 <= t < inners@.len() ==> 0 <= #[trigger] pos_of[t] < n
                        && *inners@[t].0 == self.children@[pos_of[t]].node,
                    scheduled_indices(inners@) == children_indices(self.children@.take(i as int)),
                    forall|t: int| 0 <= t < inners@.len() ==> {
                        &&& node_wf(*(#[trigger] inners@[t]).0, *provider)
                        &&& inners@[t].1.value == provider.query_dist(*q, inners@[t].0.centroid_index as int)
                        &&& inners@[t].2.value == crate::dist::sat_sub(inners@[t].1.value, inners@[t].0.radius.value)
                    },
                decreases n - i,
            {
                let child = &self.children[i];
                assert(node_wf(child.node, *provider));
                let cdist = provider.query_distance(q, child.node.centroid_index, info);
                let cmin = child.node.get_dist_min(&cdist);
                let mut p: usize = 0;
                while p < inners.len() && inners[p].2.value <= cmin.value
                    invariant
                        p <= inners@.len(),
                    decreases inners@.len() - p,
                {
                    p = p + 1;
                }
                let ghost before = inners@;
                let ghost pos_before = pos_of;
                inners.insert(p, (&child.node, cdist, cmin));
                proof {
                    pos_of = pos_before.insert(p as int, i as int);
                    assert forall|t: int| 0 <= t < inners@.len() implies 0 <= #[trigger] pos_of[t] < n
                        && *inners@[t].0 == self.children@[pos_of[t]].node by {
                        if t < p {
                            assert(inners@[t] == before[t]);
                        } else if t > p {
                            assert(inners@[t] == before[t - 1]);
                        }
                    }
                    lemma_scheduled_insert(before, p as int, inners@[p as int]);
                    assert(inners@ == before.insert(p as int, inners@[p as int]));
                    assert(self.children@.take(i + 1).drop_last() =~= self.children@.take(i as int));
                    assert forall|t: int| 0 <= t < inners@.len() implies {
                        &&& node_wf(*(#[trigger] inners@[t]).0, *provider)
                        &&& inners@[t].1.value == provider.query_dist(*q, inners@[t].0.centroid_index as int)
                        &&& inners@[t].2.value == crate::dist::sat_sub(inners@[t].1.value, inners@[t].0.radius.value)
                    } by {
                        if t < p {
                            assert(inners@[t] == before[t]);
                        } else if t > p {
                            assert(inners@[t] == before[t - 1]);
                        }
                    }
                }
                i = i + 1;
            }
            assert(self.children@.take(n as int) =~= self.children@);
            let m = inners.len();
            let mut j: usize = 0;
            while j < m
                invariant
                    provider.wf(),
                    node_wf(*self, *provider),
                    n == self.children@.len(),
                    m == inners@.len(),
                    j <= m,
                    pos_of.len() == inners@.len(),
                    forall|t: int| 0 <= t < inners@.len() ==> 0 <= #[trigger] pos_of[t] < n
                        && *inners@[t].0 == self.children@[pos_of[t]].node,
                    scheduled_indices(inners@) == children_indices(self.children@),
                    forall|t: int| 0 <= t < inners@.len() ==> {
                        &&& node_wf(*(#[trigger] inners@[t]).0, *provider)
                        &&& inners@[t].1.value == provider.query_dist(*q, inners@[t].0.centroid_index as int)
                        &&& inners@[t].2.value == crate::dist::sat_sub(inners@[t].1.value, inners@[t].0.radius.value)
                    },
                    results_ok(res@, *provider, *q, count),
                    all == indices_of(res0).add(self.indices()),
                    self.indices() == Multiset::singleton(c).add(children_indices(self.children@)),
                    indices_of(res@).subset_of(indices_of(res1).add(scheduled_indices(inners@.take(j as int)))),
                    res@.len() < count ==> indices_of(res@) == indices_of(res1).add(
                        scheduled_indices(inners@.take(j as int))),
                    res@.len() >= res1.len() || res@.len() == count,
                    res1.len() == count ==> res@.len() == count,
                    indices_of(res1).subset_of(indices_of(res0).insert(c)),
                    res0.len() < count ==> indices_of(res1) == indices_of(res0).insert(c),
                    res1.len() >= res0.len() || res1.len() == count,
                    res0.len() == count ==> res1.len() == count,
                    keeps(res0, res1, *provider, *q, count),
                    keeps(res1, res@, *provider, *q, count),
                    indices_of(res1).count(c) == 0 ==> beaten(res1, *provider, *q, count, c),
                    sound == (shallow(*self) && query_triangle(*provider, *q)),
                    c == self.centroid_index,
                    sound ==> forall|x: usize| #![trigger indices_of(res@).count(x)]
                        scheduled_indices(inners@.take(j as int)).count(x) > 0
                        && indices_of(res@).count(x) == 0 ==> beaten(res@, *provider, *q, count, x),
                decreases m - j,
            {
                let (cnode, cdist, cmin) = inners[j];
                let ghost rb = res@;
                proof {
                    lemma_scheduled_take(inners@, j as int);
                    lemma_scheduled_prefix(inners@, j as int);
                    assert(inners@.take(m as int) =~= inners@);
                }
                let mx = max_dist(res, count);
                let ghost cc = cnode.centroid_index;
                proof {
                    if sound {
                        let u = pos_of[j as int];
                        assert(self.children@[u].node.children@.len() == 0);
                        assert(cnode.children@.len() == 0);
                        lemma_leaf_indices(*cnode);
                        assert(node_wf(*cnode, *provider));
                        assert(cnode.radius.value == 0);
                        assert(cmin.value <= provider.query_dist(*q, cc as int));
                    }
                }
                if !(mx.value < cmin.value) {
                    assert(decreases_to!(self => self.children@[pos_of[j as int]].node));
                    cnode.get_closest(res, cdist, count, provider, q, info);
                    proof {
                        lemma_keeps_trans(res1, rb, res@, *provider, *q, count);
                    }
                }
                proof {
                    lemma_keeps_refl(rb, *provider, *q, count);
                    if sound {
                        assert forall|x: usize| #![trigger indices_of(res@).count(x)]
                            scheduled_indices(inners@.take(j + 1)).count(x) > 0
                            && indices_of(res@).count(x) == 0 implies beaten(res@, *provider, *q, count, x) by {
                            if scheduled_indices(inners@.take(j as int)).count(x) > 0 {
                                if indices_of(rb).count(x) == 0 {
                                    lemma_keeps_beaten(rb, res@, *provider, *q, count, x);
                                }
                            } else {
                                assert(x == cc);
                            }
                        }
                    }
                }
                j = j + 1;
            }
            proof {
                assert(inners@.take(m as int) =~= inners@);
                lemma_keeps_trans(res0, res1, res@, *provider, *q, count);
                lemma_final_beaten(self, res1, res@, *provider, *q, count, sound);
                assert forall|x: usize| indices_of(res@).count(x) <= indices_of(res0).add(self.indices()).count(x) by {
                }
                if res@.len() < count {
                    assert(indices_of(res@) =~= indices_of(res0).add(self.indices()));
                }
            }
        }
    }
}

impl FannTree {
    /// The `count` nearest indices to `q` by the recursive form of the search
    /// ([`Node::get_closest`]), with the same guarantees on its result as the
    /// queue-driven [`FannTree::get_closest`].
    pub fn get_closest_recursive<T, D: Distance<T> + Copy, I: Info>(
        &self,
        count: usize,
        provider: &VecProvider<'_, T, D>,
        q: &T,
        info: &mut I,
    ) -> (r: Vec<(usize, DistanceCmp)>)
        requires
            provider.wf(),
            self.tree_wf(*provider),
        ensures
            results_ok(r@, *provider, *q, count),
            forall|t: int| 0 <= t < r@.len() ==> provider.in_range((#[trigger] r@[t]).0 as int),
            forall|i: int, j: int| 0 <= i < j < r@.len() ==> r@[i].0 != r@[j].0,
            r@.len() == if count <= provider.size() { count as nat } else { provider.size() },
            count >= provider.size() ==> forall|x: usize| provider.in_range(x as int)
                ==> #[trigger] indices_of(r@).count(x) == 1,
            shallow(self.root) && query_triangle(*provider, *q) ==> forall|x: usize| provider.in_range(x as int)
                && #[trigger] indices_of(r@).count(x) == 0 ==> beaten(r@, *provider, *q, count, x),
    {
        let mut res: Vec<(usize, DistanceCmp)> = Vec::new();
        let root_dist = provider.query_distance(q, self.root.centroid_index, info);
        proof {
            assert(indices_of(res@) =~= Multiset::<usize>::empty());
            assert(indices_of(res@).add(self.root.indices()) =~= self.root.indices());
            self.lemma_tree_size(*provider);
        }
        self.root.get_closest(&mut res, root_dist, count, provider, q, &mut *info);
        proof {
            assert(indices_of(res@).subset_of(self.root.indices()));
            assert forall|x: usize| #[trigger] indices_of(res@).count(x) <= 1 by {
            }
            lemma_distinct_indices(res@);
            assert forall|t: int| 0 <= t < res@.len() implies provider.in_range((#[trigger] res@[t]).0 as int) by {
                let s = res@.map_values(|e: (usize, DistanceCmp)| e.0);
                assert(s[t] == res@[t].0);
                assert(s.to_multiset().count(res@[t].0) > 0);
            }
            assert(indices_of(res@).len() == res@.len());
            lemma_subset_len(self.root.indices(), indices_of(res@));
            if res@.len() == count && count >= provider.size() {
                lemma_subset_same_len(self.root.indices(), indices_of(res@));
            }
            if shallow(self.root) && query_triangle(*provider, *q) {
                assert forall|x: usize| provider.in_range(x as int) && #[trigger] indices_of(res@).count(x) == 0
                    implies beaten(res@, *provider, *q, count, x) by {
                    assert(self.root.indices().count(x) > 0);
                }
            }
        }
        res
    }
}

} // verus!
