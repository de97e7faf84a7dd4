//! Properties of built trees that hold for kernels obeying the metric laws.
use vstd::prelude::*;
use crate::base::Distance;
use crate::dist::sat_add;
use crate::provider::VecProvider;
use crate::forest::slab_count;
use crate::tree::{children_indices, covers_range, max_reach, node_wf, Child, Node};

verus! {

broadcast use vstd::seq_lib::group_to_multiset_ensures;

/// The kernel gives zero between a corpus point and itself.
pub open spec fn identity_zero<T, D: Distance<T> + Copy>(p: VecProvider<'_, T, D>) -> bool {
    forall|a: int| p.in_range(a) ==> #[trigger] p.pair_dist(a, a) == 0
}

/// The kernel is symmetric on corpus points.
pub open spec fn symmetric<T, D: Distance<T> + Copy>(p: VecProvider<'_, T, D>) -> bool {
    forall|a: int, b: int| p.in_range(a) && p.in_range(b) ==> #[trigger] p.dist_spec(a, b) == p.dist_spec(b, a)
}

/// The kernel obeys the triangle inequality on corpus points.
pub open spec fn triangle<T, D: Distance<T> + Copy>(p: VecProvider<'_, T, D>) -> bool {
    forall|a: int, b: int, c: int| p.in_range(a) && p.in_range(b) && p.in_range(c)
        ==> #[trigger] p.pair_dist(a, c) <= p.pair_dist(a, b) + #[trigger] p.pair_dist(b, c)
}

pub proof fn lemma_max_reach_bounds(cs: Seq<Child>, i: int)
    requires
        0 <= i < cs.len(),
    ensures
        sat_add(cs[i].center_dist.value, cs[i].node.radius.value) <= max_reach(cs),
    decreases cs.len(),
{
    if i < cs.len() - 1 {
        lemma_max_reach_bounds(cs.drop_last(), i);
    }
}

pub proof fn lemma_children_member(cs: Seq<Child>, x: usize)
    requires
        children_indices(cs).count(x) > 0,
    ensures
        exists|i: int| 0 <= i < cs.len() && (#[trigger] cs[i]).node.indices().count(x) > 0,
    decreases cs.len(),
{
    if cs.len() > 0 {
        if cs.last().node.indices().count(x) > 0 {
            assert(cs[cs.len() - 1] == cs.last());
        } else {
            lemma_children_member(cs.drop_last(), x);
            let i = choose|i: int| 0 <= i < cs.drop_last().len() && (#[trigger] cs.drop_last()[i]).node.indices().count(x) > 0;
            assert(cs[i] == cs.drop_last()[i]);
        }
    }
}

/// Every index of a well-formed node's subtree lies in the provider's range.
pub proof fn lemma_indices_in_range<T, D: Distance<T> + Copy>(n: Node, p: VecProvider<'_, T, D>, x: usize)
    requires
        node_wf(n, p),
        n.indices().count(x) > 0,
    ensures
        p.in_range(x as int),
    decreases n,
{
    if x != n.centroid_index {
        lemma_children_member(n.children@, x);
        let i = choose|i: int| 0 <= i < n.children@.len() && (#[trigger] n.children@[i]).node.indices().count(x) > 0;
        lemma_indices_in_range(n.children@[i].node, p, x);
    }
}

/// Coverage: under a kernel that gives zero on identical points and obeys the
/// triangle inequality, every index in a built node's subtree lies within the
/// node's radius of its centroid.
pub proof fn lemma_radius_covers<T, D: Distance<T> + Copy>(n: Node, p: VecProvider<'_, T, D>, x: usize)
    requires
        node_wf(n, p),
        identity_zero(p),
        triangle(p),
        n.indices().count(x) > 0,
    ensures
        p.pair_dist(n.centroid_index as int, x as int) <= n.radius.value,
    decreases n,
{
    if x == n.centroid_index {
        assert(p.pair_dist(x as int, x as int) == 0);
    } else {
        lemma_children_member(n.children@, x);
        let i = choose|i: int| 0 <= i < n.children@.len() && (#[trigger] n.children@[i]).node.indices().count(x) > 0;
        let c = n.children@[i];
        lemma_radius_covers(c.node, p, x);
        lemma_indices_in_range(c.node, p, x);
        lemma_max_reach_bounds(n.children@, i);
        assert(node_wf(c.node, p));
        assert(p.in_range(n.centroid_index as int));
        assert(p.in_range(c.node.centroid_index as int));
        assert(p.in_range(x as int));
        assert(p.pair_dist(n.centroid_index as int, x as int) <= p.pair_dist(n.centroid_index as int,
            c.node.centroid_index as int) + p.pair_dist(c.node.centroid_index as int, x as int));
    }
}

/// Child-centre exactness: under a symmetric kernel, each child record holds
/// the kernel's distance from the parent's centroid to the child's centroid.
pub proof fn lemma_center_exact<T, D: Distance<T> + Copy>(n: Node, p: VecProvider<'_, T, D>, i: int)
    requires
        node_wf(n, p),
        symmetric(p),
        0 <= i < n.children@.len(),
    ensures
        n.children@[i].center_dist.value == p.dist_spec(
            n.centroid_index as int,
            n.children@[i].node.centroid_index as int,
        ),
{
    let c = n.children@[i];
    assert(node_wf(c.node, p));
    assert(p.in_range(c.node.centroid_index as int));
    assert(p.dist_spec(n.centroid_index as int, c.node.centroid_index as int) == p.dist_spec(
        c.node.centroid_index as int,
        n.centroid_index as int,
    ));
}

/// Residual-only forests: a range shorter than the minimum slab size yields
/// no slab at all (its indices are all left to the exhaustive tail scan).
pub proof fn lemma_residual_only(n: nat, min_tree: nat, max_tree: nat)
    requires
        1 <= min_tree <= max_tree,
        n < min_tree,
    ensures
        slab_count(n, min_tree, max_tree) == 0,
{
    vstd::arithmetic::div_mod::lemma_fundamental_div_mod_converse(n as int, max_tree as int, 0, n as int);
}

/// A tree over a single index is a single leaf.
pub proof fn lemma_single_node<T, D: Distance<T> + Copy>(n: Node, p: VecProvider<'_, T, D>)
    requires
        p.wf(),
        p.size() == 1,
        covers_range(n, p),
    ensures
        n.centroid_index == p.spec_start(),
        n.children@.len() == 0,
{
    let s = p.spec_start();
    assert(n.indices().count(n.centroid_index) > 0);
    assert(n.centroid_index == s);
    if n.children@.len() > 0 {
        let cs = n.children@;
        assert(cs.last().node.indices().count(cs.last().node.centroid_index) > 0);
        assert(children_indices(cs).count(cs.last().node.centroid_index) > 0);
        let c = cs.last().node.centroid_index;
        assert(n.indices().count(c) >= 1 + if c == s { 1nat } else { 0nat });
    }
}

} // verus!

verus! {

/// Two index-distinct results of `count` entries (or all `n` candidates),
/// each of which beats every index it leaves out, hold the same indices when
/// no two corpus points lie at the same distance from the query.
///
/// This is the agreement of branch-and-bound search with the exhaustive scan:
/// the tree search ([`crate::tree::FannTree::get_closest`]) and the forest
/// search ([`crate::forest::FannForest::get_closest`]) guarantee their side
/// for trees whose root's children are leaves (as trees built without a
/// maximum node size are) under a kernel obeying the triangle inequality
/// with the query, and the scan ([`crate::provider::VecProvider::get_closest`])
/// guarantees it always. Deeper trees are pruned through bounds on their
/// children's centroids, which need not bound the children's subtrees, and
/// carry no such guarantee.
pub proof fn lemma_search_matches_scan<T, D: Distance<T> + Copy>(
    r1: Seq<(usize, crate::dist::DistanceCmp)>,
    r2: Seq<(usize, crate::dist::DistanceCmp)>,
    p: VecProvider<'_, T, D>,
    q: T,
    count: usize,
)
    requires
        p.wf(),
        forall|a: int, b: int| p.in_range(a) && p.in_range(b) && a != b ==> #[trigger] p.query_dist(q, a)
            != #[trigger] p.query_dist(q, b),
        r1.len() == if count <= p.size() { count as nat } else { p.size() },
        r2.len() == if count <= p.size() { count as nat } else { p.size() },
        forall|t: int| 0 <= t < r1.len() ==> p.in_range((#[trigger] r1[t]).0 as int)
            && r1[t].1.value == p.query_dist(q, r1[t].0 as int),
        forall|t: int| 0 <= t < r2.len() ==> p.in_range((#[trigger] r2[t]).0 as int)
            && r2[t].1.value == p.query_dist(q, r2[t].0 as int),
        crate::topk::sorted(r1),
        crate::topk::sorted(r2),
        forall|i: int, j: int| 0 <= i < j < r1.len() ==> r1[i].0 != r1[j].0,
        forall|i: int, j: int| 0 <= i < j < r2.len() ==> r2[i].0 != r2[j].0,
        forall|x: int| p.in_range(x) && !crate::topk::has_index(r1, x) ==> r1.len() == count
            && (count > 0 ==> r1[r1.len() - 1].1.value <= p.query_dist(q, x)),
        forall|x: int| p.in_range(x) && !crate::topk::has_index(r2, x) ==> r2.len() == count
            && (count > 0 ==> r2[r2.len() - 1].1.value <= p.query_dist(q, x)),
    ensures
        forall|x: int| crate::topk::has_index(r1, x) <==> crate::topk::has_index(r2, x),
{
    assert forall|x: int| crate::topk::has_index(r1, x) implies crate::topk::has_index(r2, x) by {
        lemma_one_side(r1, r2, p, q, count, x);
    }
    assert forall|x: int| crate::topk::has_index(r2, x) implies crate::topk::has_index(r1, x) by {
        lemma_one_side(r2, r1, p, q, count, x);
    }
}

proof fn lemma_one_side<T, D: Distance<T> + Copy>(
    r1: Seq<(usize, crate::dist::DistanceCmp)>,
    r2: Seq<(usize, crate::dist::DistanceCmp)>,
    p: VecProvider<'_, T, D>,
    q: T,
    count: usize,
    x: int,
)
    requires
        p.wf(),
        forall|a: int, b: int| p.in_range(a) && p.in_range(b) && a != b ==> #[trigger] p.query_dist(q, a)
            != #[trigger] p.query_dist(q, b),
        r1.len() == r2.len(),
        forall|t: int| 0 <= t < r1.len() ==> p.in_range((#[trigger] r1[t]).0 as int)
            && r1[t].1.value == p.query_dist(q, r1[t].0 as int),
        forall|t: int| 0 <= t < r2.len() ==> p.in_range((#[trigger] r2[t]).0 as int)
            && r2[t].1.value == p.query_dist(q, r2[t].0 as int),
        crate::topk::sorted(r1),
        crate::topk::sorted(r2),
        forall|i: int, j: int| 0 <= i < j < r1.len() ==> r1[i].0 != r1[j].0,
        forall|i: int, j: int| 0 <= i < j < r2.len() ==> r2[i].0 != r2[j].0,
        forall|y: int| p.in_range(y) && !crate::topk::has_index(r1, y) ==> r1.len() == count
            && (count > 0 ==> r1[r1.len() - 1].1.value <= p.query_dist(q, y)),
        forall|y: int| p.in_range(y) && !crate::topk::has_index(r2, y) ==> r2.len() == count
            && (count > 0 ==> r2[r2.len() - 1].1.value <= p.query_dist(q, y)),
        crate::topk::has_index(r1, x),
    ensures
        crate::topk::has_index(r2, x),
{
    if !crate::topk::has_index(r2, x) {
        let t = choose|t: int| 0 <= t < r1.len() && r1[t].0 == x;
        assert(p.in_range(x));
        // Some index of r2 is missing from r1, else r2's indices would all be
        // among r1's and, with equal lengths, fill it (x included).
        let m1 = r1.map_values(|e: (usize, crate::dist::DistanceCmp)| e.0);
        let m2 = r2.map_values(|e: (usize, crate::dist::DistanceCmp)| e.0);
        assert(m1.no_duplicates()) by {
            assert forall|i: int, j: int| 0 <= i < m1.len() && 0 <= j < m1.len() && i != j implies m1[i] != m1[j] by {
                if i < j {
                    assert(r1[i].0 != r1[j].0);
                } else {
                    assert(r1[j].0 != r1[i].0);
                }
            }
        }
        assert(m2.no_duplicates()) by {
            assert forall|i: int, j: int| 0 <= i < m2.len() && 0 <= j < m2.len() && i != j implies m2[i] != m2[j] by {
                if i < j {
                    assert(r2[i].0 != r2[j].0);
                } else {
                    assert(r2[j].0 != r2[i].0);
                }
            }
        }
        if forall|u: int| 0 <= u < r2.len() ==> crate::topk::has_index(r1, #[trigger] r2[u].0 as int) {
            assert(m2.to_multiset().subset_of(m1.to_multiset())) by {
                assert forall|v: usize| m2.to_multiset().count(v) <= m1.to_multiset().count(v) by {
                    m2.lemma_multiset_has_no_duplicates();
                    m1.lemma_multiset_has_no_duplicates();
                    if m2.to_multiset().count(v) > 0 {
                        let u = choose|u: int| 0 <= u < m2.len() && m2[u] == v;
                        assert(r2[u].0 == v);
                        assert(crate::topk::has_index(r1, v as int));
                        let w = choose|w: int| 0 <= w < r1.len() && r1[w].0 == v as int;
                        assert(m1[w] == v);
                    }
                }
            }
            crate::search::lemma_subset_same_len(m1.to_multiset(), m2.to_multiset());
            assert(m1[t] == x);
            assert(m2.to_multiset().count(x as usize) > 0);
            let u = choose|u: int| 0 <= u < m2.len() && m2[u] == x as usize;
            assert(r2[u].0 == x);
        } else {
            let u = choose|u: int| 0 <= u < r2.len() && !crate::topk::has_index(r1, #[trigger] r2[u].0 as int);
            let y = r2[u].0 as int;
            assert(p.in_range(y));
            assert(r1.len() == count && count > 0);
            assert(r1[t].1.value <= r1[r1.len() - 1].1.value);
            assert(r2[u].1.value <= r2[r2.len() - 1].1.value);
            assert(p.query_dist(q, x) == p.query_dist(q, y));
        }
    }
}

} // verus!
