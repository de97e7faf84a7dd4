//! The forest: the corpus cut into fixed-size slabs, one tree per slab, and a
//! short unindexed tail searched exhaustively.
use vstd::prelude::*;
use rayon::slice::ParallelSliceMut;
use vstd::string::StringExecFns;
use crate::base::{Cache, Distance, Info};
use crate::cache::InvalidParameterError;
use crate::dist::DistanceCmp;
use crate::provider::VecProvider;
use crate::topk::{has_index, sorted};
use crate::tree::{FannBuildParams, FannTree};

verus! {

broadcast use vstd::seq_lib::group_to_multiset_ensures;

/// A loaded tree was built for another provider or kernel.
#[derive(Clone, Copy, Debug, PartialEq, Eq, Structural)]
pub struct MisconfiguredTreeError;

/// A tree was asked for before it was built.
#[derive(Clone, Copy, Debug, PartialEq, Eq, Structural)]
pub struct TreeNotBuiltError;

/// Some pair of `s` has first component `x`.
pub open spec fn has_pair(s: Seq<(usize, u64)>, x: int) -> bool {
    exists|t: int| 0 <= t < s.len() && s[t].0 == x
}

/// Number of pairs of `s` whose second component is at most `v`.
pub open spec fn count_le(s: Seq<(usize, u64)>, v: u64) -> nat
    decreases s.len(),
{
    if s.len() == 0 {
        0
    } else {
        count_le(s.drop_last(), v) + if s.last().1 <= v { 1nat } else { 0nat }
    }
}

pub proof fn lemma_count_le_append(s: Seq<(usize, u64)>, t: Seq<(usize, u64)>, v: u64)
    ensures
        count_le(s + t, v) == count_le(s, v) + count_le(t, v),
    decreases t.len(),
{
    if t.len() == 0 {
        assert(s + t =~= s);
    } else {
        lemma_count_le_append(s, t.drop_last(), v);
        assert((s + t).drop_last() =~= s + t.drop_last());
    }
}

pub proof fn lemma_count_le_all(s: Seq<(usize, u64)>, v: u64)
    requires
        forall|t: int| 0 <= t < s.len() ==> (#[trigger] s[t]).1 <= v,
    ensures
        count_le(s, v) == s.len(),
    decreases s.len(),
{
    if s.len() > 0 {
        lemma_count_le_all(s.drop_last(), v);
    }
}

pub proof fn lemma_count_le_bound(s: Seq<(usize, u64)>, v: u64)
    ensures
        count_le(s, v) <= s.len(),
    decreases s.len(),
{
    if s.len() > 0 {
        lemma_count_le_bound(s.drop_last(), v);
    }
}

pub proof fn lemma_count_le_remove(s: Seq<(usize, u64)>, i: int, v: u64)
    requires
        0 <= i < s.len(),
    ensures
        count_le(s, v) == count_le(s.remove(i), v) + if s[i].1 <= v { 1nat } else { 0nat },
    decreases s.len(),
{
    if i == s.len() - 1 {
        assert(s.remove(i) =~= s.drop_last());
    } else {
        lemma_count_le_remove(s.drop_last(), i, v);
        assert(s.remove(i).drop_last() =~= s.drop_last().remove(i));
        assert(s.remove(i).last() == s.last());
    }
}

/// Reordering keeps the count.
pub proof fn lemma_count_le_perm(s1: Seq<(usize, u64)>, s2: Seq<(usize, u64)>, v: u64)
    requires
        s1.to_multiset() == s2.to_multiset(),
    ensures
        count_le(s1, v) == count_le(s2, v),
    decreases s1.len(),
{
    vstd::seq_lib::to_multiset_len(s1);
    vstd::seq_lib::to_multiset_len(s2);
    if s1.len() > 0 {
        let e = s1.last();
        assert(s1.to_multiset().count(e) > 0);
        assert(s2.contains(e));
        let i = choose|i: int| 0 <= i < s2.len() && s2[i] == e;
        vstd::seq_lib::to_multiset_remove(s2, i);
        vstd::seq_lib::to_multiset_remove(s1, s1.len() - 1);
        assert(s1.remove(s1.len() - 1) =~= s1.drop_last());
        lemma_count_le_perm(s1.drop_last(), s2.remove(i), v);
        lemma_count_le_remove(s2, i, v);
    }
}

/// In an ascending sequence holding at least `k` pairs of key at most `v`,
/// the `k`-th key is at most `v`.
pub proof fn lemma_count_le_sorted(s: Seq<(usize, u64)>, v: u64, k: int)
    requires
        sorted_pairs(s),
        1 <= k,
        count_le(s, v) >= k,
    ensures
        k <= s.len(),
        s[k - 1].1 <= v,
{
    lemma_count_le_bound(s, v);
    if s[k - 1].1 > v {
        lemma_count_le_above(s, v, k - 1);
    }
}

pub proof fn lemma_count_le_above(s: Seq<(usize, u64)>, v: u64, m: int)
    requires
        0 <= m,
        forall|j: int| m <= j < s.len() ==> (#[trigger] s[j]).1 > v,
    ensures
        count_le(s, v) <= m,
    decreases s.len(),
{
    if s.len() > m {
        lemma_count_le_above(s.drop_last(), v, m);
    } else {
        lemma_count_le_bound(s, v);
    }
}

/// Ascending by the second component.
pub open spec fn sorted_pairs(s: Seq<(usize, u64)>) -> bool {
    forall|i: int, j: int| 0 <= i < j < s.len() ==> s[i].1 <= s[j].1
}

/// `s` with `e` inserted after every pair whose key is at most `e`'s.
pub open spec fn insert_after_equal(s: Seq<(usize, u64)>, e: (usize, u64)) -> Seq<(usize, u64)> {
    s.insert(s.filter(|x: (usize, u64)| x.1 <= e.1).len() as int, e)
}

/// The stable sort of `s` by key: equal keys keep their order in `s`.
pub open spec fn stable_by_dist(s: Seq<(usize, u64)>) -> Seq<(usize, u64)>
    decreases s.len(),
{
    if s.len() == 0 {
        s
    } else {
        insert_after_equal(stable_by_dist(s.drop_last()), s.last())
    }
}

/// Relies on rayon's `par_sort_by_key`, a stable sort: the same pairs,
/// reordered so that the keys (second components) ascend, equal keys in
/// their original order.
#[verifier::external_body]
fn par_sort_by_dist(v: &mut Vec<(usize, u64)>)
    ensures
        final(v)@.to_multiset() == old(v)@.to_multiset(),
        sorted_pairs(final(v)@),
        final(v)@ == stable_by_dist(old(v)@),
{
    v.par_sort_by_key(|e| e.1);
}

/// Decimal digits of `x`, most significant first.
pub open spec fn decimal(x: nat) -> Seq<char>
    decreases x,
{
    if x < 10 {
        seq![digit_char(x)]
    } else {
        decimal(x / 10).push(digit_char(x % 10))
    }
}

pub open spec fn digit_char(d: nat) -> char {
    if d == 0 { '0' } else if d == 1 { '1' } else if d == 2 { '2' } else if d == 3 { '3' } else if d == 4 { '4' }
    else if d == 5 { '5' } else if d == 6 { '6' } else if d == 7 { '7' } else if d == 8 { '8' } else { '9' }
}

/// The blob name of the slab starting at `start` with `size` indices.
pub open spec fn tree_name(start: nat, size: nat) -> Seq<char> {
    seq!['t', 'r', 'e', 'e'] + decimal(start) + seq!['-'] + decimal(size)
}

/// The one-character string of a decimal digit.
fn digit_str(d: usize) -> (r: &'static str)
    requires
        d < 10,
    ensures
        r@ == seq![digit_char(d as nat)],
{
    proof {
        reveal_strlit("0");
        reveal_strlit("1");
        reveal_strlit("2");
        reveal_strlit("3");
        reveal_strlit("4");
        reveal_strlit("5");
        reveal_strlit("6");
        reveal_strlit("7");
        reveal_strlit("8");
        reveal_strlit("9");
    }
    if d == 0 {
        "0"
    } else if d == 1 {
        "1"
    } else if d == 2 {
        "2"
    } else if d == 3 {
        "3"
    } else if d == 4 {
        "4"
    } else if d == 5 {
        "5"
    } else if d == 6 {
        "6"
    } else if d == 7 {
        "7"
    } else if d == 8 {
        "8"
    } else {
        "9"
    }
}

/// Appends the decimal digits of `x`.
fn push_decimal(out: &mut String, x: usize)
    ensures
        final(out)@ == old(out)@ + decimal(x as nat),
    decreases x,
{
    if x < 10 {
        out.append(digit_str(x));
    } else {
        push_decimal(out, x / 10);
        out.append(digit_str(x % 10));
        assert(final(out)@ =~= old(out)@ + decimal(x as nat));
    }
}

/// The blob name `tree{start}-{size}`.
fn format_tree_name(start: usize, size: usize) -> (r: String)
    ensures
        r@ == tree_name(start as nat, size as nat),
{
    proof {
        reveal_strlit("tree");
        reveal_strlit("-");
    }
    let mut r = String::from_str("tree");
    push_decimal(&mut r, start);
    r.append("-");
    push_decimal(&mut r, size);
    assert(r@ =~= tree_name(start as nat, size as nat));
    r
}

/// One slab's provider and, once built or loaded, its tree.
pub struct Fann<'a, T, D> {
    provider: VecProvider<'a, T, D>,
    root: Option<FannTree>,
    is_dirty: bool,
    checked: bool,
}

impl<'a, T, D: Distance<T> + Copy> Fann<'a, T, D> {
    pub closed spec fn spec_provider(&self) -> VecProvider<'a, T, D> {
        self.provider
    }

    pub closed spec fn spec_root(&self) -> Option<FannTree> {
        self.root
    }

    pub closed spec fn spec_dirty(&self) -> bool {
        self.is_dirty
    }

    /// The held tree was found to describe the slab when it was adopted.
    pub closed spec fn spec_checked(&self) -> bool {
        self.checked
    }

    /// The provider is well formed, and a held tree found to describe the
    /// slab does describe it.
    pub open spec fn wf(&self) -> bool {
        &&& self.spec_provider().wf()
        &&& self.spec_checked() ==> (self.spec_root() matches Some(t) ==> t.tree_wf(self.spec_provider()))
    }

    pub fn new(provider: VecProvider<'a, T, D>) -> (r: Self)
        ensures
            r.spec_provider() == provider,
            r.spec_root() is None,
            !r.spec_dirty(),
    {
        Fann { provider, root: None, is_dirty: false, checked: false }
    }

    /// Builds the slab's tree; a newly built tree is dirty.
    pub fn build<C: Cache, I: Info>(&mut self, params: &FannBuildParams, cache: &mut C, info: &mut I)
        requires
            old(self).wf(),
            old(self).spec_provider().size() > 0,
            old(self).spec_provider().cache_ok(old(cache).contents()),
        ensures
            final(self).wf(),
            final(self).spec_provider() == old(self).spec_provider(),
            final(self).spec_root() is Some,
            final(self).spec_dirty(),
            final(self).spec_checked(),
            params.max_node_size is None ==> final(self).flat(),
            final(self).spec_provider().cache_ok(final(cache).contents()),
    {
        let t = FannTree::build(&self.provider, params, cache, info);
        self.root = Some(t);
        self.is_dirty = true;
        self.checked = true;
    }

    pub fn is_ready(&self) -> (r: bool)
        ensures
            r == self.spec_root() is Some,
    {
        self.root.is_some()
    }

    pub fn is_dirty(&self) -> (r: bool)
        ensures
            r == self.spec_dirty(),
    {
        self.is_dirty
    }

    pub fn provider(&self) -> (r: &VecProvider<'a, T, D>)
        ensures
            *r == self.spec_provider(),
    {
        &self.provider
    }

    pub fn get_tree(&self) -> (r: &Option<FannTree>)
        ensures
            *r == self.spec_root(),
    {
        &self.root
    }

    pub fn clear_tree(&mut self)
        requires
            old(self).wf(),
        ensures
            final(self).wf(),
            final(self).spec_root() is None,
            final(self).spec_provider() == old(self).spec_provider(),
            final(self).spec_dirty() == old(self).spec_dirty(),
    {
        self.root = None;
    }

    /// A tree is accepted for this slab when the provider check is skipped or
    /// the tree records this slab's kernel name and fingerprint.
    pub open spec fn accepts(&self, tree: FannTree, ignore_provider: bool) -> bool {
        ignore_provider || (tree.distance_name@ == self.spec_provider().spec_distance().name_of()@
            && tree.hash@ == self.spec_provider().fingerprint_spec())
    }

    /// The slab's tree was found to describe the slab and has only leaves
    /// below its root.
    pub open spec fn flat(&self) -> bool {
        self.spec_checked() && (self.spec_root() matches Some(t) && crate::search::shallow(t.root))
    }

    /// Adopts a tree, recording whether it describes the slab (a tree that
    /// does not is never searched; the slab is then scanned exhaustively).
    pub fn raw_set_tree(&mut self, tree: FannTree, is_dirty: bool)
        requires
            old(self).wf(),
        ensures
            final(self).wf(),
            final(self).spec_provider() == old(self).spec_provider(),
            final(self).spec_root() == Some(tree),
            final(self).spec_dirty() == is_dirty,
            final(self).spec_checked() == tree.tree_wf(old(self).spec_provider()),
    {
        let mut info = crate::info::no_info();
        let ok = tree.check(&self.provider, &mut info);
        self.root = Some(tree);
        self.is_dirty = is_dirty;
        self.checked = ok;
    }

    /// Adopts a tree obtained elsewhere (typically loaded from storage). The
    /// tree's recorded kernel name and provider fingerprint must match this
    /// slab's unless `ignore_provider` is set; otherwise nothing changes.
    pub fn set_tree(&mut self, tree: FannTree, ignore_provider: bool, is_dirty: bool) -> (r: Result<
        (),
        MisconfiguredTreeError,
    >)
        requires
            old(self).wf(),
        ensures
            final(self).wf(),
            final(self).spec_provider() == old(self).spec_provider(),
            r is Ok <==> old(self).accepts(tree, ignore_provider),
            r is Ok ==> final(self).spec_root() == Some(tree) && final(self).spec_dirty() == is_dirty
                && final(self).spec_checked() == tree.tree_wf(old(self).spec_provider()),
            r is Err ==> *final(self) == *old(self),
    {
        if !ignore_provider {
            let dname = self.provider.distance().name();
            if tree.distance_name != dname {
                return Err(MisconfiguredTreeError);
            }
            let phash = self.provider.compute_hash();
            if tree.hash != phash {
                return Err(MisconfiguredTreeError);
            }
        }
        self.raw_set_tree(tree, is_dirty);
        Ok(())
    }

    /// The `count` nearest indices of the slab to `q`: from its tree when the
    /// tree was found to describe the slab, by an exhaustive scan otherwise.
    pub fn get_closest<I: Info>(&self, q: &T, count: usize, info: &mut I) -> (r: Vec<(usize, DistanceCmp)>)
        requires
            self.wf(),
            self.spec_root() is Some,
        ensures
            crate::search::results_ok(r@, self.spec_provider(), *q, count),
            forall|t: int| 0 <= t < r@.len() ==> self.spec_provider().in_range((#[trigger] r@[t]).0 as int),
            forall|i: int, j: int| 0 <= i < j < r@.len() ==> r@[i].0 != r@[j].0,
            r@.len() == if count <= self.spec_provider().size() { count as nat } else { self.spec_provider().size() },
            count >= self.spec_provider().size() ==> forall|x: usize| self.spec_provider().in_range(x as int)
                ==> #[trigger] crate::topk::indices_of(r@).count(x) == 1,
            self.flat() && crate::search::query_triangle(self.spec_provider(), *q) ==> forall|x: usize|
                self.spec_provider().in_range(x as int) && #[trigger] crate::topk::indices_of(r@).count(x) == 0
                ==> crate::search::beaten(r@, self.spec_provider(), *q, count, x),
    {
        if self.checked {
            match &self.root {
                Some(t) => {
                    return t.get_closest(count, &self.provider, q, info);
                },
                None => {},
            }
        }
        let r = self.provider.get_closest(q, count, info);
        proof {
            crate::search::lemma_scan_indices(r@, self.spec_provider(), *q, count);
        }
        r
    }
}

/// Number of slabs of a range of `n` indices: one per full `max_tree`, and
/// one more for a remainder of at least `min_tree`.
pub open spec fn slab_count(n: nat, min_tree: nat, max_tree: nat) -> nat {
    n / max_tree + if n % max_tree >= min_tree { 1nat } else { 0nat }
}

/// The slab trees of a corpus and its unindexed tail.
pub struct FannForest<'a, T, D> {
    trees: Vec<Fann<'a, T, D>>,
    remain: VecProvider<'a, T, D>,
    root_provider: VecProvider<'a, T, D>,
}

impl<'a, T, D: Distance<T> + Copy> FannForest<'a, T, D> {
    pub closed spec fn spec_trees(&self) -> Seq<Fann<'a, T, D>> {
        self.trees@
    }

    pub closed spec fn spec_remain(&self) -> VecProvider<'a, T, D> {
        self.remain
    }

    pub closed spec fn spec_root_provider(&self) -> VecProvider<'a, T, D> {
        self.root_provider
    }

    /// Every slab and the tail share the root provider's corpus and kernel,
    /// and each slab tree describes its slab.
    pub open spec fn wf(&self) -> bool {
        &&& self.spec_root_provider().wf()
        &&& self.spec_remain().wf()
        &&& self.spec_remain().same_source(self.spec_root_provider())
        &&& self.spec_remain().spec_end() == self.spec_root_provider().spec_end()
        &&& forall|i: int| 0 <= i < self.spec_trees().len() ==> {
            &&& (#[trigger] self.spec_trees()[i]).wf()
            &&& self.spec_trees()[i].spec_provider().same_source(self.spec_root_provider())
            &&& self.spec_trees()[i].spec_provider().size() > 0
            &&& self.spec_root_provider().spec_start() <= self.spec_trees()[i].spec_provider().spec_start()
            &&& self.spec_trees()[i].spec_provider().spec_end() <= self.spec_root_provider().spec_end()
        }
        &&& self.spec_root_provider().spec_start() <= self.spec_remain().spec_start()
        &&& self.tiled()
    }

    /// End of the part of the range held by the first `i` slabs.
    pub open spec fn covered_upto(&self, i: int) -> int {
        if i <= 0 {
            self.spec_root_provider().spec_start() as int
        } else {
            self.spec_trees()[i - 1].spec_provider().spec_end() as int
        }
    }

    /// The slabs and then the tail follow each other without gap or overlap.
    pub open spec fn tiled(&self) -> bool {
        &&& forall|i: int| 0 <= i < self.spec_trees().len()
            ==> (#[trigger] self.spec_trees()[i]).spec_provider().spec_start() == self.covered_upto(i)
        &&& self.spec_remain().spec_start() == self.covered_upto(self.spec_trees().len() as int)
    }

    /// Cuts the root provider's range into slabs of `max_tree_size` indices
    /// from its start; a final shorter slab is kept when it holds at least
    /// `min_tree_size` indices, and what is left becomes the tail. No tree is
    /// built yet.
    pub fn create(root_provider: VecProvider<'a, T, D>, min_tree_size: usize, max_tree_size: usize) -> (r: Result<
        Self,
        InvalidParameterError,
    >)
        requires
            root_provider.wf(),
        ensures
            r is Err <==> (min_tree_size == 0 || min_tree_size > max_tree_size),
            r matches Ok(f) ==> {
                let a = root_provider.spec_start() as int;
                let b = root_provider.spec_end() as int;
                let n = f.spec_trees().len();
                &&& f.wf()
                &&& f.spec_root_provider() == root_provider
                &&& n == slab_count((b - a) as nat, min_tree_size as nat, max_tree_size as nat)
                &&& forall|i: int| 0 <= i < n ==> {
                    &&& (#[trigger] f.spec_trees()[i]).spec_provider().spec_start() == a + i * max_tree_size
                    &&& f.spec_trees()[i].spec_provider().spec_end() == if a + (i + 1) * max_tree_size <= b {
                        a + (i + 1) * max_tree_size
                    } else {
                        b
                    }
                    &&& f.spec_trees()[i].spec_root() is None
                    &&& !f.spec_trees()[i].spec_dirty()
                }
                &&& f.spec_remain().spec_start() == if n == 0 { a } else {
                    f.spec_trees()[n - 1].spec_provider().spec_end() as int
                }
                &&& f.spec_remain().size() < min_tree_size
            },
    {
        if min_tree_size == 0 || min_tree_size > max_tree_size {
            return Err(InvalidParameterError);
        }
        let all = root_provider.all();
        let mut trees: Vec<Fann<'a, T, D>> = Vec::new();
        let mut start = all.start;
        let ghost a = all.start as int;
        let ghost b = all.end as int;
        let ghost m = max_tree_size as int;
        assert(trees@.len() == 0);
        assert(trees@.len() * m == 0);
        while all.end - start >= min_tree_size
            invariant
                root_provider.wf(),
                all.start == root_provider.spec_start(),
                all.end == root_provider.spec_end(),
                a == all.start,
                b == all.end,
                m == max_tree_size,
                1 <= min_tree_size <= max_tree_size,
                a <= start <= b,
                start == if a + trees@.len() * m <= b { a + trees@.len() * m } else { b },
                forall|i: int| 0 <= i < trees@.len() ==> {
                    &&& (#[trigger] trees@[i]).wf()
                    &&& trees@[i].spec_provider().same_source(root_provider)
                    &&& trees@[i].spec_provider().size() >= min_tree_size
                    &&& a <= trees@[i].spec_provider().spec_start()
                    &&& trees@[i].spec_provider().spec_end() <= b
                    &&& trees@[i].spec_provider().spec_start() == a + i * m
                    &&& trees@[i].spec_provider().spec_end() == if a + (i + 1) * m <= b { a + (i + 1) * m } else { b }
                    &&& trees@[i].spec_root() is None
                    &&& !trees@[i].spec_dirty()
                },
            decreases b - start,
        {
            let ghost n0 = trees@.len() as int;
            assert(a + n0 * m <= b) by {
                if a + n0 * m > b {
                    assert(start == b);
                }
            }
            assert(a + (n0 + 1) * m == a + n0 * m + m) by (nonlinear_arith);
            let rest = all.end - start;
            let size = if rest < max_tree_size { rest } else { max_tree_size };
            let p = match root_provider.subrange(std::ops::Range { start, end: start + size }) {
                Ok(p) => p,
                Err(_) => {
                    return Err(InvalidParameterError);
                },
            };
            let ghost before = trees@;
            trees.push(Fann::new(p));
            assert forall|i: int| 0 <= i < trees@.len() implies {
                &&& (#[trigger] trees@[i]).wf()
                &&& trees@[i].spec_provider().same_source(root_provider)
                &&& trees@[i].spec_provider().size() >= min_tree_size
                &&& a <= trees@[i].spec_provider().spec_start()
                &&& trees@[i].spec_provider().spec_end() <= b
                &&& trees@[i].spec_provider().spec_start() == a + i * m
                &&& trees@[i].spec_provider().spec_end() == if a + (i + 1) * m <= b { a + (i + 1) * m } else { b }
                &&& trees@[i].spec_root() is None
                &&& !trees@[i].spec_dirty()
            } by {
                if i < before.len() {
                    assert(trees@[i] == before[i]);
                }
            }
            start = start + size;
        }
        proof {
            let n = trees@.len() as int;
            let nn = (b - a) as nat;
            if n > 0 {
                assert(trees@[n - 1].spec_provider().size() >= min_tree_size);
            }
            if a + n * m <= b {
                vstd::arithmetic::div_mod::lemma_fundamental_div_mod_converse(b - a, m, n, b - a - n * m);
            } else {
                assert(n > 0);
                assert(a + (n - 1) * m <= b) by {
                    assert(trees@[n - 1].spec_provider().spec_start() == a + (n - 1) * m);
                }
                assert(a + n * m == a + (n - 1) * m + m) by (nonlinear_arith);
                vstd::arithmetic::div_mod::lemma_fundamental_div_mod_converse(b - a, m, n - 1, b - a - (n - 1) * m);
            }
        }
        let remain = match root_provider.subrange(std::ops::Range { start, end: all.end }) {
            Ok(p) => p,
            Err(_) => {
                return Err(InvalidParameterError);
            },
        };
        let f = FannForest { trees, remain, root_provider };
        proof {
            assert forall|i: int| 0 <= i < f.spec_trees().len()
                implies (#[trigger] f.spec_trees()[i]).spec_provider().spec_start() == f.covered_upto(i) by {
                if i > 0 {
                    assert(f.spec_trees()[i - 1].spec_provider().spec_end() == if a + i * m <= b { a + i * m } else { b });
                    assert(a + (i - 1 + 1) * m == a + i * m);
                }
            }
        }
        Ok(f)
    }

    /// The blob name under which a slab's tree is stored.
    pub fn get_name(provider: &VecProvider<'a, T, D>) -> (r: String)
        requires
            provider.wf(),
        ensures
            r@ == tree_name(provider.spec_start() as nat, provider.size()),
    {
        let range = provider.all();
        format_tree_name(range.start, range.end - range.start)
    }

    /// Adopts a stored tree for slab `index` (see [`Fann::set_tree`]).
    pub fn set_tree(&mut self, index: usize, tree: FannTree, ignore_provider: bool, is_dirty: bool) -> (r: Result<
        (),
        MisconfiguredTreeError,
    >)
        requires
            old(self).wf(),
            index < old(self).spec_trees().len(),
        ensures
            final(self).wf(),
            final(self).spec_root_provider() == old(self).spec_root_provider(),
            final(self).spec_trees().len() == old(self).spec_trees().len(),
            forall|i: int| 0 <= i < old(self).spec_trees().len() && i != index
                ==> #[trigger] final(self).spec_trees()[i] == old(self).spec_trees()[i],
            final(self).spec_trees()[index as int].spec_provider() == old(self).spec_trees()[index as int].spec_provider(),
            r is Ok <==> old(self).spec_trees()[index as int].accepts(tree, ignore_provider),
            r is Ok ==> final(self).spec_trees()[index as int].spec_root() == Some(tree)
                && final(self).spec_trees()[index as int].spec_dirty() == is_dirty,
            r is Err ==> final(self).spec_trees()[index as int] == old(self).spec_trees()[index as int],
    {
        let ghost before = self.trees@;
        let mut t = self.trees.remove(index);
        assert(before[index as int].wf());
        let r = t.set_tree(tree, ignore_provider, is_dirty);
        self.trees.insert(index, t);
        assert forall|i: int| 0 <= i < self.trees@.len() implies {
            &&& (#[trigger] self.trees@[i]).wf()
            &&& self.trees@[i].spec_provider().same_source(self.root_provider)
            &&& self.trees@[i].spec_provider().size() > 0
            &&& self.root_provider.spec_start() <= self.trees@[i].spec_provider().spec_start()
            &&& self.trees@[i].spec_provider().spec_end() <= self.root_provider.spec_end()
        } by {
            if i != index {
                assert(self.trees@[i] == before[i]);
            }
        }
        assert forall|i: int| 0 <= i < before.len() && i != index
            implies #[trigger] self.trees@[i] == before[i] by {
        }
        r
    }

    /// A save plan names exactly the dirty slabs, each with its blob name.
    pub open spec fn plan_ok(&self, plan: Seq<(usize, String)>) -> bool {
        &&& forall|k: int| 0 <= k < plan.len() ==> {
            &&& (#[trigger] plan[k]).0 < self.spec_trees().len()
            &&& self.spec_trees()[plan[k].0 as int].spec_dirty()
            &&& plan[k].1@ == tree_name(
                self.spec_trees()[plan[k].0 as int].spec_provider().spec_start() as nat,
                self.spec_trees()[plan[k].0 as int].spec_provider().size(),
            )
        }
        &&& forall|i: int| 0 <= i < self.spec_trees().len() && (#[trigger] self.spec_trees()[i]).spec_dirty()
            ==> exists|k: int| 0 <= k < plan.len() && plan[k].0 == i
    }

    /// Loads slab `index` from storage: adopts `stored` (kept clean) unless
    /// it is absent or `force` is set, in which case the tree is built (and
    /// dirty). A stored tree whose header does not match the slab fails the
    /// load unless `ignore_provider` is set.
    pub fn load_tree<C: Cache, I: Info>(
        &mut self,
        index: usize,
        stored: Option<FannTree>,
        force: bool,
        ignore_provider: bool,
        params: &FannBuildParams,
        cache: &mut C,
        info: &mut I,
    ) -> (r: Result<(), MisconfiguredTreeError>)
        requires
            old(self).wf(),
            index < old(self).spec_trees().len(),
            old(self).spec_root_provider().cache_ok(old(cache).contents()),
        ensures
            final(self).wf(),
            final(self).spec_root_provider() == old(self).spec_root_provider(),
            final(self).spec_trees().len() == old(self).spec_trees().len(),
            final(self).spec_root_provider().cache_ok(final(cache).contents()),
            forall|i: int| 0 <= i < old(self).spec_trees().len() && i != index
                ==> #[trigger] final(self).spec_trees()[i] == old(self).spec_trees()[i],
            r is Err <==> !force && stored is Some && !old(self).spec_trees()[index as int].accepts(
                stored->0,
                ignore_provider,
            ),
            r is Ok && (force || stored is None) ==> final(self).spec_trees()[index as int].spec_root() is Some
                && final(self).spec_trees()[index as int].spec_dirty(),
            r is Ok && !force && stored is Some ==> final(self).spec_trees()[index as int].spec_root() == stored
                && !final(self).spec_trees()[index as int].spec_dirty(),
            r is Err ==> final(self).spec_trees()[index as int] == old(self).spec_trees()[index as int],
    {
        if !force {
            match stored {
                Some(tree) => {
                    return self.set_tree(index, tree, ignore_provider, false);
                },
                None => {},
            }
        }
        self.build_tree(index, params, cache, info);
        Ok(())
    }

    /// The slabs whose trees must be written on save, with their blob names:
    /// every dirty tree. Fails if some slab has no tree.
    pub fn save_plan(&self) -> (r: Result<Vec<(usize, String)>, TreeNotBuiltError>)
        requires
            self.wf(),
        ensures
            r is Err <==> !self.all_ready(),
            r matches Ok(plan) ==> self.plan_ok(plan@),
    {
        let mut plan: Vec<(usize, String)> = Vec::new();
        let mut i: usize = 0;
        while i < self.trees.len()
            invariant
                forall|j: int| 0 <= j < self.spec_trees().len() ==> (#[trigger] self.spec_trees()[j]).wf(),
                i <= self.spec_trees().len(),
                forall|j: int| 0 <= j < i ==> (#[trigger] self.spec_trees()[j]).spec_root() is Some,
                forall|k: int| 0 <= k < plan@.len() ==> {
                    &&& (#[trigger] plan@[k]).0 < i
                    &&& self.spec_trees()[plan@[k].0 as int].spec_dirty()
                    &&& plan@[k].1@ == tree_name(
                        self.spec_trees()[plan@[k].0 as int].spec_provider().spec_start() as nat,
                        self.spec_trees()[plan@[k].0 as int].spec_provider().size(),
                    )
                },
                forall|j: int| 0 <= j < i && (#[trigger] self.spec_trees()[j]).spec_dirty()
                    ==> exists|k: int| 0 <= k < plan@.len() && plan@[k].0 == j,
            decreases self.spec_trees().len() - i,
        {
            let tree = &self.trees[i];
            if !tree.is_ready() {
                return Err(TreeNotBuiltError);
            }
            if tree.is_dirty() {
                assert(self.spec_trees()[i as int].wf());
                let name = Self::get_name(tree.provider());
                let ghost before = plan@;
                plan.push((i, name));
                assert forall|j: int| 0 <= j < i + 1 && (#[trigger] self.spec_trees()[j]).spec_dirty()
                    implies exists|k: int| 0 <= k < plan@.len() && plan@[k].0 == j by {
                    if j < i {
                        let k = choose|k: int| 0 <= k < before.len() && before[k].0 == j;
                        assert(plan@[k] == before[k]);
                    } else {
                        assert(plan@[before.len() as int].0 == j);
                    }
                }
            }
            i = i + 1;
        }
        assert(forall|k: int| 0 <= k < plan@.len() ==> (#[trigger] plan@[k]).0 < self.spec_trees().len());
        assert(forall|j: int| 0 <= j < self.spec_trees().len() && (#[trigger] self.spec_trees()[j]).spec_dirty()
            ==> exists|k: int| 0 <= k < plan@.len() && plan@[k].0 == j);
        Ok(plan)
    }

    pub fn get_trees(&self) -> (r: &Vec<Fann<'a, T, D>>)
        ensures
            r@ == self.spec_trees(),
    {
        &self.trees
    }

    pub fn get_remain(&self) -> (r: &VecProvider<'a, T, D>)
        ensures
            *r == self.spec_remain(),
    {
        &self.remain
    }

    pub fn get_root_provider(&self) -> (r: &VecProvider<'a, T, D>)
        ensures
            *r == self.spec_root_provider(),
    {
        &self.root_provider
    }

    /// Every slab tree has only leaves below its root, as trees built without a
    /// maximum node size do.
    pub open spec fn all_flat(&self) -> bool {
        forall|i: int| 0 <= i < self.spec_trees().len() ==> (#[trigger] self.spec_trees()[i]).flat()
    }

    /// `parts` are, in slab order, one result part per slab tree and then the
    /// tail's: the sequences whose stable merge by distance is searched.
    pub open spec fn merged_from(&self, parts: Seq<Seq<(usize, u64)>>, q: T, count: usize) -> bool {
        &&& parts.len() == self.spec_trees().len() + 1
        &&& forall|i: int| 0 <= i < self.spec_trees().len() ==> part_ok(
            #[trigger] parts[i],
            self.spec_trees()[i].spec_provider(),
            q,
            count,
        )
        &&& part_ok(parts[self.spec_trees().len() as int], self.spec_remain(), q, count)
    }

    /// All slab trees are built or loaded.
    pub open spec fn all_ready(&self) -> bool {
        forall|i: int| 0 <= i < self.spec_trees().len() ==> (#[trigger] self.spec_trees()[i]).spec_root() is Some
    }

    /// Builds the tree of slab `index`.
    pub fn build_tree<C: Cache, I: Info>(&mut self, index: usize, params: &FannBuildParams, cache: &mut C, info: &mut I)
        requires
            old(self).wf(),
            index < old(self).spec_trees().len(),
            old(self).spec_root_provider().cache_ok(old(cache).contents()),
        ensures
            final(self).wf(),
            final(self).spec_root_provider() == old(self).spec_root_provider(),
            final(self).spec_remain() == old(self).spec_remain(),
            final(self).spec_trees().len() == old(self).spec_trees().len(),
            final(self).spec_trees()[index as int].spec_root() is Some,
            final(self).spec_trees()[index as int].spec_dirty(),
            params.max_node_size is None ==> final(self).spec_trees()[index as int].flat(),
            forall|i: int| 0 <= i < old(self).spec_trees().len() && i != index
                ==> #[trigger] final(self).spec_trees()[i] == old(self).spec_trees()[i],
            final(self).spec_root_provider().cache_ok(final(cache).contents()),
    {
        let ghost before = self.trees@;
        let mut t = self.trees.remove(index);
        assert(before[index as int].wf());
        t.build(params, cache, info);
        self.trees.insert(index, t);
        assert forall|i: int| 0 <= i < self.trees@.len() implies {
            &&& (#[trigger] self.trees@[i]).wf()
            &&& self.trees@[i].spec_provider().same_source(self.root_provider)
            &&& self.trees@[i].spec_provider().size() > 0
            &&& self.root_provider.spec_start() <= self.trees@[i].spec_provider().spec_start()
            &&& self.trees@[i].spec_provider().spec_end() <= self.root_provider.spec_end()
        } by {
            if i != index {
                assert(self.trees@[i] == before[i]);
            }
        }
        assert forall|i: int| 0 <= i < before.len() && i != index
            implies #[trigger] self.trees@[i] == before[i] by {
        }
    }

    /// Builds every slab tree, each through the same cache and sink.
    pub fn build_all<C: Cache, I: Info>(&mut self, params: &FannBuildParams, cache: &mut C, info: &mut I)
        requires
            old(self).wf(),
            old(self).spec_root_provider().cache_ok(old(cache).contents()),
        ensures
            final(self).wf(),
            final(self).all_ready(),
            params.max_node_size is None ==> final(self).all_flat(),
            final(self).spec_root_provider() == old(self).spec_root_provider(),
            final(self).spec_trees().len() == old(self).spec_trees().len(),
            final(self).spec_root_provider().cache_ok(final(cache).contents()),
    {
        let n = self.trees.len();
        let mut i: usize = 0;
        while i < n
            invariant
                self.wf(),
                n == self.spec_trees().len(),
                i <= n,
                self.spec_root_provider() == old(self).spec_root_provider(),
                self.spec_root_provider().cache_ok(cache.contents()),
                forall|j: int| 0 <= j < i ==> (#[trigger] self.spec_trees()[j]).spec_root() is Some,
                params.max_node_size is None ==> forall|j: int| 0 <= j < i ==> (#[trigger] self.spec_trees()[j]).flat(),
            decreases n - i,
        {
            self.build_tree(i, params, cache, info);
            i = i + 1;
        }
    }

    /// The `count` nearest corpus indices to `q`: every slab tree's results
    /// and an exhaustive scan of the tail, merged by distance. The result
    /// holds `min(count, N)` distinct indices with their exact distances, in
    /// ascending order; with flat slab trees and a kernel obeying the triangle
    /// inequality, every index left out is at least as far as the worst kept.
    #[verifier::rlimit(100)]
    #[verifier::spinoff_prover]
    pub fn get_closest<I: Info>(&self, q: &T, count: usize, info: &mut I) -> (r: Vec<(usize, DistanceCmp)>)
        requires
            self.wf(),
            self.all_ready(),
        ensures
            sorted(r@),
            r@.len() <= count,
            forall|t: int| 0 <= t < r@.len() ==> {
                &&& self.spec_root_provider().in_range((#[trigger] r@[t]).0 as int)
                &&& r@[t].1.value == self.spec_root_provider().query_dist(*q, r@[t].0 as int)
            },
            r@.len() == if count <= self.spec_root_provider().size() { count as nat } else {
                self.spec_root_provider().size()
            },
            count >= self.spec_root_provider().size() ==> forall|x: int| self.spec_root_provider().in_range(x)
                ==> has_index(r@, x),
            forall|i: int, j: int| 0 <= i < j < r@.len() ==> r@[i].0 != r@[j].0,
            (self.all_flat() && crate::search::query_triangle(self.spec_root_provider(), *q))
                || self.spec_trees().len() == 0 ==> forall|x: int|
                self.spec_root_provider().in_range(x) && !has_index(r@, x) ==> r@.len() == count && (count > 0
                ==> r@[r@.len() - 1].1.value <= self.spec_root_provider().query_dist(*q, x)),
            exists|parts: Seq<Seq<(usize, u64)>>| #[trigger] self.merged_from(parts, *q, count)
                && r@.len() == (if count <= stable_by_dist(parts.flatten()).len() { count as nat } else {
                    stable_by_dist(parts.flatten()).len()
                })
                && forall|t: int| 0 <= t < r@.len() ==> (#[trigger] r@[t]).0 == stable_by_dist(parts.flatten())[t].0
                    && r@[t].1.value == stable_by_dist(parts.flatten())[t].1,
    {
        let ghost root = self.root_provider;
        let ghost fm = (self.all_flat() && crate::search::query_triangle(root, *q)) || self.spec_trees().len() == 0;
        let mut all: Vec<(usize, u64)> = Vec::new();
        let ghost mut parts: Seq<Seq<(usize, u64)>> = Seq::empty();
        let mut i: usize = 0;
        assert(parts.flatten() =~= all@);
        while i < self.trees.len()
            invariant
                parts.len() == i,
                all@ == parts.flatten(),
                forall|j: int| 0 <= j < i ==> part_ok(#[trigger] parts[j], self.spec_trees()[j].spec_provider(), *q, count),
                self.wf(),
                self.all_ready(),
                root == self.spec_root_provider(),
                i <= self.spec_trees().len(),
                forall|t: int| 0 <= t < all@.len() ==> {
                    &&& root.in_range((#[trigger] all@[t]).0 as int)
                    &&& all@[t].1 == root.query_dist(*q, all@[t].0 as int)
                },
                count >= root.size() ==> all@.len() == self.covered_upto(i as int) - root.spec_start(),
                all@.len() <= self.covered_upto(i as int) - root.spec_start(),
                all@.len() >= count || all@.len() == self.covered_upto(i as int) - root.spec_start(),
                count >= root.size() ==> forall|x: int| root.spec_start() <= x < self.covered_upto(i as int)
                    ==> #[trigger] has_pair(all@, x),
                forall|t: int| 0 <= t < all@.len() ==> (#[trigger] all@[t]).0 < self.covered_upto(i as int),
                forall|t: int, u: int| 0 <= t < u < all@.len() ==> all@[t].0 != all@[u].0,
                fm == ((self.all_flat() && crate::search::query_triangle(root, *q)) || self.spec_trees().len() == 0),
                fm ==> forall|x: int| root.spec_start() <= x < self.covered_upto(i as int) && !has_pair(all@, x)
                    ==> count_le(all@, root.query_dist(*q, x)) >= count,
            decreases self.spec_trees().len() - i,
        {
            let tree = &self.trees[i];
            assert(self.spec_trees()[i as int].wf());
            let rs = tree.get_closest(q, count, info);
            let ghost before = all@;
            append_pairs::<T, D>(&mut all, &rs, Ghost(tree.spec_provider()), Ghost(root), Ghost(*q));
            proof {
                let slab = tree.spec_provider();
                lemma_part_ok(rs@, slab, *q, count);
                let old_parts = parts;
                parts = parts.push(as_pairs(rs@));
                old_parts.lemma_flatten_push(as_pairs(rs@));
                assert forall|j: int| 0 <= j < i + 1 implies part_ok(#[trigger] parts[j], self.spec_trees()[j].spec_provider(), *q, count) by {
                    if j < i {
                        assert(parts[j] == old_parts[j]);
                    }
                }
                assert(slab.spec_start() == self.covered_upto(i as int));
                assert(self.covered_upto(i + 1) == slab.spec_end());
                assert(all@.len() == before.len() + rs@.len());
                assert forall|t: int| 0 <= t < all@.len() implies #[trigger] all@[t] == (before + as_pairs(rs@))[t] by {
                    if t >= before.len() {
                        let u = t - before.len();
                        assert(all@[before.len() + u] == (rs@[u].0, rs@[u].1.value));
                    }
                }
                assert(all@ =~= before + as_pairs(rs@));
                assert forall|t: int| 0 <= t < all@.len() implies (#[trigger] all@[t]).0 < self.covered_upto(i + 1) by {
                    if t >= before.len() {
                        let u = t - before.len();
                        assert(all@[before.len() + u] == (rs@[u].0, rs@[u].1.value));
                        assert(slab.in_range(rs@[u].0 as int));
                    } else {
                        assert(all@[t] == before[t]);
                    }
                }
                assert forall|t: int, u: int| 0 <= t < u < all@.len() implies all@[t].0 != all@[u].0 by {
                    if u >= before.len() {
                        let u2 = u - before.len();
                        assert(all@[before.len() + u2] == (rs@[u2].0, rs@[u2].1.value));
                        assert(slab.in_range(rs@[u2].0 as int));
                        if t >= before.len() {
                            let t2 = t - before.len();
                            assert(all@[before.len() + t2] == (rs@[t2].0, rs@[t2].1.value));
                        } else {
                            assert(all@[t] == before[t]);
                        }
                    } else {
                        assert(all@[t] == before[t]);
                        assert(all@[u] == before[u]);
                    }
                }
                if fm {
                    assert(self.all_flat() && crate::search::query_triangle(root, *q));
                    assert(self.spec_trees()[i as int].flat());
                    lemma_triangle_sub(slab, root, *q);
                    assert forall|x: int| root.spec_start() <= x < self.covered_upto(i + 1) && !has_pair(all@, x)
                        implies count_le(all@, root.query_dist(*q, x)) >= count by {
                        lemma_count_le_append(before, as_pairs(rs@), root.query_dist(*q, x));
                        if x < self.covered_upto(i as int) {
                            if has_pair(before, x) {
                                let t = choose|t: int| 0 <= t < before.len() && before[t].0 == x;
                                assert(all@[t] == before[t]);
                            }
                        } else {
                            assert(slab.in_range(x));
                            if crate::topk::indices_of(rs@).count(x as usize) > 0 {
                                crate::topk::lemma_count_has_index(rs@, x as usize);
                                let t = choose|t: int| 0 <= t < rs@.len() && rs@[t].0 == x;
                                assert(all@[before.len() + t].0 == x);
                            }
                            assert(crate::search::beaten(rs@, slab, *q, count, x as usize));
                            lemma_full_result_counts(before, all@, rs@, root.query_dist(*q, x), count);
                        }
                    }
                }
                if count >= root.size() {
                    assert forall|x: int| root.spec_start() <= x < self.covered_upto(i + 1) implies #[trigger] has_pair(all@, x) by {
                        if x < self.covered_upto(i as int) {
                            assert(has_pair(before, x));
                            let t = choose|t: int| 0 <= t < before.len() && before[t].0 == x;
                            assert(all@[t] == before[t]);
                        } else {
                            assert(slab.in_range(x));
                            assert(crate::topk::indices_of(rs@).count(x as usize) == 1);
                            crate::topk::lemma_count_has_index(rs@, x as usize);
                            let t = choose|t: int| 0 <= t < rs@.len() && rs@[t].0 == x;
                            assert(all@[before.len() + t].0 == rs@[t].0);
                        }
                    }
                }
            }
            i = i + 1;
        }
        let rs = self.remain.get_closest(q, count, info);
        let ghost before = all@;
        append_pairs::<T, D>(&mut all, &rs, Ghost(self.remain), Ghost(root), Ghost(*q));
        proof {
            assert(all@.len() == before.len() + rs@.len());
            assert(self.remain.size() == root.spec_end() - self.covered_upto(self.spec_trees().len() as int));
            assert forall|t: int| 0 <= t < all@.len() implies #[trigger] all@[t] == (before + as_pairs(rs@))[t] by {
                if t >= before.len() {
                    let u = t - before.len();
                    assert(all@[before.len() + u] == (rs@[u].0, rs@[u].1.value));
                }
            }
            assert(all@ =~= before + as_pairs(rs@));
            lemma_part_ok(rs@, self.remain, *q, count);
            let old_parts = parts;
            parts = parts.push(as_pairs(rs@));
            old_parts.lemma_flatten_push(as_pairs(rs@));
            assert forall|j: int| 0 <= j < self.spec_trees().len() implies part_ok(
                #[trigger] parts[j],
                self.spec_trees()[j].spec_provider(),
                *q,
                count,
            ) by {
                assert(parts[j] == old_parts[j]);
            }
            assert(self.merged_from(parts, *q, count));
            assert forall|t: int, u: int| 0 <= t < u < all@.len() implies all@[t].0 != all@[u].0 by {
                if u >= before.len() {
                    let u2 = u - before.len();
                    assert(all@[before.len() + u2] == (rs@[u2].0, rs@[u2].1.value));
                    assert(self.remain.in_range(rs@[u2].0 as int));
                    if t >= before.len() {
                        let t2 = t - before.len();
                        assert(all@[before.len() + t2] == (rs@[t2].0, rs@[t2].1.value));
                    } else {
                        assert(all@[t] == before[t]);
                        assert(before[t].0 < self.covered_upto(self.spec_trees().len() as int));
                    }
                } else {
                    assert(all@[t] == before[t]);
                    assert(all@[u] == before[u]);
                }
            }
            if fm {
                assert forall|x: int| root.in_range(x) && !has_pair(all@, x)
                    implies count_le(all@, root.query_dist(*q, x)) >= count by {
                    lemma_count_le_append(before, as_pairs(rs@), root.query_dist(*q, x));
                    if x < self.covered_upto(self.spec_trees().len() as int) {
                        if has_pair(before, x) {
                            let t = choose|t: int| 0 <= t < before.len() && before[t].0 == x;
                            assert(all@[t] == before[t]);
                        }
                    } else {
                        assert(self.remain.in_range(x));
                        if has_index(rs@, x) {
                            let t = choose|t: int| 0 <= t < rs@.len() && rs@[t].0 == x;
                            assert(all@[before.len() + t].0 == x);
                        }
                        lemma_full_result_counts(before, all@, rs@, root.query_dist(*q, x), count);
                    }
                }
            }
            if count >= root.size() {
                assert forall|x: int| root.in_range(x) implies #[trigger] has_pair(all@, x) by {
                    if x < self.covered_upto(self.spec_trees().len() as int) {
                        assert(has_pair(before, x));
                        let t = choose|t: int| 0 <= t < before.len() && before[t].0 == x;
                        assert(all@[t] == before[t]);
                    } else {
                        assert(self.remain.in_range(x));
                        assert(has_index(rs@, x));
                        let t = choose|t: int| 0 <= t < rs@.len() && rs@[t].0 == x;
                        assert(all@[before.len() + t].0 == rs@[t].0);
                    }
                }
                assert(all@.len() == root.size());
            }
        }
        let ghost unsorted = all@;
        par_sort_by_dist(&mut all);
        proof {
            assert(all@.len() == unsorted.len()) by {
                vstd::seq_lib::to_multiset_len(all@);
                vstd::seq_lib::to_multiset_len(unsorted);
            }
            lemma_distinct_perm(unsorted, all@);
            assert forall|x: int| has_pair(unsorted, x) implies has_pair(all@, x) by {
                let t = choose|t: int| 0 <= t < unsorted.len() && unsorted[t].0 == x;
                assert(unsorted.to_multiset().count(unsorted[t]) > 0);
                assert(all@.contains(unsorted[t]));
            }
            if fm {
                assert forall|x: int| root.in_range(x) && !has_pair(all@, x)
                    implies count_le(all@, root.query_dist(*q, x)) >= count by {
                    assert(!has_pair(unsorted, x));
                    assert(count_le(unsorted, root.query_dist(*q, x)) >= count);
                    lemma_count_le_perm(unsorted, all@, root.query_dist(*q, x));
                }
            }
            if count >= root.size() {
                assert forall|x: int| root.in_range(x) implies #[trigger] has_pair(all@, x) by {
                    assert(has_pair(unsorted, x));
                    let t = choose|t: int| 0 <= t < unsorted.len() && unsorted[t].0 == x;
                    assert(unsorted.to_multiset().count(unsorted[t]) > 0);
                    assert(all@.contains(unsorted[t]));
                }
            }
        }
        proof {
            assert forall|t: int| 0 <= t < all@.len() implies {
                &&& root.in_range((#[trigger] all@[t]).0 as int)
                &&& all@[t].1 == root.query_dist(*q, all@[t].0 as int)
            } by {
                assert(all@.to_multiset().count(all@[t]) > 0);
                assert(unsorted.contains(all@[t]));
            }
        }
        let mut r: Vec<(usize, DistanceCmp)> = Vec::new();
        let mut t: usize = 0;
        while t < all.len() && t < count
            invariant
                t <= all@.len(),
                t <= count,
                r@.len() == t,
                sorted_pairs(all@),
                forall|u: int| 0 <= u < t ==> (#[trigger] r@[u]).0 == all@[u].0 && r@[u].1.value == all@[u].1,
            decreases all@.len() - t,
        {
            r.push((all[t].0, DistanceCmp { value: all[t].1 }));
            t = t + 1;
        }
        proof {
            assert(all@ == stable_by_dist(parts.flatten()));
            assert(self.merged_from(parts, *q, count));
            assert forall|i: int, j: int| 0 <= i < j < r@.len() implies r@[i].0 != r@[j].0 by {
                assert(r@[i].0 == all@[i].0 && r@[j].0 == all@[j].0);
            }
            if fm {
                assert forall|x: int| root.in_range(x) && !has_index(r@, x) implies r@.len() == count && (count > 0
                    ==> r@[r@.len() - 1].1.value <= root.query_dist(*q, x)) by {
                    if has_pair(all@, x) {
                        let u = choose|u: int| 0 <= u < all@.len() && all@[u].0 == x;
                        if u < r@.len() {
                            assert(r@[u].0 == x);
                        }
                        if count > 0 {
                            assert(all@[count - 1].1 <= all@[u].1);
                        }
                    } else if count > 0 {
                        lemma_count_le_sorted(all@, root.query_dist(*q, x), count as int);
                    }
                }
            }
            if count >= root.size() {
                assert forall|x: int| root.in_range(x) implies has_index(r@, x) by {
                    assert(has_pair(all@, x));
                    let u = choose|u: int| 0 <= u < all@.len() && all@[u].0 == x;
                    assert(r@[u].0 == x);
                }
            }
        }
        r
    }
}

/// Reordering keeps first components pairwise distinct.
pub proof fn lemma_distinct_perm(s1: Seq<(usize, u64)>, s2: Seq<(usize, u64)>)
    requires
        s1.to_multiset() == s2.to_multiset(),
        forall|t: int, u: int| 0 <= t < u < s1.len() ==> s1[t].0 != s1[u].0,
    ensures
        forall|t: int, u: int| 0 <= t < u < s2.len() ==> s2[t].0 != s2[u].0,
{
    assert(s1.no_duplicates()) by {
        assert forall|t: int, u: int| 0 <= t < s1.len() && 0 <= u < s1.len() && t != u implies s1[t] != s1[u] by {
            if t < u {
                assert(s1[t].0 != s1[u].0);
            } else {
                assert(s1[u].0 != s1[t].0);
            }
        }
    }
    s1.lemma_multiset_has_no_duplicates();
    s2.lemma_multiset_has_no_duplicates_conv();
    assert forall|t: int, u: int| 0 <= t < u < s2.len() implies s2[t].0 != s2[u].0 by {
        if s2[t].0 == s2[u].0 {
            assert(s1.to_multiset().count(s2[t]) > 0);
            assert(s1.to_multiset().count(s2[u]) > 0);
            assert(s1.contains(s2[t]) && s1.contains(s2[u]));
            let a = choose|a: int| 0 <= a < s1.len() && s1[a] == s2[t];
            let b = choose|b: int| 0 <= b < s1.len() && s1[b] == s2[u];
            if a != b {
                if a < b {
                    assert(s1[a].0 != s1[b].0);
                } else {
                    assert(s1[b].0 != s1[a].0);
                }
            }
            assert(s2[t] == s2[u]);
        }
    }
}

/// The pairs a result sequence contributes to the merge.
pub open spec fn as_pairs(rs: Seq<(usize, DistanceCmp)>) -> Seq<(usize, u64)> {
    rs.map_values(|e: (usize, DistanceCmp)| (e.0, e.1.value))
}

/// A full, sorted result whose worst distance is at most `v` adds `count`
/// pairs of key at most `v` to the merge.
pub proof fn lemma_full_result_counts(
    before: Seq<(usize, u64)>,
    after: Seq<(usize, u64)>,
    rs: Seq<(usize, DistanceCmp)>,
    v: u64,
    count: usize,
)
    requires
        after == before + as_pairs(rs),
        sorted(rs),
        rs.len() == count,
        count > 0 ==> rs[rs.len() - 1].1.value <= v,
    ensures
        count_le(after, v) >= count,
{
    lemma_count_le_append(before, as_pairs(rs), v);
    assert forall|t: int| 0 <= t < as_pairs(rs).len() implies (#[trigger] as_pairs(rs)[t]).1 <= v by {
        assert(rs[t].1.value <= rs[rs.len() - 1].1.value);
    }
    lemma_count_le_all(as_pairs(rs), v);
}

/// A query triangle inequality over a range holds over any sub-range.
pub proof fn lemma_triangle_sub<T, D: Distance<T> + Copy>(
    slab: VecProvider<'_, T, D>,
    root: VecProvider<'_, T, D>,
    q: T,
)
    requires
        slab.same_source(root),
        root.spec_start() <= slab.spec_start(),
        slab.spec_end() <= root.spec_end(),
        crate::search::query_triangle(root, q),
    ensures
        crate::search::query_triangle(slab, q),
{
    assert forall|a: int, b: int| slab.in_range(a) && slab.in_range(b) implies #[trigger] slab.query_dist(q, a)
        <= slab.query_dist(q, b) + #[trigger] slab.pair_dist(a, b) by {
        assert(root.query_dist(q, a) <= root.query_dist(q, b) + root.pair_dist(a, b));
    }
}

/// A part of the merge: the pairs of one slab's (or the tail's) results,
/// ascending, `min(count, size)` of them, each an index of the range with
/// its exact distance.
pub open spec fn part_ok<T, D: Distance<T> + Copy>(
    part: Seq<(usize, u64)>,
    prov: VecProvider<'_, T, D>,
    q: T,
    count: usize,
) -> bool {
    &&& sorted_pairs(part)
    &&& part.len() == if count <= prov.size() { count as nat } else { prov.size() }
    &&& forall|t: int| 0 <= t < part.len() ==> prov.in_range((#[trigger] part[t]).0 as int)
        && part[t].1 == prov.query_dist(q, part[t].0 as int)
}

pub proof fn lemma_part_ok<T, D: Distance<T> + Copy>(
    rs: Seq<(usize, DistanceCmp)>,
    prov: VecProvider<'_, T, D>,
    q: T,
    count: usize,
)
    requires
        sorted(rs),
        rs.len() == if count <= prov.size() { count as nat } else { prov.size() },
        forall|t: int| 0 <= t < rs.len() ==> prov.in_range((#[trigger] rs[t]).0 as int)
            && rs[t].1.value == prov.query_dist(q, rs[t].0 as int),
    ensures
        part_ok(as_pairs(rs), prov, q, count),
{
}

/// Appends the `(index, distance)` pairs of a slab's results.
fn append_pairs<T, D: Distance<T> + Copy>(
    all: &mut Vec<(usize, u64)>,
    rs: &Vec<(usize, DistanceCmp)>,
    Ghost(slab): Ghost<VecProvider<'_, T, D>>,
    Ghost(root): Ghost<VecProvider<'_, T, D>>,
    Ghost(q): Ghost<T>,
)
    requires
        slab.same_source(root),
        root.spec_start() <= slab.spec_start(),
        slab.spec_end() <= root.spec_end(),
        forall|t: int| 0 <= t < rs@.len() ==> slab.in_range((#[trigger] rs@[t]).0 as int)
            && rs@[t].1.value == slab.query_dist(q, rs@[t].0 as int),
        forall|t: int| 0 <= t < old(all)@.len() ==> {
            &&& root.in_range((#[trigger] old(all)@[t]).0 as int)
            &&& old(all)@[t].1 == root.query_dist(q, old(all)@[t].0 as int)
        },
    ensures
        forall|t: int| 0 <= t < final(all)@.len() ==> {
            &&& root.in_range((#[trigger] final(all)@[t]).0 as int)
            &&& final(all)@[t].1 == root.query_dist(q, final(all)@[t].0 as int)
        },
        final(all)@.len() == old(all)@.len() + rs@.len(),
        forall|t: int| 0 <= t < old(all)@.len() ==> #[trigger] final(all)@[t] == old(all)@[t],
        forall|t: int| 0 <= t < rs@.len() ==> #[trigger] final(all)@[old(all)@.len() + t] == (rs@[t].0, rs@[t].1.value),
{
    let ghost start = all@;
    let mut i: usize = 0;
    while i < rs.len()
        invariant
            i <= rs@.len(),
            slab.same_source(root),
            root.spec_start() <= slab.spec_start(),
            slab.spec_end() <= root.spec_end(),
            forall|t: int| 0 <= t < rs@.len() ==> slab.in_range((#[trigger] rs@[t]).0 as int)
                && rs@[t].1.value == slab.query_dist(q, rs@[t].0 as int),
            forall|t: int| 0 <= t < all@.len() ==> {
                &&& root.in_range((#[trigger] all@[t]).0 as int)
                &&& all@[t].1 == root.query_dist(q, all@[t].0 as int)
            },
            all@.len() == start.len() + i,
            forall|t: int| 0 <= t < start.len() ==> #[trigger] all@[t] == start[t],
            forall|t: int| 0 <= t < i ==> #[trigger] all@[start.len() + t] == (rs@[t].0, rs@[t].1.value),
        decreases rs@.len() - i,
    {
        assert(slab.in_range(rs@[i as int].0 as int));
        all.push((rs[i].0, rs[i].1.value));
        i = i + 1;
    }
}

} // verus!
