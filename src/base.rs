//! Kernel, provider, pair key and the two caller-owned capabilities
//! (pair cache and observation sink).
use vstd::prelude::*;
use crate::dist::DistanceCmp;

verus! {

/// The unordered pair `{a, b}` of corpus indices, smaller index first.
#[derive(Clone, Copy, Debug, PartialEq, Eq, Structural, Hash)]
pub struct Key {
    pub lower_index: usize,
    pub upper_index: usize,
}

impl Key {
    pub open spec fn spec_pair(self) -> (usize, usize) {
        (self.lower_index, self.upper_index)
    }

    /// The normalised pair of two indices.
    pub open spec fn new_spec(index_a: usize, index_b: usize) -> (usize, usize) {
        if index_a <= index_b { (index_a, index_b) } else { (index_b, index_a) }
    }

    pub fn new(index_a: usize, index_b: usize) -> (r: Self)
        ensures
            r.lower_index == if index_a <= index_b { index_a } else { index_b },
            r.upper_index == if index_a <= index_b { index_b } else { index_a },
            r.spec_pair() == Key::new_spec(index_a, index_b),
    {
        if index_a <= index_b {
            Key { lower_index: index_a, upper_index: index_b }
        } else {
            Key { lower_index: index_b, upper_index: index_a }
        }
    }
}

/// A sub-range lies outside the provider it was asked of.
#[derive(Clone, Copy, Debug, PartialEq, Eq, Structural)]
pub struct InvalidRangeError;

/// A distance kernel over embeddings of type `T`.
///
/// Each operation is a pure function of its arguments: `cmp_of`, `name_of`
/// and `bytes_of` name what `distance_cmp`, `name` and `hash_bytes` return,
/// and an implementation defines each of them as the same computation as its
/// executable counterpart. Kernels are expected to be symmetric and to give
/// zero on equal embeddings; pruning is exact when the kernel also obeys the
/// triangle inequality (see [`crate::laws`]).
pub trait Distance<T> {
    spec fn cmp_of(&self, a: T, b: T) -> u64;

    spec fn name_of(&self) -> String;

    spec fn bytes_of(&self, a: T) -> Vec<u8>;

    fn distance_cmp(&self, a: &T, b: &T) -> (r: DistanceCmp)
        ensures
            r.value == self.cmp_of(*a, *b),
    ;

    /// Stable identifier, recorded with every tree built under this kernel.
    fn name(&self) -> (r: String)
        ensures
            r@ == self.name_of()@,
    ;

    /// Big-endian bytes of an embedding, fed to the provider's fingerprint.
    fn hash_bytes(&self, a: &T) -> (r: Vec<u8>)
        ensures
            r@ == self.bytes_of(*a)@,
    ;
}

/// A memo of pair distances consulted while building trees.
///
/// The cache is advisory: it may forget entries at any time, but it only
/// ever answers with a value that was put under the same key.
pub trait Cache {
    spec fn contents(&self) -> Map<(usize, usize), u64>;

    fn get(&mut self, key: &Key) -> (r: Option<DistanceCmp>)
        ensures
            final(self).contents() == old(self).contents(),
            r matches Some(d) ==> old(self).contents().contains_key(key.spec_pair())
                && old(self).contents()[key.spec_pair()] == d.value,
    ;

    fn put(&mut self, key: Key, value: DistanceCmp)
        ensures
            final(self).contents().submap_of(
                old(self).contents().insert(key.spec_pair(), value.value),
            ),
    ;
}

/// One observation reported to a sink.
#[derive(Clone, Copy, Debug, PartialEq, Eq, Structural)]
pub enum Observation {
    /// A pair-cache consultation; `true` on a miss.
    CacheAccess(bool),
    /// A node scanned by a search, and whether the query lay outside its ball.
    Scan(usize, bool),
    /// A distance evaluated to a corpus index.
    Dist(usize),
}

/// The hit and miss counters after one more cache access (saturating).
pub open spec fn count_access(c: (u64, u64), is_miss: bool) -> (u64, u64) {
    if is_miss {
        (c.0, if c.1 < 0xffff_ffff_ffff_ffff { (c.1 + 1) as u64 } else { c.1 })
    } else {
        (if c.0 < 0xffff_ffff_ffff_ffff { (c.0 + 1) as u64 } else { c.0 }, c.1)
    }
}

/// Observation hooks called by builds and searches; the counters they keep
/// carry no meaning for the results.
///
/// A sink that `records()` keeps every observation, in order, in
/// `observations()`; one that does not keeps nothing. `counters()` are the
/// cache hit and miss counts that `cache_hits_miss` reports.
pub trait Info {
    spec fn records(&self) -> bool;

    spec fn observations(&self) -> Seq<Observation>;

    spec fn counters(&self) -> (u64, u64);

    spec fn scanned_set(&self) -> Set<usize>;

    spec fn evaluated_set(&self) -> Set<usize>;

    fn log_cache_access(&mut self, is_miss: bool)
        ensures
            final(self).records() == old(self).records(),
            old(self).records() ==> final(self).observations() == old(self).observations().push(
                Observation::CacheAccess(is_miss),
            ) && final(self).counters() == count_access(old(self).counters(), is_miss),
            !old(self).records() ==> final(self).counters() == old(self).counters(),
            final(self).scanned_set() == old(self).scanned_set(),
            final(self).evaluated_set() == old(self).evaluated_set(),
    ;

    fn log_scan(&mut self, index: usize, is_outer: bool)
        ensures
            final(self).records() == old(self).records(),
            old(self).records() ==> final(self).observations() == old(self).observations().push(
                Observation::Scan(index, is_outer),
            ),
            final(self).counters() == old(self).counters(),
            final(self).scanned_set() == if old(self).records() { old(self).scanned_set().insert(index) } else {
                old(self).scanned_set()
            },
            final(self).evaluated_set() == old(self).evaluated_set(),
    ;

    fn log_dist(&mut self, index: usize)
        ensures
            final(self).records() == old(self).records(),
            old(self).records() ==> final(self).observations() == old(self).observations().push(
                Observation::Dist(index),
            ),
            final(self).counters() == old(self).counters(),
            final(self).evaluated_set() == if old(self).records() { old(self).evaluated_set().insert(index) } else {
                old(self).evaluated_set()
            },
            final(self).scanned_set() == old(self).scanned_set(),
    ;

    fn cache_hits_miss(&self) -> (r: (u64, u64))
        ensures
            r == self.counters(),
    ;

    /// Number of distinct nodes scanned.
    fn scan_count(&self) -> (r: usize)
        ensures
            r == self.scanned_set().len(),
    ;

    /// Number of distinct corpus indices whose distance was evaluated.
    fn dist_count(&self) -> (r: usize)
        ensures
            r == self.evaluated_set().len(),
    ;

    fn clear(&mut self)
        ensures
            final(self).records() == old(self).records(),
            final(self).observations() == Seq::<Observation>::empty(),
            final(self).counters() == (0u64, 0u64),
            final(self).scanned_set() == Set::<usize>::empty(),
            final(self).evaluated_set() == Set::<usize>::empty(),
    ;
}

} // verus!
