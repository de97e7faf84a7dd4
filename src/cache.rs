//! Pair caches used while building, and query-local caches.
use vstd::prelude::*;
use std::collections::HashMap;
use crate::base::{Cache, Key};
use crate::dist::DistanceCmp;

verus! {

/// `lru::LruCache`, held opaquely; its contents are seen through `lru_contents`.
#[verifier::external_type_specification]
#[verifier::external_body]
#[verifier::reject_recursive_types(K)]
#[verifier::reject_recursive_types(V)]
#[verifier::reject_recursive_types(S)]
pub struct ExLruCache<K, V, S>(lru::LruCache<K, V, S>);

/// `lru::DefaultHasher`, the hash builder that `LruCache` uses by default.
#[verifier::external_type_specification]
#[verifier::external_body]
pub struct ExLruHasher(lru::DefaultHasher);

/// Names the key-to-value map held by an LRU cache of pair distances.
pub uninterp spec fn lru_contents(c: lru::LruCache<(usize, usize), u64>) -> Map<(usize, usize), u64>;

/// Relies on `lru::LruCache::new`: an empty cache of the given positive capacity.
#[verifier::external_body]
fn lru_new(cap: usize) -> (r: lru::LruCache<(usize, usize), u64>)
    requires
        cap > 0,
    ensures
        lru_contents(r).dom().len() == 0,
        lru_contents(r).dom().finite(),
{
    lru::LruCache::new(std::num::NonZeroUsize::new(cap).unwrap())
}

/// Relies on `lru::LruCache::get`: the value stored under the key, if any; the
/// key set and values are unchanged (only recency moves).
#[verifier::external_body]
fn lru_get(c: &mut lru::LruCache<(usize, usize), u64>, k: (usize, usize)) -> (r: Option<u64>)
    ensures
        lru_contents(*final(c)) == lru_contents(*old(c)),
        r == (if lru_contents(*old(c)).contains_key(k) { Some(lru_contents(*old(c))[k]) } else { None }),
{
    c.get(&k).copied()
}

/// Relies on `lru::LruCache::put`: stores the value under the key, evicting at
/// most the least recently used other entry when the cache is full.
#[verifier::external_body]
fn lru_put(c: &mut lru::LruCache<(usize, usize), u64>, k: (usize, usize), v: u64)
    ensures
        lru_contents(*final(c)).contains_key(k),
        lru_contents(*final(c))[k] == v,
        lru_contents(*final(c)).submap_of(lru_contents(*old(c)).insert(k, v)),
{
    c.put(k, v);
}

/// A zero capacity was asked for.
#[derive(Clone, Copy, Debug, PartialEq, Eq, Structural)]
pub struct InvalidParameterError;

/// Bounded least-recently-used pair cache.
pub struct DistanceCache {
    lru: lru::LruCache<(usize, usize), u64>,
}

impl DistanceCache {
    pub fn new(cap: usize) -> (r: Result<Self, InvalidParameterError>)
        ensures
            r is Err <==> cap == 0,
            r matches Ok(c) ==> c.contents() == Map::<(usize, usize), u64>::empty(),
    {
        if cap == 0 {
            return Err(InvalidParameterError);
        }
        let lru = lru_new(cap);
        proof {
            let m = lru_contents(lru);
            assert(m.dom() =~= Set::empty()) by {
                if exists|k: (usize, usize)| m.dom().contains(k) {
                    let k = choose|k: (usize, usize)| m.dom().contains(k);
                    vstd::set_lib::lemma_len_subset(set![k], m.dom());
                    assert(false);
                }
            }
            assert(m =~= Map::<(usize, usize), u64>::empty());
        }
        Ok(DistanceCache { lru })
    }
}

impl Cache for DistanceCache {
    closed spec fn contents(&self) -> Map<(usize, usize), u64> {
        lru_contents(self.lru)
    }

    fn get(&mut self, key: &Key) -> (r: Option<DistanceCmp>) {
        match lru_get(&mut self.lru, (key.lower_index, key.upper_index)) {
            Some(v) => Some(DistanceCmp { value: v }),
            None => None,
        }
    }

    fn put(&mut self, key: Key, value: DistanceCmp) {
        lru_put(&mut self.lru, (key.lower_index, key.upper_index), value.value);
    }
}

/// The cache that remembers nothing.
#[derive(Clone, Copy, Debug)]
pub struct NoCache {}

pub fn no_cache() -> (r: NoCache)
    ensures
        r.contents() == Map::<(usize, usize), u64>::empty(),
{
    NoCache {}
}

impl Cache for NoCache {
    open spec fn contents(&self) -> Map<(usize, usize), u64> {
        Map::empty()
    }

    fn get(&mut self, key: &Key) -> (r: Option<DistanceCmp>) {
        None
    }

    fn put(&mut self, key: Key, value: DistanceCmp) {
    }
}

/// A memo of query-to-corpus distances for one query embedding.
pub trait LocalCache<'a, T> {
    spec fn local_contents(&self) -> Map<usize, u64>;

    fn get(&mut self, index: usize) -> (r: Option<DistanceCmp>)
        ensures
            final(self).local_contents() == old(self).local_contents(),
            r matches Some(d) ==> old(self).local_contents().contains_key(index)
                && old(self).local_contents()[index] == d.value,
    ;

    fn put(&mut self, index: usize, value: DistanceCmp)
        ensures
            final(self).local_contents().submap_of(old(self).local_contents().insert(index, value.value)),
    ;

    fn embedding(&self) -> &'a T;
}

/// The query-local cache that remembers nothing.
#[derive(Clone, Copy, Debug)]
pub struct NoLocalCache<'a, T> {
    embed: &'a T,
}

impl<'a, T> LocalCache<'a, T> for NoLocalCache<'a, T> {
    open spec fn local_contents(&self) -> Map<usize, u64> {
        Map::empty()
    }

    fn get(&mut self, index: usize) -> (r: Option<DistanceCmp>) {
        None
    }

    fn put(&mut self, index: usize, value: DistanceCmp) {
    }

    fn embedding(&self) -> &'a T {
        self.embed
    }
}

impl<'a, T> NoLocalCache<'a, T> {
    pub closed spec fn embedding_spec(&self) -> &'a T {
        self.embed
    }
}

#[derive(Clone, Copy, Debug)]
pub struct NoLocalCacheFactory {}

pub fn no_local_cache() -> (r: NoLocalCacheFactory) {
    NoLocalCacheFactory {}
}

impl NoLocalCacheFactory {
    pub fn create<'a, T>(&self, embed: &'a T) -> (r: NoLocalCache<'a, T>)
        ensures
            r.embedding_spec() == embed,
    {
        NoLocalCache { embed }
    }
}

/// Query-local cache keeping every distance it is given.
pub struct DistanceLocalCache<'a, T> {
    map: HashMap<usize, DistanceCmp>,
    embed: &'a T,
}

impl<'a, T> LocalCache<'a, T> for DistanceLocalCache<'a, T> {
    closed spec fn local_contents(&self) -> Map<usize, u64> {
        Map::new(|i: usize| self.map@.contains_key(i), |i: usize| self.map@[i].value)
    }

    fn get(&mut self, index: usize) -> (r: Option<DistanceCmp>) {
        match self.map.get(&index) {
            Some(d) => Some(*d),
            None => None,
        }
    }

    fn put(&mut self, index: usize, value: DistanceCmp) {
        self.map.insert(index, value);
        assert(self.local_contents() =~= old(self).local_contents().insert(index, value.value));
    }

    fn embedding(&self) -> &'a T {
        self.embed
    }
}

#[derive(Clone, Copy, Debug)]
pub struct DistanceLocalCacheFactory {}

impl DistanceLocalCacheFactory {
    pub fn new() -> (r: Self) {
        DistanceLocalCacheFactory {}
    }

    pub fn create<'a, T>(&self, embed: &'a T) -> (r: DistanceLocalCache<'a, T>)
        ensures
            r.local_contents() == Map::<usize, u64>::empty(),
            r.embedding_spec() == embed,
    {
        let r = DistanceLocalCache { map: HashMap::new(), embed };
        assert(r.local_contents() =~= Map::<usize, u64>::empty());
        r
    }
}

impl<'a, T> DistanceLocalCache<'a, T> {
    pub closed spec fn embedding_spec(&self) -> &'a T {
        self.embed
    }
}

} // verus!
