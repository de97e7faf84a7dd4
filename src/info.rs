//! Observation sinks: counters of cache accesses, distance evaluations and
//! scanned nodes.
use vstd::prelude::*;
use std::collections::{HashMap, HashSet};
use crate::base::{Info, Observation};

verus! {

/// The sink that records nothing.
#[derive(Clone, Copy, Debug)]
pub struct NoInfo;

pub fn no_info() -> (r: NoInfo)
    ensures
        !r.records(),
        r.counters() == (0u64, 0u64),
        r.scanned_set() == Set::<usize>::empty(),
        r.evaluated_set() == Set::<usize>::empty(),
{
    NoInfo
}

impl Info for NoInfo {
    open spec fn records(&self) -> bool {
        false
    }

    open spec fn observations(&self) -> Seq<Observation> {
        Seq::empty()
    }

    open spec fn counters(&self) -> (u64, u64) {
        (0, 0)
    }

    open spec fn scanned_set(&self) -> Set<usize> {
        Set::empty()
    }

    open spec fn evaluated_set(&self) -> Set<usize> {
        Set::empty()
    }

    fn log_cache_access(&mut self, is_miss: bool) {
    }

    fn log_scan(&mut self, index: usize, is_outer: bool) {
    }

    fn log_dist(&mut self, index: usize) {
    }

    fn cache_hits_miss(&self) -> (u64, u64) {
        (0, 0)
    }

    fn scan_count(&self) -> usize {
        0
    }

    fn dist_count(&self) -> usize {
        0
    }

    fn clear(&mut self) {
    }
}

/// Counts cache hits and misses, remembers which nodes were scanned (and in
/// which branch) and which corpus indices had a distance evaluated.
pub struct BaseInfo {
    hits: u64,
    miss: u64,
    scan_map: HashMap<usize, bool>,
    dist_set: HashSet<usize>,
    log: Ghost<Seq<Observation>>,
}

impl BaseInfo {
    pub closed spec fn spec_hits(&self) -> u64 {
        self.hits
    }

    pub closed spec fn spec_miss(&self) -> u64 {
        self.miss
    }

    pub closed spec fn spec_scans(&self) -> Map<usize, bool> {
        self.scan_map@
    }

    pub closed spec fn spec_dists(&self) -> Set<usize> {
        self.dist_set@
    }

    pub fn new() -> (r: BaseInfo)
        ensures
            r.spec_hits() == 0,
            r.spec_miss() == 0,
            r.spec_scans() == Map::<usize, bool>::empty(),
            r.spec_dists() == Set::<usize>::empty(),
            r.records(),
            r.observations() == Seq::<Observation>::empty(),
            r.counters() == (0u64, 0u64),
            r.scanned_set() == Set::<usize>::empty(),
            r.evaluated_set() == Set::<usize>::empty(),
    {
        BaseInfo { hits: 0, miss: 0, scan_map: HashMap::new(), dist_set: HashSet::new(), log: Ghost(Seq::empty()) }
    }

    /// Whether `index` was scanned, and if so whether as an outer node.
    pub fn scanned(&self, index: usize) -> (r: Option<bool>)
        ensures
            r == (if self.spec_scans().contains_key(index) { Some(self.spec_scans()[index]) } else { None }),
    {
        match self.scan_map.get(&index) {
            Some(b) => Some(*b),
            None => None,
        }
    }

    /// Whether a distance to `index` was evaluated.
    pub fn has_dist(&self, index: usize) -> (r: bool)
        ensures
            r == self.spec_dists().contains(index),
    {
        self.dist_set.contains(&index)
    }
}

impl Info for BaseInfo {
    open spec fn records(&self) -> bool {
        true
    }

    closed spec fn observations(&self) -> Seq<Observation> {
        self.log@
    }

    closed spec fn counters(&self) -> (u64, u64) {
        (self.hits, self.miss)
    }

    closed spec fn scanned_set(&self) -> Set<usize> {
        self.scan_map@.dom()
    }

    closed spec fn evaluated_set(&self) -> Set<usize> {
        self.dist_set@
    }

    fn log_cache_access(&mut self, is_miss: bool) {
        if is_miss {
            self.miss = self.miss.saturating_add(1);
        } else {
            self.hits = self.hits.saturating_add(1);
        }
        self.log = Ghost(self.log@.push(Observation::CacheAccess(is_miss)));
    }

    fn log_scan(&mut self, index: usize, is_outer: bool) {
        self.scan_map.insert(index, is_outer);
        self.log = Ghost(self.log@.push(Observation::Scan(index, is_outer)));
    }

    fn log_dist(&mut self, index: usize) {
        self.dist_set.insert(index);
        self.log = Ghost(self.log@.push(Observation::Dist(index)));
    }

    fn cache_hits_miss(&self) -> (u64, u64) {
        (self.hits, self.miss)
    }

    fn scan_count(&self) -> usize {
        self.scan_map.len()
    }

    fn dist_count(&self) -> usize {
        self.dist_set.len()
    }

    fn clear(&mut self) {
        self.hits = 0;
        self.miss = 0;
        self.scan_map = HashMap::new();
        self.dist_set = HashSet::new();
        self.log = Ghost(Seq::empty());
    }
}

} // verus!
