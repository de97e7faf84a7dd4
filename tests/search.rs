use fann::base::{Cache, Distance, Info, InvalidRangeError, Key};
use fann::cache::{no_cache, no_local_cache, DistanceCache, DistanceLocalCacheFactory, InvalidParameterError, LocalCache};
use fann::dist::DistanceCmp;
use fann::forest::{Fann, FannForest, MisconfiguredTreeError, TreeNotBuiltError};
use fann::info::{no_info, BaseInfo};
use fann::provider::{LocalDistance, VecProvider};
use fann::tree::{centroid, isqrt, kmedoid, FannBuildParams, FannTree};

const SCALE: f64 = 1_000_000.0;

/// Euclidean distance in millionths.
#[derive(Clone, Copy, Debug)]
struct L2;

impl Distance<Vec<f64>> for L2 {
    fn cmp_of(&self, a: Vec<f64>, b: Vec<f64>) -> u64 {
        self.distance_cmp(&a, &b).to()
    }

    fn name_of(&self) -> String {
        self.name()
    }

    fn bytes_of(&self, a: Vec<f64>) -> Vec<u8> {
        self.hash_bytes(&a)
    }

    fn distance_cmp(&self, a: &Vec<f64>, b: &Vec<f64>) -> DistanceCmp {
        let s: f64 = a.iter().zip(b.iter()).map(|(x, y)| (x - y) * (x - y)).sum();
        DistanceCmp::of((s.sqrt() * SCALE).round() as u64)
    }

    fn name(&self) -> String {
        "l2".to_string()
    }

    fn hash_bytes(&self, a: &Vec<f64>) -> Vec<u8> {
        a.iter().flat_map(|v| v.to_be_bytes()).collect()
    }
}

fn finalize(d: DistanceCmp) -> f64 {
    d.to() as f64 / SCALE
}

fn pts(v: &[f64]) -> Vec<Vec<f64>> {
    v.iter().map(|&x| vec![x]).collect()
}

fn indices(r: &[(usize, DistanceCmp)]) -> Vec<usize> {
    let mut ix: Vec<usize> = r.iter().map(|e| e.0).collect();
    ix.sort();
    ix
}

fn build(p: &VecProvider<'_, Vec<f64>, L2>, max_node_size: Option<usize>) -> FannTree {
    let mut cache = no_cache();
    FannTree::build(p, &FannBuildParams { max_node_size }, &mut cache, &mut no_info())
}

#[test]
fn trivial_line_query() {
    let data = pts(&[0.0, 1.0, 2.0, 10.0, 11.0]);
    let p = VecProvider::new(&data, L2);
    let tree = build(&p, None);
    let r = tree.get_closest(2, &p, &vec![1.5], &mut no_info());
    assert_eq!(indices(&r), vec![1, 2]);
    assert_eq!(finalize(r[0].1), 0.5);
    assert_eq!(finalize(r[1].1), 0.5);
}

/// A small deterministic generator for synthetic corpora.
fn lcg(seed: &mut u64) -> f64 {
    *seed = seed.wrapping_mul(6364136223846793005).wrapping_add(1442695040888963407);
    ((*seed >> 11) as f64) / ((1u64 << 53) as f64)
}

fn corpus(n: usize, dim: usize, seed: u64) -> Vec<Vec<f64>> {
    let mut s = seed;
    (0..n).map(|_| (0..dim).map(|_| lcg(&mut s) * 10.0).collect()).collect()
}

fn brute(data: &Vec<Vec<f64>>, q: &Vec<f64>, k: usize) -> Vec<usize> {
    let mut d: Vec<(u64, usize)> = data.iter().enumerate().map(|(i, e)| (L2.distance_cmp(q, e).to(), i)).collect();
    d.sort();
    let mut r: Vec<usize> = d.into_iter().take(k).map(|e| e.1).collect();
    r.sort();
    r
}

#[test]
fn duplicate_embeddings_both_returned() {
    let data = vec![vec![1.0, 2.0], vec![1.0, 2.0], vec![5.0, -3.0]];
    let p = VecProvider::new(&data, L2);
    let tree = build(&p, None);
    let r = tree.get_closest(2, &p, &vec![1.0, 2.0], &mut no_info());
    assert_eq!(indices(&r), vec![0, 1]);
    assert_eq!(finalize(r[0].1), 0.0);
    assert_eq!(finalize(r[1].1), 0.0);
}

#[test]
fn radius_pruning_skips_far_clusters() {
    let data = vec![
        vec![0.0, 0.0], vec![1.0, 0.0], vec![0.0, 1.0],
        vec![100.0, 0.0], vec![101.0, 0.0], vec![100.0, 1.0],
        vec![0.0, 100.0], vec![1.0, 100.0], vec![0.0, 101.0],
    ];
    let p = VecProvider::new(&data, L2);
    let tree = build(&p, Some(3));
    let mut info = BaseInfo::new();
    let r = tree.get_closest(3, &p, &vec![100.5, 0.2], &mut info);
    assert_eq!(indices(&r), vec![3, 4, 5]);
    assert!(info.scan_count() < 9);
}

#[test]
fn fingerprint_mismatch_rejects_tree() {
    let data1 = corpus(20, 3, 7);
    let mut data2 = data1.clone();
    data2[4][1] = f64::from_bits(data2[4][1].to_bits() ^ 1);
    let first = VecProvider::new(&data1, L2);
    let second = VecProvider::new(&data2, L2);
    let tree = build(&first, None);
    let mut fann = Fann::new(second);
    assert_eq!(fann.set_tree(tree, false, false), Err(MisconfiguredTreeError));
    assert!(!fann.is_ready());
    let mut fann1 = Fann::new(VecProvider::new(&data1, L2));
    assert_eq!(fann1.set_tree(build(&first, None), false, false), Ok(()));
    assert!(fann1.is_ready());
    assert!(!fann1.is_dirty());
}

#[test]
fn forest_merge_matches_scan() {
    let data = corpus(250, 4, 11);
    let p = VecProvider::new(&data, L2);
    let mut forest = FannForest::create(p, 50, 100).unwrap();
    let sizes: Vec<(usize, usize)> = forest.get_trees().iter().map(|t| {
        let r = t.provider().all();
        (r.start, r.end)
    }).collect();
    assert_eq!(sizes, vec![(0, 100), (100, 200), (200, 250)]);
    assert_eq!(forest.get_remain().all(), 250..250);
    let mut cache = DistanceCache::new(100000).unwrap();
    forest.build_all(&FannBuildParams { max_node_size: None }, &mut cache, &mut no_info());
    let qs = corpus(20, 4, 99);
    for q in qs.iter() {
        for k in 1..=10 {
            let r = forest.get_closest(q, k, &mut no_info());
            assert_eq!(indices(&r), brute(&data, q, k));
            assert!(r.windows(2).all(|w| w[0].1.to() <= w[1].1.to()));
        }
    }
}

#[test]
fn kmedoid_terminates_on_two_seeds() {
    let data = pts(&[0.0, 1.0, 2.0, 3.0, 4.0, 5.0, 6.0, 7.0]);
    let p = VecProvider::new(&data, L2);
    let mut cache = no_cache();
    let all: Vec<usize> = (0..8).collect();
    let clusters = kmedoid(&p, all, Some(vec![0, 1]), 2, &mut cache, &mut no_info());
    assert_eq!(clusters.len(), 2);
    let mut members: Vec<usize> = clusters.iter().flat_map(|c| c.1.clone()).collect();
    members.sort();
    assert_eq!(members, (0..8).collect::<Vec<usize>>());
    for c in clusters.iter() {
        assert_eq!(c.1[0], c.0);
    }
    let mut centres: Vec<usize> = clusters.iter().map(|c| c.0).collect();
    centres.sort();
    assert_eq!(centres.len(), 2);
    assert!(centres[0] <= 3 && centres[1] >= 4);
}

#[test]
fn k_above_size_returns_all_sorted() {
    let data = corpus(12, 2, 3);
    let p = VecProvider::new(&data, L2);
    let tree = build(&p, Some(2));
    let r = tree.get_closest(50, &p, &vec![1.0, 1.0], &mut no_info());
    assert_eq!(indices(&r), (0..12).collect::<Vec<usize>>());
    assert!(r.windows(2).all(|w| w[0].1.to() <= w[1].1.to()));
}

#[test]
fn k_zero_returns_empty() {
    let data = corpus(12, 2, 3);
    let p = VecProvider::new(&data, L2);
    let tree = build(&p, None);
    assert!(tree.get_closest(0, &p, &vec![1.0, 1.0], &mut no_info()).is_empty());
    assert!(p.get_closest(&vec![1.0, 1.0], 0, &mut no_info()).is_empty());
}

#[test]
fn single_point_tree() {
    let data = vec![vec![3.0, 4.0]];
    let p = VecProvider::new(&data, L2);
    let tree = build(&p, None);
    assert_eq!(tree.root.centroid_index, 0);
    assert!(tree.root.children.is_empty());
    assert_eq!(tree.root.radius.to(), 0);
    let r = tree.get_closest(3, &p, &vec![0.0, 0.0], &mut no_info());
    assert_eq!(r.len(), 1);
    assert_eq!(r[0].0, 0);
    assert_eq!(finalize(r[0].1), 5.0);
}

#[test]
fn residual_only_forest_uses_brute_force() {
    let data = corpus(30, 3, 5);
    let p = VecProvider::new(&data, L2);
    let forest = FannForest::create(p, 40, 100).unwrap();
    assert_eq!(forest.get_trees().len(), 0);
    assert_eq!(forest.get_remain().all(), 0..30);
    let q = vec![5.0, 5.0, 5.0];
    let r = forest.get_closest(&q, 4, &mut no_info());
    assert_eq!(indices(&r), brute(&data, &q, 4));
}

#[test]
fn forest_keeps_short_tail_as_residual() {
    let data = corpus(230, 2, 8);
    let p = VecProvider::new(&data, L2);
    let mut forest = FannForest::create(p, 50, 100).unwrap();
    assert_eq!(forest.get_trees().len(), 2);
    assert_eq!(forest.get_remain().all(), 200..230);
    forest.build_all(&FannBuildParams { max_node_size: Some(4) }, &mut no_cache(), &mut no_info());
    let q = vec![2.0, 7.0];
    let r = forest.get_closest(&q, 230, &mut no_info());
    assert_eq!(indices(&r), (0..230).collect::<Vec<usize>>());
}

#[test]
fn forest_rejects_bad_sizes() {
    let data = corpus(10, 2, 1);
    assert_eq!(FannForest::create(VecProvider::new(&data, L2), 5, 4).err(), Some(InvalidParameterError));
    assert_eq!(FannForest::create(VecProvider::new(&data, L2), 0, 4).err(), Some(InvalidParameterError));
}

#[test]
fn zero_capacity_cache_is_rejected() {
    assert_eq!(DistanceCache::new(0).err(), Some(InvalidParameterError));
}

#[test]
fn lru_cache_returns_stored_values() {
    let mut c = DistanceCache::new(2).unwrap();
    assert_eq!(c.get(&Key::new(3, 1)), None);
    c.put(Key::new(3, 1), DistanceCmp::of(42));
    assert_eq!(c.get(&Key::new(1, 3)), Some(DistanceCmp::of(42)));
    c.put(Key::new(0, 1), DistanceCmp::of(7));
    c.put(Key::new(0, 2), DistanceCmp::of(8));
    assert_eq!(c.get(&Key::new(0, 2)), Some(DistanceCmp::of(8)));
    let mut n = no_cache();
    n.put(Key::new(0, 2), DistanceCmp::of(8));
    assert_eq!(n.get(&Key::new(0, 2)), None);
}

#[test]
fn pair_key_is_normalised() {
    assert_eq!(Key::new(5, 2), Key::new(2, 5));
    let k = Key::new(9, 4);
    assert_eq!((k.lower_index, k.upper_index), (4, 9));
}

#[test]
fn subrange_keeps_absolute_indices() {
    let data = corpus(10, 2, 4);
    let p = VecProvider::new(&data, L2);
    let s = p.subrange(3..7).unwrap();
    assert_eq!(s.all(), 3..7);
    let r = s.get_closest(&data[5], 1, &mut no_info());
    assert_eq!(r[0].0, 5);
    assert_eq!(r[0].1.to(), 0);
    assert_eq!(p.subrange(3..11).err(), Some(InvalidRangeError));
    assert_eq!(s.subrange(2..5).err(), Some(InvalidRangeError));
    assert_eq!(p.subrange(6..4).err(), Some(InvalidRangeError));
}

#[test]
fn fingerprint_depends_on_range_and_contents() {
    let data = corpus(10, 2, 4);
    let mut other = data.clone();
    other[9][0] += 1.0;
    let p = VecProvider::new(&data, L2);
    let h = p.compute_hash();
    assert_eq!(h.len(), 64);
    assert!(h.chars().all(|c| c.is_ascii_hexdigit() && !c.is_ascii_uppercase()));
    assert_eq!(h, VecProvider::new(&data.clone(), L2).compute_hash());
    assert_ne!(h, VecProvider::new(&other, L2).compute_hash());
    assert_ne!(h, p.subrange(0..9).unwrap().compute_hash());
    let tree = build(&p, None);
    assert_eq!(tree.fingerprint(), (h.as_str(), "l2"));
}

#[test]
fn tree_names_follow_slabs() {
    let data = corpus(250, 2, 2);
    let p = VecProvider::new(&data, L2);
    assert_eq!(FannForest::get_name(&p.subrange(100..200).unwrap()), "tree100-100");
    assert_eq!(FannForest::get_name(&p.subrange(0..7).unwrap()), "tree0-7");
}

#[test]
fn save_plan_needs_built_trees() {
    let data = corpus(250, 2, 2);
    let p = VecProvider::new(&data, L2);
    let mut forest = FannForest::create(p, 50, 100).unwrap();
    assert_eq!(forest.save_plan().err(), Some(TreeNotBuiltError));
    forest.build_all(&FannBuildParams { max_node_size: None }, &mut no_cache(), &mut no_info());
    let plan = forest.save_plan().unwrap();
    let names: Vec<String> = plan.into_iter().map(|e| e.1).collect();
    assert_eq!(names, vec!["tree0-100", "tree100-100", "tree200-50"]);
}

#[test]
fn build_is_deterministic_across_caches() {
    let data = corpus(60, 3, 21);
    let p = VecProvider::new(&data, L2);
    let a = build(&p, Some(3));
    let mut cache = DistanceCache::new(50).unwrap();
    let b = FannTree::build(&p, &FannBuildParams { max_node_size: Some(3) }, &mut cache, &mut no_info());
    fn flat(n: &fann::tree::Node, out: &mut Vec<(usize, u64, usize)>) {
        out.push((n.centroid_index, n.radius.to(), n.children.len()));
        for c in n.children.iter() {
            out.push((c.node.centroid_index, c.center_dist.to(), 0));
            flat(&c.node, out);
        }
    }
    let (mut fa, mut fb) = (Vec::new(), Vec::new());
    flat(&a.root, &mut fa);
    flat(&b.root, &mut fb);
    assert_eq!(fa, fb);
    assert_eq!(a.hash, b.hash);
}

#[test]
fn built_tree_passes_its_own_check() {
    let data = corpus(40, 2, 6);
    let p = VecProvider::new(&data, L2);
    let tree = build(&p, Some(3));
    assert!(tree.check(&p, &mut no_info()));
    let mut broken = build(&p, Some(3));
    broken.root.radius = DistanceCmp::of(broken.root.radius.to() + 1);
    assert!(!broken.check(&p, &mut no_info()));
}

#[test]
fn children_ordered_and_radius_is_largest_reach() {
    let data = corpus(50, 2, 13);
    let p = VecProvider::new(&data, L2);
    let tree = build(&p, Some(4));
    fn walk(n: &fann::tree::Node, data: &Vec<Vec<f64>>) {
        let mut reach = 0u64;
        for w in n.children.windows(2) {
            assert!(w[0].center_dist.to() >= w[1].center_dist.to());
        }
        for c in n.children.iter() {
            assert_eq!(c.center_dist, L2.distance_cmp(&data[n.centroid_index], &data[c.node.centroid_index]));
            reach = reach.max(c.center_dist.to() + c.node.radius.to());
            walk(&c.node, data);
        }
        assert_eq!(n.radius.to(), reach);
    }
    walk(&tree.root, &data);
}

#[test]
fn every_index_appears_once() {
    let data = corpus(70, 2, 17);
    let p = VecProvider::new(&data, L2);
    let tree = build(&p, Some(3));
    let mut out = Vec::new();
    tree.root.collect_indices(&mut out);
    out.sort();
    assert_eq!(out, (0..70).collect::<Vec<usize>>());
}

#[test]
fn coverage_holds_for_a_metric() {
    let data = corpus(64, 3, 31);
    let p = VecProvider::new(&data, L2);
    let tree = build(&p, Some(3));
    fn walk(n: &fann::tree::Node, data: &Vec<Vec<f64>>, slack: u64) -> Vec<usize> {
        let mut all = vec![n.centroid_index];
        for c in n.children.iter() {
            all.extend(walk(&c.node, data, slack));
        }
        for &x in all.iter() {
            assert!(L2.distance_cmp(&data[n.centroid_index], &data[x]).to() <= n.radius.to() + slack);
        }
        all
    }
    walk(&tree.root, &data, 8);
}

#[test]
fn medoid_and_integer_square_root() {
    let data = pts(&[0.0, 1.0, 2.0, 10.0, 11.0]);
    let p = VecProvider::new(&data, L2);
    let all: Vec<usize> = (0..5).collect();
    assert_eq!(centroid(&p, &all, &mut no_cache(), &mut no_info()), 2);
    assert_eq!(isqrt(0), 0);
    assert_eq!(isqrt(8), 2);
    assert_eq!(isqrt(9), 3);
    assert_eq!(isqrt(usize::MAX), 4294967295);
}

#[test]
fn observation_counters() {
    let data = pts(&[0.0, 1.0, 2.0, 3.0]);
    let p = VecProvider::new(&data, L2);
    let mut info = BaseInfo::new();
    let mut cache = DistanceCache::new(100).unwrap();
    let _ = FannTree::build(&p, &FannBuildParams { max_node_size: None }, &mut cache, &mut info);
    let (hits, miss) = info.cache_hits_miss();
    assert!(miss > 0);
    assert!(hits + miss > miss || hits == 0);
    assert_eq!(info.dist_count(), 4);
    info.clear();
    assert_eq!(info.cache_hits_miss(), (0, 0));
    assert_eq!(info.dist_count(), 0);
    assert_eq!(info.scan_count(), 0);
}

#[test]
fn fann_ndarray() {
    let data = corpus(1000, 8, 1234);
    let p = VecProvider::new(&data, L2);
    let main_provider = p.subrange(0..1000).unwrap();
    let mut forest = FannForest::create(main_provider, 100, 100).unwrap();
    let params = FannBuildParams { max_node_size: None };
    let mut cache = DistanceCache::new(1000000).unwrap();
    forest.build_all(&params, &mut cache, &mut no_info());
    let mut info = BaseInfo::new();
    for count in [10] {
        for ix in (0..data.len()).step_by(37) {
            let embed = &data[ix];
            let base_closest = p.get_closest(embed, count, &mut no_info());
            let closest_stream = forest.get_closest(embed, count, &mut info);
            assert_eq!(indices(&base_closest), indices(&closest_stream));
            info.clear();
            let closest_stream_ni = forest.get_closest(embed, count, &mut no_info());
            assert_eq!(indices(&base_closest), indices(&closest_stream_ni));
        }
    }
}

fn rebuild(n: &fann::tree::Node) -> fann::tree::Node {
    fann::tree::Node {
        centroid_index: n.centroid_index,
        radius: DistanceCmp::of(n.radius.to()),
        children: n
            .children
            .iter()
            .map(|c| fann::tree::Child { node: rebuild(&c.node), center_dist: DistanceCmp::of(c.center_dist.to()) })
            .collect(),
    }
}

#[test]
fn reloaded_tree_answers_like_the_built_one() {
    let data = corpus(120, 3, 41);
    let p = VecProvider::new(&data, L2);
    let tree = build(&p, Some(3));
    let copy = FannTree { root: rebuild(&tree.root), hash: tree.hash.clone(), distance_name: tree.distance_name.clone() };
    let mut fann = Fann::new(VecProvider::new(&data, L2));
    assert_eq!(fann.set_tree(copy, false, false), Ok(()));
    for q in corpus(10, 3, 77).iter() {
        for k in [1, 5, 17] {
            let a = tree.get_closest(k, &p, q, &mut no_info());
            let b = fann.get_closest(q, k, &mut no_info());
            assert_eq!(a, b);
        }
    }
}

#[test]
fn tree_rejected_for_other_kernel_name() {
    #[derive(Clone, Copy, Debug)]
    struct Renamed;
    impl Distance<Vec<f64>> for Renamed {
        fn cmp_of(&self, a: Vec<f64>, b: Vec<f64>) -> u64 {
            self.distance_cmp(&a, &b).to()
        }
        fn name_of(&self) -> String {
            self.name()
        }
        fn bytes_of(&self, a: Vec<f64>) -> Vec<u8> {
            self.hash_bytes(&a)
        }
        fn distance_cmp(&self, a: &Vec<f64>, b: &Vec<f64>) -> DistanceCmp {
            L2.distance_cmp(a, b)
        }
        fn name(&self) -> String {
            "other".to_string()
        }
        fn hash_bytes(&self, a: &Vec<f64>) -> Vec<u8> {
            L2.hash_bytes(a)
        }
    }
    let data = corpus(15, 2, 3);
    let tree = build(&VecProvider::new(&data, L2), None);
    let mut fann = Fann::new(VecProvider::new(&data, Renamed));
    assert_eq!(fann.set_tree(tree, false, false), Err(MisconfiguredTreeError));
    let tree = build(&VecProvider::new(&data, L2), None);
    assert_eq!(fann.set_tree(tree, true, true), Ok(()));
    assert!(fann.is_dirty());
}

#[test]
fn default_tree_search_matches_scan() {
    let data = corpus(90, 3, 57);
    let p = VecProvider::new(&data, L2);
    let tree = build(&p, None);
    assert!(tree.root.children.iter().all(|c| c.node.children.is_empty()));
    for q in corpus(25, 3, 58).iter() {
        for k in [1, 3, 10, 90, 120] {
            let r = tree.get_closest(k, &p, q, &mut no_info());
            assert_eq!(r.len(), k.min(90));
            assert_eq!(indices(&r), brute(&data, q, k));
            assert_eq!(indices(&r), indices(&p.get_closest(q, k, &mut no_info())));
        }
    }
}

#[test]
fn deep_tree_result_length_is_exact() {
    let data = corpus(80, 2, 91);
    let p = VecProvider::new(&data, L2);
    let tree = build(&p, Some(2));
    for q in corpus(10, 2, 92).iter() {
        for k in [0, 1, 7, 80, 81] {
            let r = tree.get_closest(k, &p, q, &mut no_info());
            assert_eq!(r.len(), k.min(80));
            let mut ix: Vec<usize> = r.iter().map(|e| e.0).collect();
            ix.dedup();
            assert_eq!(ix.len(), r.len());
        }
    }
}

#[test]
fn recursive_search_agrees_with_scan() {
    let data = corpus(90, 3, 61);
    let p = VecProvider::new(&data, L2);
    let flat = build(&p, None);
    let deep = build(&p, Some(3));
    for q in corpus(20, 3, 62).iter() {
        for k in [0, 1, 4, 10, 90, 95] {
            let r = flat.get_closest_recursive(k, &p, q, &mut no_info());
            assert_eq!(r.len(), k.min(90));
            assert_eq!(indices(&r), brute(&data, q, k));
            assert!(r.windows(2).all(|w| w[0].1.to() <= w[1].1.to()));
            let d = deep.get_closest_recursive(k, &p, q, &mut no_info());
            assert_eq!(d.len(), k.min(90));
            assert!(d.windows(2).all(|w| w[0].1.to() <= w[1].1.to()));
        }
    }
}

#[test]
fn finalize_is_monotone() {
    let sq = |d: DistanceCmp| (d.to() as f64 / SCALE).sqrt();
    let mut prev = 0.0;
    for v in [0u64, 1, 2, 10, 999, 1_000_000, 4_000_000, u64::MAX / 2, u64::MAX] {
        let f = sq(DistanceCmp::of(v));
        assert!(prev <= f);
        assert!(finalize(DistanceCmp::of(v)) >= 0.0);
        prev = f;
    }
    assert!(finalize(DistanceCmp::of(3)) <= finalize(DistanceCmp::of(4)));
}

#[test]
fn local_caches_and_local_distance() {
    let data = pts(&[0.0, 3.0, 7.0]);
    let q = vec![1.0];
    let p = VecProvider::new(&data, L2);
    let ld = LocalDistance::new(&p, &q);
    assert_eq!(finalize(ld.distance_cmp(2, &mut no_info())), 6.0);
    let mut none = no_local_cache().create(&q);
    none.put(1, DistanceCmp::of(5));
    assert_eq!(none.get(1), None);
    assert_eq!(none.embedding(), &q);
    let mut keep = DistanceLocalCacheFactory::new().create(&q);
    assert_eq!(keep.get(1), None);
    keep.put(1, DistanceCmp::of(5));
    assert_eq!(keep.get(1), Some(DistanceCmp::of(5)));
    assert_eq!(keep.embedding(), &q);
}

#[test]
fn saturating_distance_arithmetic() {
    assert_eq!(DistanceCmp::of(3).sub(DistanceCmp::of(5)), DistanceCmp::zero());
    assert_eq!(DistanceCmp::of(9).sub(DistanceCmp::of(5)), DistanceCmp::of(4));
    assert_eq!(DistanceCmp::inf().add(DistanceCmp::of(1)), DistanceCmp::inf());
    assert_eq!(DistanceCmp::of(2).add(DistanceCmp::of(5)), DistanceCmp::of(7));
    assert!(DistanceCmp::of(2).lt(&DistanceCmp::of(3)));
    assert!(DistanceCmp::of(3).le(&DistanceCmp::of(3)));
    assert!(DistanceCmp::of(4) < DistanceCmp::inf());
}

#[test]
fn malformed_tree_is_adopted_but_not_searched() {
    let data = corpus(40, 2, 71);
    let p = VecProvider::new(&data, L2);
    let mut broken = build(&p, Some(3));
    broken.root.radius = DistanceCmp::of(broken.root.radius.to() + 1);
    let mut fann = Fann::new(VecProvider::new(&data, L2));
    assert_eq!(fann.set_tree(broken, true, false), Ok(()));
    assert!(fann.is_ready());
    for q in corpus(5, 2, 72).iter() {
        let r = fann.get_closest(q, 6, &mut no_info());
        assert_eq!(indices(&r), brute(&data, q, 6));
    }
    let mut header_ok = build(&p, Some(3));
    header_ok.root.children.clear();
    let mut fann2 = Fann::new(VecProvider::new(&data, L2));
    assert_eq!(fann2.set_tree(header_ok, false, false), Ok(()));
    assert_eq!(fann2.get_closest(&data[3], 1, &mut no_info())[0].0, 3);
}

#[test]
fn load_tree_adopts_or_builds() {
    let data = corpus(250, 2, 33);
    let built = {
        let mut f = FannForest::create(VecProvider::new(&data, L2), 50, 100).unwrap();
        f.build_all(&FannBuildParams { max_node_size: None }, &mut no_cache(), &mut no_info());
        f
    };
    let mut forest = FannForest::create(VecProvider::new(&data, L2), 50, 100).unwrap();
    let params = FannBuildParams { max_node_size: None };
    let stored = built.get_trees()[0].get_tree().as_ref().map(|t| FannTree {
        root: rebuild(&t.root),
        hash: t.hash.clone(),
        distance_name: t.distance_name.clone(),
    });
    assert_eq!(forest.load_tree(0, stored, false, false, &params, &mut no_cache(), &mut no_info()), Ok(()));
    assert!(forest.get_trees()[0].is_ready() && !forest.get_trees()[0].is_dirty());
    assert_eq!(forest.load_tree(1, None, false, false, &params, &mut no_cache(), &mut no_info()), Ok(()));
    assert!(forest.get_trees()[1].is_ready() && forest.get_trees()[1].is_dirty());
    let wrong = built.get_trees()[0].get_tree().as_ref().map(|t| FannTree {
        root: rebuild(&t.root),
        hash: t.hash.clone(),
        distance_name: t.distance_name.clone(),
    });
    assert_eq!(
        forest.load_tree(2, wrong, false, false, &params, &mut no_cache(), &mut no_info()),
        Err(MisconfiguredTreeError)
    );
    assert!(!forest.get_trees()[2].is_ready());
}
