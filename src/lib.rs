//! Approximate nearest-neighbour search over a static corpus of embeddings,
//! using a forest of metric trees built by recursive k-medoid partitioning
//! and searched by branch-and-bound.
//!
//! - [`dist`]: the orderable, saturating distance value.
//! - [`base`]: the pair key and the caller-supplied kernel, cache and sink traits.
//! - [`provider`]: an absolute-indexed window onto the corpus, its fingerprint
//!   and an exhaustive scan.
//! - [`cache`] and [`info`]: pair caches and observation sinks.
//! - [`tree`]: tree nodes, their invariants and the k-medoid build.
//! - [`search`]: branch-and-bound search of one tree.
//! - [`forest`]: slabs, per-slab trees, merged queries and persistence plans.
//! - [`laws`]: properties of built trees and searches under metric kernels.
//! - [`topk`]: the bounded, ordered result buffer.

pub mod base;
pub mod cache;
pub mod dist;
pub mod forest;
pub mod info;
pub mod laws;
pub mod provider;
pub mod search;
pub mod topk;
pub mod tree;
