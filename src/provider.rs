//! The embedding provider: an absolute-indexed window onto the corpus,
//! bound to a distance kernel.
use vstd::prelude::*;
use blake2::Digest;
use crate::base::{Cache, Distance, Info, InvalidRangeError, Key, Observation};
use crate::dist::DistanceCmp;
use crate::topk::{has_index, insert_bounded, sorted};

verus! {

/// Names the lowercase hexadecimal Blake2s-256 digest of a byte string.
pub uninterp spec fn blake2s_hex(bytes: Seq<u8>) -> Seq<char>;

/// Relies on `blake2::Blake2s256` through `digest::Digest` and on the
/// `LowerHex` rendering of its 32-byte output: 64 hex digits that depend on
/// the bytes alone.
#[verifier::external_body]
fn blake2s_hex_digest(bytes: &Vec<u8>) -> (r: String)
    ensures
        r@ == blake2s_hex(bytes@),
        r@.len() == 64,
{
    let mut hasher = blake2::Blake2s256::new();
    hasher.update(bytes);
    format!("{:x}", hasher.finalize())
}

/// Big-endian bytes of a 64-bit value.
pub open spec fn be_bytes(x: u64) -> Seq<u8> {
    seq![
        (x >> 56u64) as u8, (x >> 48u64) as u8, (x >> 40u64) as u8, (x >> 32u64) as u8,
        (x >> 24u64) as u8, (x >> 16u64) as u8, (x >> 8u64) as u8, x as u8,
    ]
}

fn push_be_bytes(out: &mut Vec<u8>, x: u64)
    ensures
        final(out)@ == old(out)@ + be_bytes(x),
{
    out.push((x >> 56u64) as u8);
    out.push((x >> 48u64) as u8);
    out.push((x >> 40u64) as u8);
    out.push((x >> 32u64) as u8);
    out.push((x >> 24u64) as u8);
    out.push((x >> 16u64) as u8);
    out.push((x >> 8u64) as u8);
    out.push(x as u8);
    assert(final(out)@ =~= old(out)@ + be_bytes(x));
}

/// A corpus of embeddings seen through the index range `[start, end)`.
pub struct VecProvider<'a, T, D> {
    embeddings: &'a Vec<T>,
    start: usize,
    end: usize,
    distance: D,
}

impl<'a, T, D: Distance<T> + Copy> VecProvider<'a, T, D> {
    pub closed spec fn spec_start(&self) -> usize {
        self.start
    }

    pub closed spec fn spec_end(&self) -> usize {
        self.end
    }

    pub closed spec fn spec_embeddings(&self) -> Seq<T> {
        self.embeddings@
    }

    pub closed spec fn spec_distance(&self) -> D {
        self.distance
    }

    /// Both providers view the same corpus through the same kernel.
    pub open spec fn same_source(&self, other: Self) -> bool {
        &&& self.spec_embeddings() == other.spec_embeddings()
        &&& self.spec_distance() == other.spec_distance()
    }

    pub open spec fn wf(&self) -> bool {
        self.spec_start() <= self.spec_end() <= self.spec_embeddings().len()
    }

    pub open spec fn in_range(&self, i: int) -> bool {
        self.spec_start() <= i < self.spec_end()
    }

    pub open spec fn size(&self) -> nat {
        (self.spec_end() - self.spec_start()) as nat
    }

    /// The kernel applied to two corpus indices.
    pub open spec fn dist_spec(&self, a: int, b: int) -> u64 {
        self.spec_distance().cmp_of(self.spec_embeddings()[a], self.spec_embeddings()[b])
    }

    /// The kernel applied to an unordered pair, smaller index first.
    pub open spec fn pair_dist(&self, a: int, b: int) -> u64 {
        if a <= b { self.dist_spec(a, b) } else { self.dist_spec(b, a) }
    }

    /// The kernel applied to a query and a corpus index.
    pub open spec fn query_dist(&self, q: T, i: int) -> u64 {
        self.spec_distance().cmp_of(q, self.spec_embeddings()[i])
    }

    /// Every value in the cache is the distance of its pair.
    pub open spec fn cache_ok(&self, contents: Map<(usize, usize), u64>) -> bool {
        forall|k: (usize, usize)| #[trigger] contents.contains_key(k)
            ==> contents[k] == self.dist_spec(k.0 as int, k.1 as int)
    }

    /// The bytes hashed into the fingerprint: range bounds, then every
    /// embedding of the range in index order.
    pub open spec fn fingerprint_bytes(&self) -> Seq<u8> {
        be_bytes(self.spec_start() as u64) + be_bytes(self.spec_end() as u64)
            + self.embed_bytes_upto(self.spec_end() as int)
    }

    pub open spec fn embed_bytes_upto(&self, i: int) -> Seq<u8>
        decreases i - self.spec_start(),
    {
        if i <= self.spec_start() {
            Seq::empty()
        } else {
            self.embed_bytes_upto(i - 1) + self.spec_distance().bytes_of(self.spec_embeddings()[i - 1])@
        }
    }

    pub open spec fn fingerprint_spec(&self) -> Seq<char> {
        blake2s_hex(self.fingerprint_bytes())
    }

    pub fn new(embeddings: &'a Vec<T>, distance: D) -> (r: Self)
        ensures
            r.wf(),
            r.spec_start() == 0,
            r.spec_end() == embeddings@.len(),
            r.spec_embeddings() == embeddings@,
            r.spec_distance() == distance,
    {
        VecProvider { embeddings, start: 0, end: embeddings.len(), distance }
    }

    pub fn all(&self) -> (r: std::ops::Range<usize>)
        ensures
            r.start == self.spec_start(),
            r.end == self.spec_end(),
    {
        std::ops::Range { start: self.start, end: self.end }
    }

    pub fn distance(&self) -> (r: &D)
        ensures
            *r == self.spec_distance(),
    {
        &self.distance
    }

    /// A provider over `new_range`, keeping absolute indices.
    pub fn subrange(&self, new_range: std::ops::Range<usize>) -> (r: Result<Self, InvalidRangeError>)
        requires
            self.wf(),
        ensures
            r is Ok <==> (self.spec_start() <= new_range.start && new_range.start <= new_range.end
                && new_range.end <= self.spec_end()),
            r matches Ok(p) ==> p.wf() && p.spec_start() == new_range.start
                && p.spec_end() == new_range.end && p.spec_embeddings() == self.spec_embeddings()
                && p.spec_distance() == self.spec_distance(),
    {
        if new_range.start < self.start || new_range.end > self.end || new_range.start > new_range.end {
            return Err(InvalidRangeError);
        }
        Ok(VecProvider {
            embeddings: self.embeddings,
            start: new_range.start,
            end: new_range.end,
            distance: self.distance,
        })
    }

    /// Distance between two corpus indices, through the pair cache: the kernel
    /// applied with the smaller index first, which is the kernel's distance
    /// between the two for a symmetric kernel. The sink sees both indices and
    /// one cache access, a hit only when the cache held the pair.
    pub fn dist_internal<C: Cache, I: Info>(
        &self,
        aindex: usize,
        bindex: usize,
        cache: &mut C,
        info: &mut I,
    ) -> (r: DistanceCmp)
        requires
            self.wf(),
            self.in_range(aindex as int),
            self.in_range(bindex as int),
            self.cache_ok(old(cache).contents()),
        ensures
            r.value == self.pair_dist(aindex as int, bindex as int),
            self.cache_ok(final(cache).contents()),
            final(cache).contents().submap_of(old(cache).contents().insert(Key::new_spec(aindex, bindex), r.value)),
            final(info).records() == old(info).records(),
            final(info).records() ==> exists|is_miss: bool| final(info).observations() == old(info).observations()
                + seq![Observation::Dist(aindex), Observation::Dist(bindex), Observation::CacheAccess(is_miss)]
                && (!is_miss ==> old(cache).contents().contains_key(Key::new_spec(aindex, bindex)))
                && (is_miss ==> final(cache).contents().submap_of(
                    old(cache).contents().insert(Key::new_spec(aindex, bindex), r.value),
                )),
    {
        info.log_dist(aindex);
        info.log_dist(bindex);
        let key = Key::new(aindex, bindex);
        match cache.get(&key) {
            Some(res) => {
                info.log_cache_access(false);
                assert(info.records() ==> info.observations() =~= old(info).observations()
                    + seq![Observation::Dist(aindex), Observation::Dist(bindex), Observation::CacheAccess(false)]);
                res
            },
            None => {
                info.log_cache_access(true);
                assert(info.records() ==> info.observations() =~= old(info).observations()
                    + seq![Observation::Dist(aindex), Observation::Dist(bindex), Observation::CacheAccess(true)]);
                let res = self.distance.distance_cmp(
                    &self.embeddings[key.lower_index],
                    &self.embeddings[key.upper_index],
                );
                let ghost before = cache.contents();
                cache.put(key, res);
                assert forall|k: (usize, usize)| #[trigger] cache.contents().contains_key(k)
                    implies cache.contents()[k] == self.dist_spec(k.0 as int, k.1 as int) by {
                    assert(before.insert(key.spec_pair(), res.value).contains_key(k));
                }
                res
            },
        }
    }

    /// Distance from a query to a corpus index.
    pub fn query_distance<I: Info>(&self, q: &T, index: usize, info: &mut I) -> (r: DistanceCmp)
        requires
            self.wf(),
            self.in_range(index as int),
        ensures
            r.value == self.query_dist(*q, index as int),
            final(info).records() == old(info).records(),
            final(info).records() ==> final(info).observations() == old(info).observations().push(
                Observation::Dist(index),
            ),
    {
        info.log_dist(index);
        self.distance.distance_cmp(q, &self.embeddings[index])
    }

    /// Content fingerprint of the provider's range.
    pub fn compute_hash(&self) -> (r: String)
        requires
            self.wf(),
        ensures
            r@ == self.fingerprint_spec(),
            r@.len() == 64,
    {
        let mut bytes: Vec<u8> = Vec::new();
        push_be_bytes(&mut bytes, self.start as u64);
        push_be_bytes(&mut bytes, self.end as u64);
        let ghost head = bytes@;
        let mut i: usize = self.start;
        while i < self.end
            invariant
                self.wf(),
                self.spec_start() <= i <= self.spec_end(),
                bytes@ == head + self.embed_bytes_upto(i as int),
            decreases self.end - i,
        {
            let b = self.distance.hash_bytes(&self.embeddings[i]);
            let mut j: usize = 0;
            let ghost before = bytes@;
            while j < b.len()
                invariant
                    j <= b@.len(),
                    bytes@ == before + b@.take(j as int),
                decreases b@.len() - j,
            {
                bytes.push(b[j]);
                assert(b@.take(j + 1) =~= b@.take(j as int).push(b@[j as int]));
                j = j + 1;
            }
            assert(b@.take(j as int) =~= b@);
            i = i + 1;
            assert(bytes@ =~= head + self.embed_bytes_upto(i as int));
        }
        blake2s_hex_digest(&bytes)
    }

    /// Exhaustive scan of the range: the `count` nearest indices to `q`,
    /// ascending by distance.
    pub fn get_closest<I: Info>(&self, q: &T, count: usize, info: &mut I) -> (r: Vec<(usize, DistanceCmp)>)
        requires
            self.wf(),
        ensures
            sorted(r@),
            r@.len() == if count <= self.size() { count as nat } else { self.size() },
            forall|i: int| 0 <= i < r@.len() ==> self.in_range(r@[i].0 as int)
                && r@[i].1.value == self.query_dist(*q, r@[i].0 as int),
            forall|i: int, j: int| 0 <= i < j < r@.len() ==> r@[i].0 != r@[j].0,
            forall|x: int| self.in_range(x) && !has_index(r@, x)
                ==> r@.len() == count && (count > 0 ==> r@[r@.len() - 1].1.value <= self.query_dist(*q, x)),
            count >= self.size() ==> forall|x: int| self.in_range(x) ==> has_index(r@, x),
    {
        let mut res: Vec<(usize, DistanceCmp)> = Vec::new();
        let mut i: usize = self.start;
        while i < self.end
            invariant
                self.wf(),
                self.spec_start() <= i <= self.spec_end(),
                sorted(res@),
                res@.len() == if count <= i - self.spec_start() { count as int } else { i - self.spec_start() },
                forall|t: int| 0 <= t < res@.len() ==> self.spec_start() <= res@[t].0 < i
                    && res@[t].1.value == self.query_dist(*q, res@[t].0 as int),
                forall|t: int, u: int| 0 <= t < u < res@.len() ==> res@[t].0 != res@[u].0,
                forall|x: int| self.spec_start() <= x < i && !has_index(res@, x)
                    ==> res@.len() == count && (count > 0 ==> res@[res@.len() - 1].1.value <= self.query_dist(*q, x)),
                count >= i - self.spec_start() ==> forall|x: int| self.spec_start() <= x < i ==> has_index(res@, x),
            decreases self.end - i,
        {
            let d = self.query_distance(q, i, info);
            let ghost old_res = res@;
            if res.len() < count || (res.len() > 0 && d.value < res[res.len() - 1].1.value) {
                let p = insert_bounded(&mut res, (i, d), count);
                let ghost ins = old_res.insert(p as int, (i, d));
                assert(ins[p as int] == (i, d));
                proof {
                    if old_res.len() == count {
                        assert(ins[count as int] == old_res[count - 1]);
                    }
                }
                assert(has_index(res@, i as int)) by {
                    assert(res@[p as int] == (i, d));
                }
                proof {
                    if count >= i + 1 - self.spec_start() {
                        assert(res@ == ins);
                        assert forall|x: int| self.spec_start() <= x < i + 1 implies has_index(res@, x) by {
                            if x < i {
                                assert(has_index(old_res, x));
                                let t = choose|t: int| 0 <= t < old_res.len() && old_res[t].0 == x;
                                let t2 = if t < p { t } else { t + 1 };
                                assert(ins[t2].0 == x);
                                assert(res@[t2].0 == x);
                            }
                        }
                    }
                }
                assert forall|x: int| self.spec_start() <= x < i + 1 && !has_index(res@, x)
                    implies res@.len() == count && (count > 0 ==> res@[res@.len() - 1].1.value <= self.query_dist(*q, x)) by {
                    if has_index(old_res, x) {
                        let t = choose|t: int| 0 <= t < old_res.len() && old_res[t].0 == x;
                        let t2 = if t < p { t } else { t + 1 };
                        assert(ins[t2].0 == x);
                        if t2 < res@.len() {
                            assert(res@[t2].0 == x);
                        }
                        assert(res@[count - 1] == ins[count - 1]);
                    } else {
                        assert(res@[count - 1] == ins[count - 1]);
                    }
                }
                assert forall|t: int, u: int| 0 <= t < u < res@.len() implies res@[t].0 != res@[u].0 by {
                    assert(res@[t] == ins[t] && res@[u] == ins[u]);
                    if t == p {
                        assert(ins[u] == old_res[u - 1]);
                    } else if u == p {
                        assert(ins[t] == old_res[t]);
                    } else {
                        let t1 = if t < p { t } else { t - 1 };
                        let u1 = if u < p { u } else { u - 1 };
                        assert(ins[t] == old_res[t1] && ins[u] == old_res[u1]);
                    }
                }
                assert forall|t: int| 0 <= t < res@.len() implies self.spec_start() <= res@[t].0 < i + 1
                    && res@[t].1.value == self.query_dist(*q, res@[t].0 as int) by {
                    assert(res@[t] == ins[t]);
                    if t < p {
                        assert(ins[t] == old_res[t]);
                    } else if t > p {
                        assert(ins[t] == old_res[t - 1]);
                    }
                }
            }
            i = i + 1;
        }
        res
    }
}

/// A query embedding bound to a provider, measuring the query's distance to
/// corpus indices.
pub struct LocalDistance<'a, 'b, T, D> {
    provider: &'a VecProvider<'b, T, D>,
    embed: &'a T,
}

impl<'a, 'b, T, D: Distance<T> + Copy> LocalDistance<'a, 'b, T, D> {
    pub closed spec fn spec_provider(&self) -> VecProvider<'b, T, D> {
        *self.provider
    }

    pub closed spec fn spec_embed(&self) -> T {
        *self.embed
    }

    pub fn new(provider: &'a VecProvider<'b, T, D>, embed: &'a T) -> (r: Self)
        ensures
            r.spec_provider() == *provider,
            r.spec_embed() == *embed,
    {
        LocalDistance { provider, embed }
    }

    pub fn distance_cmp<I: Info>(&self, index: usize, info: &mut I) -> (r: DistanceCmp)
        requires
            self.spec_provider().wf(),
            self.spec_provider().in_range(index as int),
        ensures
            r.value == self.spec_provider().query_dist(self.spec_embed(), index as int),
            final(info).records() == old(info).records(),
            final(info).records() ==> final(info).observations() == old(info).observations().push(
                Observation::Dist(index),
            ),
    {
        self.provider.query_distance(self.embed, index, info)
    }
}

} // verus!
