//! The classic filter: one bit for each bucket, set on insertion and never
//! cleared but by a reset.

use crate::bits::{
    lemma_one_bit, lemma_unpack_merge, lemma_width_of_one, merge, unpack, words_needed,
};
use crate::buckets::{BucketArray, Buckets};
use crate::bytes::{from_le_bytes, lemma_words_round_trip, to_le_bytes};
use crate::hash::{BuildHashKernels, HashIter, HashKernels};
use crate::policy::{all_at, every_at, in_range, write_each, written};
use crate::{BloomFilter, UpdatableBloomFilter};
use std::hash::Hash;
use vstd::prelude::*;

verus! {

/// A filter that remembers presence only.
pub struct Filter<BHK: BuildHashKernels> {
    buckets: Buckets,
    hash_kernels: BHK::HK,
}

impl<BHK: BuildHashKernels> View for Filter<BHK> {
    type V = Seq<u8>;

    /// The value of every bucket, in order.
    closed spec fn view(&self) -> Seq<u8> {
        self.buckets@
    }
}

proof fn lemma_or_keeps_one(x: u8, y: u8)
    by (bit_vector)
    requires
        x | y <= 1,
        x == 1 || y == 1,
    ensures
        x | y == 1,
{
}

impl<BHK: BuildHashKernels> Filter<BHK> {
    /// The bucket array of the filter.
    pub closed spec fn spec_buckets(&self) -> Buckets {
        self.buckets
    }

    /// The hash kernels of the filter.
    pub closed spec fn kernels(&self) -> BHK::HK {
        self.hash_kernels
    }

    /// The buckets that an item with the given digest touches.
    #[verifier::inline]
    pub open spec fn probes(&self, digest: u64) -> Seq<usize> {
        self.kernels().probes(digest)
    }

    /// What a well-formed filter is made of.
    pub proof fn lemma_wf(&self)
        requires
            self.wf(),
        ensures
            self.spec_buckets().wf(),
            self.spec_buckets().width() == 1,
            self@ == self.spec_buckets()@,
            forall|digest: u64| in_range(#[trigger] self.probes(digest), self@.len()),
            forall|b: int| 0 <= b < self@.len() ==> self@[b] <= 1,
    {
        self.buckets.lemma_cells_bounded();
        lemma_one_bit();
    }

    /// An empty filter of `bucket_count` buckets in which every item touches
    /// `k` of them.
    pub fn new(bucket_count: usize, k: usize, build_hash_kernels: BHK) -> (r: Self)
        requires
            bucket_count + 63 <= usize::MAX,
            k == 0 || bucket_count > 0,
        ensures
            r.wf(),
            r@ == Seq::new(bucket_count as nat, |b: int| 0u8),
            forall|digest: u64|
                #[trigger] r.probes(digest) == build_hash_kernels.probes(k, bucket_count, digest),
            forall|digest: u64| #[trigger] r.probes(digest).len() == k,
            k > 0 ==> forall|digest: u64| !r.holds(digest),
    {
        let buckets = Buckets::new(bucket_count, 1);
        let hash_kernels = build_hash_kernels.with_k(k, buckets.len());
        let r = Self { buckets, hash_kernels };
        proof {
            use_type_invariant(&r.buckets);
            assert forall|digest: u64| k > 0 implies !r.holds(digest) by {
                assert(r.probes(digest).len() == k);
                assert(r.probes(digest)[0] < bucket_count);
            }
        }
        r
    }

    /// The filter whose buckets `raw_data` holds, one bit each, with `k`
    /// probes for every item.
    pub fn with_raw_data(raw_data: &[u8], k: usize, build_hash_kernels: BHK) -> (r: Self)
        requires
            raw_data@.len() % 8 == 0,
            raw_data@.len() * 8 + 63 <= usize::MAX,
            k == 0 || raw_data@.len() > 0,
        ensures
            r.wf(),
            r.spec_buckets().len() == raw_data@.len() * 8,
            r.spec_buckets().storage() == from_le_bytes(raw_data@, raw_data@.len() / 8),
            forall|digest: u64|
                #[trigger] r.probes(digest) == build_hash_kernels.probes(
                    k,
                    (raw_data@.len() * 8) as usize,
                    digest,
                ),
            forall|digest: u64| #[trigger] r.probes(digest).len() == k,
    {
        proof {
            let n = raw_data@.len() as int;
            assert((n * 8 + 63) / 64 == n / 8);
            assert(words_needed((n * 8) as nat, 1) == n / 8);
        }
        let buckets = Buckets::with_raw_data(raw_data.len() * 8, 1, raw_data);
        let hash_kernels = build_hash_kernels.with_k(k, buckets.len());
        proof {
            use_type_invariant(&buckets);
        }
        Self { buckets, hash_kernels }
    }

    /// The bucket array of the filter.
    pub fn buckets(&self) -> (r: &Buckets)
        ensures
            *r == self.spec_buckets(),
            r@ == self@,
    {
        &self.buckets
    }

    /// Sets every bucket that an item with the given digest touches.
    pub fn insert_digest(&mut self, digest: u64)
        requires
            old(self).wf(),
        ensures
            final(self).wf(),
            final(self).kernels() == old(self).kernels(),
            final(self)@ == written(old(self)@, old(self).probes(digest), 1),
            final(self).holds(digest),
            forall|other: u64| old(self).holds(other) ==> final(self).holds(other),
    {
        let it = self.hash_kernels.digest_iter(digest);
        proof {
            lemma_one_bit();
        }
        write_each(&mut self.buckets, it, 1);
        proof {
            use_type_invariant(&self.buckets);
            self.buckets.lemma_shape();
            lemma_width_of_one(self.buckets.width());
        }
    }

    /// Whether every bucket that an item with the given digest touches is
    /// set.
    pub fn contains_digest(&self, digest: u64) -> (r: bool)
        requires
            self.wf(),
        ensures
            r == self.holds(digest),
    {
        let it = self.hash_kernels.digest_iter(digest);
        all_at(&self.buckets, it, 1)
    }

    /// Merging another filter's bytes into a filter of the same size and
    /// the same probes gives their union: what either of the two held, the
    /// merged filter holds. `after` is `before` once `update` has taken the
    /// bytes that `raw_data` gave of the buckets of `other`.
    pub proof fn lemma_update_is_union(before: &Self, other: &Self, after: &Self, digest: u64)
        requires
            before.wf(),
            other.wf(),
            other@.len() == before@.len(),
            forall|d: u64| other.probes(d) == before.probes(d),
            after.kernels() == before.kernels(),
            after.spec_buckets().len() == before.spec_buckets().len(),
            after.spec_buckets().width() == before.spec_buckets().width(),
            after.spec_buckets().storage() == merge(
                before.spec_buckets().storage(),
                from_le_bytes(
                    to_le_bytes(other.spec_buckets().storage()),
                    before.spec_buckets().storage().len(),
                ),
            ),
            before.holds(digest) || other.holds(digest),
        ensures
            after.holds(digest),
            forall|b: int| 0 <= b < before@.len() ==> after@[b] == before@[b] | other@[b],
    {
        let mine = before.buckets;
        let theirs = other.buckets;
        mine.lemma_shape();
        theirs.lemma_shape();
        lemma_words_round_trip(theirs.storage());
        lemma_unpack_merge(
            mine.storage(),
            theirs.storage(),
            mine.len() as nat,
            mine.width(),
        );
        lemma_one_bit();
        after.buckets.lemma_cells_bounded();
        assert(after@.len() == before@.len());
        let probes = before.probes(digest);
        assert(in_range(before.hash_kernels.probes(digest), before@.len()));
        assert forall|i: int| 0 <= i < probes.len() implies after@[probes[i] as int] == 1 by {
            let b = probes[i] as int;
            assert(after@[b] == before@[b] | other@[b]);
            assert(after@[b] <= 1);
            assert(other.probes(digest) == probes);
            lemma_or_keeps_one(before@[b], other@[b]);
        }
    }
}

impl<BHK: BuildHashKernels> BloomFilter for Filter<BHK> {
    /// One bit for each bucket, and every probe falls on a bucket.
    closed spec fn wf(&self) -> bool {
        &&& self.buckets.wf()
        &&& self.buckets.width() == 1
        &&& forall|digest: u64|
            in_range(#[trigger] self.hash_kernels.probes(digest), self.buckets.cells().len())
    }

    open spec fn cells(&self) -> Seq<u8> {
        self@
    }

    /// Whether every bucket that an item with the given digest touches is
    /// set.
    open spec fn holds(&self, digest: u64) -> bool {
        every_at(self@, self.probes(digest), 1)
    }

    /// Sets every bucket that the item touches.
    fn insert<T: Hash>(&mut self, item: &T)
        ensures
            final(self).kernels() == old(self).kernels(),
            exists|digest: u64|
                final(self)@ == written(old(self)@, #[trigger] old(self).probes(digest), 1),
            forall|other: u64| old(self).holds(other) ==> final(self).holds(other),
    {
        let it = self.hash_kernels.hash_iter(item);
        let ghost digest = choose|digest: u64| it.remaining() == self.hash_kernels.probes(digest);
        proof {
            lemma_one_bit();
        }
        write_each(&mut self.buckets, it, 1);
        proof {
            use_type_invariant(&self.buckets);
            self.buckets.lemma_shape();
            lemma_width_of_one(self.buckets.width());
            assert(self@ == written(old(self)@, old(self).probes(digest), 1));
            assert(self.holds(digest));
        }
    }

    /// Whether every bucket that the item touches is set.
    fn contains<T: Hash>(&self, item: &T) -> (r: bool) {
        let it = self.hash_kernels.hash_iter(item);
        let ghost digest = choose|digest: u64| it.remaining() == self.hash_kernels.probes(digest);
        let r = all_at(&self.buckets, it, 1);
        proof {
            assert(r == self.holds(digest));
        }
        r
    }

    /// Sets every bucket to zero: the filter holds nothing any more.
    fn reset(&mut self)
        ensures
            forall|digest: u64|
                old(self).probes(digest).len() > 0 ==> !final(self).holds(digest),
            final(self).kernels() == old(self).kernels(),
    {
        self.buckets.reset();
        proof {
            use_type_invariant(&self.buckets);
            assert forall|digest: u64| old(self).probes(digest).len() > 0 implies !self.holds(
                digest,
            ) by {
                assert(in_range(self.hash_kernels.probes(digest), self@.len()));
                assert(self@[self.probes(digest)[0] as int] == 0);
            }
        }
    }
}

impl<BHK: BuildHashKernels> UpdatableBloomFilter for Filter<BHK> {
    /// Merges the buckets that `raw_data` holds, one bit each, into the
    /// filter's own: a bucket is set afterwards if it was set in either.
    fn update(&mut self, raw_data: &[u8])
        ensures
            final(self).kernels() == old(self).kernels(),
            final(self).spec_buckets().len() == old(self).spec_buckets().len(),
            final(self).spec_buckets().width() == old(self).spec_buckets().width(),
            final(self).spec_buckets().storage() == merge(
                old(self).spec_buckets().storage(),
                from_le_bytes(raw_data@, old(self).spec_buckets().storage().len()),
            ),
            forall|b: int|
                0 <= b < old(self)@.len() ==> #[trigger] final(self)@[b] == old(self)@[b] | unpack(
                    from_le_bytes(raw_data@, old(self).spec_buckets().storage().len()),
                    old(self)@.len(),
                    1,
                )[b],
    {
        self.buckets.update(raw_data);
        proof {
            use_type_invariant(&self.buckets);
            lemma_one_bit();
            assert forall|digest: u64| old(self).holds(digest) implies self.holds(digest) by {
                let probes = self.hash_kernels.probes(digest);
                assert(in_range(probes, old(self)@.len()));
                assert forall|i: int| 0 <= i < probes.len() implies self@[probes[i] as int]
                    == 1 by {
                    let b = probes[i] as int;
                    let y = unpack(
                        from_le_bytes(raw_data@, old(self).spec_buckets().storage().len()),
                        old(self)@.len(),
                        1,
                    )[b];
                    assert(self@[b] == old(self)@[b] | y);
                    lemma_or_keeps_one(old(self)@[b], y);
                }
            }
        }
    }
}

} // verus!
