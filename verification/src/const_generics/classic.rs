//! The classic filter over storage whose size is fixed at compile time.

use crate::bits::{lemma_one_bit, lemma_width_of_one, words_needed};
use crate::buckets::BucketArray;
use crate::const_generics::buckets::ConstBuckets;
use crate::hash::{BuildHashKernels, HashIter, HashKernels};
use crate::policy::{all_at, every_at, in_range, write_each, written};
use crate::BloomFilter;
use std::hash::Hash;
use vstd::prelude::*;

verus! {

/// A filter that remembers presence only, in `W` words of storage.
pub struct Filter<BHK: BuildHashKernels, const W: usize> {
    buckets: ConstBuckets<W>,
    hash_kernels: BHK::HK,
}

impl<BHK: BuildHashKernels, const W: usize> View for Filter<BHK, W> {
    type V = Seq<u8>;

    /// The value of every bucket, in order.
    closed spec fn view(&self) -> Seq<u8> {
        self.buckets@
    }
}

impl<BHK: BuildHashKernels, const W: usize> Filter<BHK, W> {
    /// The bucket array of the filter.
    pub closed spec fn spec_buckets(&self) -> ConstBuckets<W> {
        self.buckets
    }

    /// The hash kernels of the filter.
    pub closed spec fn kernels(&self) -> BHK::HK {
        self.hash_kernels
    }

    /// The buckets that an item with the given digest touches.
    #[verifier::inline]
    pub open spec fn probes(&self, digest: u64) -> Seq<usize> {
        self.kernels().probes(digest)
    }

    /// What a well-formed filter is made of.
    pub proof fn lemma_wf(&self)
        requires
            self.wf(),
        ensures
            self.spec_buckets().wf(),
            self.spec_buckets().width() == 1,
            self@ == self.spec_buckets()@,
            forall|digest: u64| in_range(#[trigger] self.probes(digest), self@.len()),
            forall|b: int| 0 <= b < self@.len() ==> self@[b] <= 1,
    {
        self.buckets.lemma_cells_bounded();
        lemma_one_bit();
    }

    /// An empty filter of `bucket_count` buckets in which every item touches
    /// `k` of them.
    pub fn new(bucket_count: usize, k: usize, build_hash_kernels: BHK) -> (r: Self)
        requires
            bucket_count + 63 <= usize::MAX,
            words_needed(bucket_count as nat, 1) <= W,
            k == 0 || bucket_count > 0,
        ensures
            r.wf(),
            r@ == Seq::new(bucket_count as nat, |b: int| 0u8),
            forall|digest: u64|
                #[trigger] r.probes(digest) == build_hash_kernels.probes(k, bucket_count, digest),
            forall|digest: u64| #[trigger] r.probes(digest).len() == k,
            k > 0 ==> forall|digest: u64| !r.holds(digest),
    {
        let buckets = ConstBuckets::new(bucket_count, 1);
        let hash_kernels = build_hash_kernels.with_k(k, buckets.len());
        let r = Self { buckets, hash_kernels };
        proof {
            use_type_invariant(&r.buckets);
            assert forall|digest: u64| k > 0 implies !r.holds(digest) by {
                assert(r.probes(digest).len() == k);
                assert(r.probes(digest)[0] < bucket_count);
            }
        }
        r
    }

    /// The bucket array of the filter.
    pub fn buckets(&self) -> (r: &ConstBuckets<W>)
        ensures
            *r == self.spec_buckets(),
            r@ == self@,
    {
        &self.buckets
    }

    /// Sets every bucket that an item with the given digest touches.
    pub fn insert_digest(&mut self, digest: u64)
        requires
            old(self).wf(),
        ensures
            final(self).wf(),
            final(self).kernels() == old(self).kernels(),
            final(self)@ == written(old(self)@, old(self).probes(digest), 1),
            final(self).holds(digest),
            forall|other: u64| old(self).holds(other) ==> final(self).holds(other),
    {
        let it = self.hash_kernels.digest_iter(digest);
        proof {
            lemma_one_bit();
        }
        write_each(&mut self.buckets, it, 1);
        proof {
            use_type_invariant(&self.buckets);
            self.buckets.lemma_shape();
            lemma_width_of_one(self.buckets.width());
        }
    }

    /// Whether every bucket that an item with the given digest touches is
    /// set.
    pub fn contains_digest(&self, digest: u64) -> (r: bool)
        requires
            self.wf(),
        ensures
            r == self.holds(digest),
    {
        let it = self.hash_kernels.digest_iter(digest);
        all_at(&self.buckets, it, 1)
    }
}

impl<BHK: BuildHashKernels, const W: usize> BloomFilter for Filter<BHK, W> {
    /// One bit for each bucket, and every probe falls on a bucket.
    closed spec fn wf(&self) -> bool {
        &&& self.buckets.wf()
        &&& self.buckets.width() == 1
        &&& forall|digest: u64|
            in_range(#[trigger] self.hash_kernels.probes(digest), self.buckets.cells().len())
    }

    open spec fn cells(&self) -> Seq<u8> {
        self@
    }

    /// Whether every bucket that an item with the given digest touches is
    /// set.
    open spec fn holds(&self, digest: u64) -> bool {
        every_at(self@, self.probes(digest), 1)
    }

    /// Sets every bucket that the item touches.
    fn insert<T: Hash>(&mut self, item: &T)
        ensures
            final(self).kernels() == old(self).kernels(),
            exists|digest: u64|
                final(self)@ == written(old(self)@, #[trigger] old(self).probes(digest), 1),
            forall|other: u64| old(self).holds(other) ==> final(self).holds(other),
    {
        let it = self.hash_kernels.hash_iter(item);
        let ghost digest = choose|digest: u64| it.remaining() == self.hash_kernels.probes(digest);
        proof {
            lemma_one_bit();
        }
        write_each(&mut self.buckets, it, 1);
        proof {
            use_type_invariant(&self.buckets);
            self.buckets.lemma_shape();
            lemma_width_of_one(self.buckets.width());
            assert(self@ == written(old(self)@, old(self).probes(digest), 1));
            assert(self.holds(digest));
        }
    }

    /// Whether every bucket that the item touches is set.
    fn contains<T: Hash>(&self, item: &T) -> (r: bool) {
        let it = self.hash_kernels.hash_iter(item);
        let ghost digest = choose|digest: u64| it.remaining() == self.hash_kernels.probes(digest);
        let r = all_at(&self.buckets, it, 1);
        proof {
            assert(r == self.holds(digest));
        }
        r
    }

    /// Sets every bucket to zero: the filter holds nothing any more.
    fn reset(&mut self)
        ensures
            forall|digest: u64|
                old(self).probes(digest).len() > 0 ==> !final(self).holds(digest),
            final(self).kernels() == old(self).kernels(),
    {
        self.buckets.reset();
        proof {
            use_type_invariant(&self.buckets);
            assert forall|digest: u64| old(self).probes(digest).len() > 0 implies !self.holds(
                digest,
            ) by {
                assert(in_range(self.hash_kernels.probes(digest), self@.len()));
                assert(self@[self.probes(digest)[0] as int] == 0);
            }
        }
    }
}

} // verus!
