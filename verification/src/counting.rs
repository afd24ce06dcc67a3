//! The counting filter: a counter for each bucket, raised on insertion and
//! lowered on removal.

use crate::buckets::{BucketArray, Buckets};
use crate::hash::{BuildHashKernels, HashIter, HashKernels};
use crate::bits::lemma_counter_width;
use crate::policy::{
    all_positive, bounded, bump_each, bumped, every_at, every_positive, in_range,
    lemma_bumped_up, lemma_down_undoes_up, touches,
};
use crate::{BloomFilter, RemovableBloomFilter};
use std::hash::Hash;
use vstd::prelude::*;

verus! {

/// A filter that items can be taken out of again.
pub struct Filter<BHK: BuildHashKernels> {
    buckets: Buckets,
    hash_kernels: BHK::HK,
}

impl<BHK: BuildHashKernels> View for Filter<BHK> {
    type V = Seq<u8>;

    /// The value of every bucket, in order.
    closed spec fn view(&self) -> Seq<u8> {
        self.buckets@
    }
}

impl<BHK: BuildHashKernels> Filter<BHK> {
    /// The bucket array of the filter.
    pub closed spec fn spec_buckets(&self) -> Buckets {
        self.buckets
    }

    /// The hash kernels of the filter.
    pub closed spec fn kernels(&self) -> BHK::HK {
        self.hash_kernels
    }

    /// The buckets that an item with the given digest touches.
    #[verifier::inline]
    pub open spec fn probes(&self, digest: u64) -> Seq<usize> {
        self.kernels().probes(digest)
    }

    /// The largest value that a bucket holds.
    pub open spec fn limit(&self) -> u8 {
        self.spec_buckets().limit()
    }

    /// What a well-formed filter is made of.
    pub proof fn lemma_wf(&self)
        requires
            self.wf(),
        ensures
            self@ == self.spec_buckets()@,
            self.limit() >= 1,
            bounded(self@, self.limit()),
            forall|digest: u64| in_range(#[trigger] self.probes(digest), self@.len()),
    {
    }

    /// An empty filter of `bucket_count` buckets of `bucket_size` bits each
    /// in which every item touches `k` buckets.
    pub fn new(bucket_count: usize, bucket_size: u8, k: usize, build_hash_kernels: BHK) -> (r:
        Self)
        requires
            0 < bucket_size < 8,
            bucket_count * bucket_size + 63 <= usize::MAX,
            k == 0 || bucket_count > 0,
        ensures
            r.wf(),
            r@ == Seq::new(bucket_count as nat, |b: int| 0u8),
            r.spec_buckets().width() == bucket_size,
            forall|digest: u64|
                #[trigger] r.probes(digest) == build_hash_kernels.probes(k, bucket_count, digest),
            forall|digest: u64| #[trigger] r.probes(digest).len() == k,
            k > 0 ==> forall|digest: u64| !r.holds(digest),
    {
        let buckets = Buckets::new(bucket_count, bucket_size);
        let hash_kernels = build_hash_kernels.with_k(k, buckets.len());
        let r = Self { buckets, hash_kernels };
        proof {
            lemma_counter_width(bucket_size);
            assert forall|digest: u64| k > 0 implies !r.holds(digest) by {
                assert(r.probes(digest).len() == k);
                assert(r.probes(digest)[0] < bucket_count);
            }
        }
        r
    }

    /// The bucket array of the filter.
    pub fn buckets(&self) -> (r: &Buckets)
        ensures
            *r == self.spec_buckets(),
            r@ == self@,
    {
        &self.buckets
    }

    /// Adds one to every bucket that an item with the given digest touches,
    /// once for each time the item touches it; no bucket goes over the
    /// limit.
    pub fn insert_digest(&mut self, digest: u64)
        requires
            old(self).wf(),
        ensures
            final(self).wf(),
            final(self).kernels() == old(self).kernels(),
            final(self).limit() == old(self).limit(),
            final(self)@ == bumped(old(self)@, old(self).probes(digest), 1, old(self).limit()),
            final(self).holds(digest),
            forall|other: u64| old(self).holds(other) ==> final(self).holds(other),
    {
        let it = self.hash_kernels.digest_iter(digest);
        bump_each(&mut self.buckets, it, 1);
        proof {
            lemma_bumped_up(old(self)@, old(self).probes(digest), old(self).limit());
            assert forall|other: u64| old(self).holds(other) implies self.holds(other) by {
                assert(in_range(self.hash_kernels.probes(other), self@.len()));
            }
        }
    }

    /// Takes one off every bucket that an item with the given digest
    /// touches, once for each time the item touches it; no bucket falls
    /// under zero.
    pub fn remove_digest(&mut self, digest: u64)
        requires
            old(self).wf(),
        ensures
            final(self).wf(),
            final(self).kernels() == old(self).kernels(),
            final(self).limit() == old(self).limit(),
            final(self)@ == bumped(old(self)@, old(self).probes(digest), -1, old(self).limit()),
    {
        let it = self.hash_kernels.digest_iter(digest);
        bump_each(&mut self.buckets, it, -1);
    }

    /// Taking an item out undoes putting it in, where the item is alone:
    /// where every bucket that it touches held zero before. `mid` is
    /// `before` once the item was put in, `after` is `mid` once it was taken
    /// out.
    pub proof fn lemma_remove_undoes_insert(before: &Self, mid: &Self, after: &Self, digest: u64)
        requires
            before.wf(),
            every_at(before@, before.probes(digest), 0),
            mid@ == bumped(before@, before.probes(digest), 1, before.limit()),
            after@ == bumped(mid@, before.probes(digest), -1, before.limit()),
            after.kernels() == before.kernels(),
        ensures
            after@ == before@,
            before.probes(digest).len() > 0 ==> !after.holds(digest),
    {
        let probes = before.probes(digest);
        assert(in_range(before.hash_kernels.probes(digest), before@.len()));
        assert forall|b: int| 0 <= b < before@.len() && touches(probes, b) implies before@[b]
            == 0 by {
            let i = choose|i: int| 0 <= i < probes.len() && probes[i] == b;
            assert(before@[probes[i] as int] == 0);
        }
        lemma_down_undoes_up(before@, probes, before.limit());
        if probes.len() > 0 {
            assert(after@[probes[0] as int] == 0);
        }
    }

    /// Whether every bucket that an item with the given digest touches holds
    /// more than zero.
    pub fn contains_digest(&self, digest: u64) -> (r: bool)
        requires
            self.wf(),
        ensures
            r == self.holds(digest),
    {
        let it = self.hash_kernels.digest_iter(digest);
        all_positive(&self.buckets, it)
    }
}

impl<BHK: BuildHashKernels> BloomFilter for Filter<BHK> {
    /// No bucket is over the limit, and every probe falls on a bucket.
    closed spec fn wf(&self) -> bool {
        &&& self.buckets.limit() >= 1
        &&& bounded(self.buckets.cells(), self.buckets.limit())
        &&& forall|digest: u64|
            in_range(#[trigger] self.hash_kernels.probes(digest), self.buckets.cells().len())
    }

    open spec fn cells(&self) -> Seq<u8> {
        self@
    }

    /// Whether every bucket that an item with the given digest touches holds
    /// more than zero.
    open spec fn holds(&self, digest: u64) -> bool {
        every_positive(self@, self.probes(digest))
    }

    /// Adds one to every bucket that the item touches.
    fn insert<T: Hash>(&mut self, item: &T)
        ensures
            final(self).kernels() == old(self).kernels(),
            final(self).limit() == old(self).limit(),
            exists|digest: u64|
                final(self)@ == bumped(
                    old(self)@,
                    #[trigger] old(self).probes(digest),
                    1,
                    old(self).limit(),
                ),
            forall|other: u64| old(self).holds(other) ==> final(self).holds(other),
    {
        let it = self.hash_kernels.hash_iter(item);
        let ghost digest = choose|digest: u64| it.remaining() == self.hash_kernels.probes(digest);
        bump_each(&mut self.buckets, it, 1);
        proof {
            assert(self@ == bumped(old(self)@, old(self).probes(digest), 1, old(self).limit()));
            lemma_bumped_up(old(self)@, old(self).probes(digest), old(self).limit());
            assert(self.holds(digest));
            assert forall|other: u64| old(self).holds(other) implies self.holds(other) by {
                assert(in_range(self.hash_kernels.probes(other), self@.len()));
            }
        }
    }

    /// Whether every bucket that the item touches holds more than zero.
    fn contains<T: Hash>(&self, item: &T) -> (r: bool) {
        let it = self.hash_kernels.hash_iter(item);
        let ghost digest = choose|digest: u64| it.remaining() == self.hash_kernels.probes(digest);
        let r = all_positive(&self.buckets, it);
        proof {
            assert(r == self.holds(digest));
        }
        r
    }

    /// Sets every bucket to zero: the filter holds nothing any more.
    fn reset(&mut self)
        ensures
            forall|digest: u64|
                old(self).probes(digest).len() > 0 ==> !final(self).holds(digest),
            final(self).kernels() == old(self).kernels(),
            final(self).limit() == old(self).limit(),
    {
        self.buckets.reset();
        proof {
            assert forall|digest: u64| old(self).probes(digest).len() > 0 implies !self.holds(
                digest,
            ) by {
                assert(in_range(self.hash_kernels.probes(digest), self@.len()));
                assert(self@[self.probes(digest)[0] as int] == 0);
            }
        }
    }
}

impl<BHK: BuildHashKernels> RemovableBloomFilter for Filter<BHK> {
    /// Takes one off every bucket that the item touches.
    fn remove<T: Hash>(&mut self, item: &T)
        ensures
            final(self).kernels() == old(self).kernels(),
            final(self).limit() == old(self).limit(),
            exists|digest: u64|
                final(self)@ == bumped(
                    old(self)@,
                    #[trigger] old(self).probes(digest),
                    -1,
                    old(self).limit(),
                ),
    {
        let it = self.hash_kernels.hash_iter(item);
        let ghost digest = choose|digest: u64| it.remaining() == self.hash_kernels.probes(digest);
        bump_each(&mut self.buckets, it, -1);
        proof {
            assert(self@ == bumped(old(self)@, old(self).probes(digest), -1, old(self).limit()));
        }
    }
}

} // verus!
