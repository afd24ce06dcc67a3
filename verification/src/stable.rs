//! The stable filter: every insertion first lets a row of buckets decay by
//! one, then sets the buckets of the item to the largest value, so that old
//! items fade and the filter never fills up.

use crate::bits::lemma_counter_width;
use crate::buckets::{BucketArray, Buckets};
use crate::hash::{BuildHashKernels, HashIter, HashKernels};
use crate::policy::{
    all_positive, bounded, bumped, decay, decay_positions, every_positive, in_range,
    lemma_decay_once, lemma_written_at, write_each, written,
};
use crate::BloomFilter;
use std::hash::Hash;
use vstd::prelude::*;

verus! {

/// The number of probes that a stable filter of `m` buckets uses when `k`
/// were asked for: no more than there are buckets, and at least one where
/// there is a bucket.
pub open spec fn clamped_probe_count(k: usize, m: usize) -> usize {
    if k > m {
        m
    } else if k == 0 {
        1
    } else {
        k
    }
}

/// The number of probes that a stable filter of `m` buckets uses when `k`
/// were asked for.
pub fn clamp_probe_count(k: usize, m: usize) -> (r: usize)
    ensures
        r == clamped_probe_count(k, m),
{
    if k > m {
        m
    } else if k == 0 {
        1
    } else {
        k
    }
}

/// A random number from the thread's generator, by `rand::random`. Nothing
/// is claimed of it.
#[verifier::external_body]
pub(crate) fn random_start() -> usize {
    rand::random()
}

/// A filter for streams without end.
pub struct Filter<BHK: BuildHashKernels> {
    buckets: Buckets,
    hash_kernels: BHK::HK,
    p: usize,
}

impl<BHK: BuildHashKernels> View for Filter<BHK> {
    type V = Seq<u8>;

    /// The value of every bucket, in order.
    closed spec fn view(&self) -> Seq<u8> {
        self.buckets@
    }
}

impl<BHK: BuildHashKernels> Filter<BHK> {
    /// The bucket array of the filter.
    pub closed spec fn spec_buckets(&self) -> Buckets {
        self.buckets
    }

    /// The hash kernels of the filter.
    pub closed spec fn kernels(&self) -> BHK::HK {
        self.hash_kernels
    }

    /// The number of buckets that decay with every insertion.
    pub closed spec fn decay_count(&self) -> usize {
        self.p
    }

    /// The buckets that an item with the given digest touches.
    #[verifier::inline]
    pub open spec fn probes(&self, digest: u64) -> Seq<usize> {
        self.kernels().probes(digest)
    }

    /// The largest value that a bucket holds.
    pub open spec fn limit(&self) -> u8 {
        self.spec_buckets().limit()
    }

    /// The buckets after an insertion whose decay starts at `start`: the row
    /// of `decay_count` buckets from `start` on has lost one each, then the
    /// buckets of the digest hold the largest value.
    pub open spec fn inserted(&self, start: usize, digest: u64) -> Seq<u8> {
        written(
            bumped(
                self@,
                decay_positions(start, self.decay_count(), self@.len() as usize),
                -1,
                self.limit(),
            ),
            self.probes(digest),
            self.limit(),
        )
    }

    /// What a well-formed filter is made of.
    pub proof fn lemma_wf(&self)
        requires
            self.wf(),
        ensures
            self@ == self.spec_buckets()@,
            self@.len() > 0,
            self.limit() >= 1,
            bounded(self@, self.limit()),
            forall|digest: u64| in_range(#[trigger] self.probes(digest), self@.len()),
    {
    }

    /// An empty filter of `m` buckets of `d` bits each. Every item touches
    /// `k` buckets, or as many as `clamped_probe_count` allows; every
    /// insertion lets `p` buckets decay, or one if `p` is zero.
    pub fn new(m: usize, d: u8, k: usize, p: usize, build_hash_kernels: BHK) -> (r: Self)
        requires
            m > 0,
            0 < d < 8,
            m * d + 63 <= usize::MAX,
        ensures
            r.wf(),
            r@ == Seq::new(m as nat, |b: int| 0u8),
            r.spec_buckets().width() == d,
            r.decay_count() == if p == 0 {
                1usize
            } else {
                p
            },
            forall|digest: u64|
                #[trigger] r.probes(digest) == build_hash_kernels.probes(
                    clamped_probe_count(k, m),
                    m,
                    digest,
                ),
            forall|digest: u64| #[trigger] r.probes(digest).len() == clamped_probe_count(k, m),
            forall|digest: u64| !r.holds(digest),
    {
        let k = clamp_probe_count(k, m);
        let buckets = Buckets::new(m, d);
        let hash_kernels = build_hash_kernels.with_k(k, buckets.len());
        let r = Self {
            buckets,
            hash_kernels,
            p: if p == 0 {
                1
            } else {
                p
            },
        };
        proof {
            lemma_counter_width(d);
            assert forall|digest: u64| !r.holds(digest) by {
                assert(r.probes(digest).len() == k);
                assert(r.probes(digest)[0] < m);
            }
        }
        r
    }

    /// The bucket array of the filter.
    pub fn buckets(&self) -> (r: &Buckets)
        ensures
            *r == self.spec_buckets(),
            r@ == self@,
    {
        &self.buckets
    }

    /// Lets the row of buckets that starts at `start` decay by one.
    pub fn decay_from(&mut self, start: usize)
        requires
            old(self).wf(),
        ensures
            final(self).wf(),
            final(self).kernels() == old(self).kernels(),
            final(self).decay_count() == old(self).decay_count(),
            final(self).limit() == old(self).limit(),
            final(self)@ == bumped(
                old(self)@,
                decay_positions(start, old(self).decay_count(), old(self)@.len() as usize),
                -1,
                old(self).limit(),
            ),
    {
        decay(&mut self.buckets, start, self.p);
    }

    fn decrement(&mut self)
        requires
            old(self).wf(),
        ensures
            final(self).wf(),
            final(self).kernels() == old(self).kernels(),
            final(self).decay_count() == old(self).decay_count(),
            final(self).limit() == old(self).limit(),
            exists|start: usize|
                final(self)@ == bumped(
                    old(self)@,
                    #[trigger] decay_positions(
                        start,
                        old(self).decay_count(),
                        old(self)@.len() as usize,
                    ),
                    -1,
                    old(self).limit(),
                ),
    {
        let r = random_start();
        self.decay_from(r);
    }

    /// An insertion whose decay starts at `start`, of an item with the given
    /// digest.
    pub fn insert_digest_from(&mut self, start: usize, digest: u64)
        requires
            old(self).wf(),
        ensures
            final(self).wf(),
            final(self).kernels() == old(self).kernels(),
            final(self).decay_count() == old(self).decay_count(),
            final(self).limit() == old(self).limit(),
            final(self)@ == old(self).inserted(start, digest),
            final(self).holds(digest),
    {
        self.decay_from(start);
        let max = self.buckets.max_value();
        let it = self.hash_kernels.digest_iter(digest);
        write_each(&mut self.buckets, it, max);
        proof {
            lemma_written_at(
                bumped(
                    old(self)@,
                    decay_positions(start, old(self).decay_count(), old(self)@.len() as usize),
                    -1,
                    old(self).limit(),
                ),
                old(self).probes(digest),
                old(self).limit(),
            );
        }
    }

    /// What an insertion leaves of the items before it, where no more
    /// buckets decay than the filter has: no bucket loses more than one, so
    /// an item whose buckets all held two or more is still held, whatever
    /// came in and wherever the decay began.
    pub proof fn lemma_insert_keeps(&self, start: usize, digest: u64, earlier: u64)
        requires
            self.wf(),
            self.decay_count() <= self@.len(),
        ensures
            forall|b: int|
                0 <= b < self@.len() ==> self.inserted(start, digest)[b] + 1 >= self@[b],
            (forall|i: int|
                0 <= i < self.probes(earlier).len() ==> self@[self.probes(earlier)[i] as int]
                    >= 2) ==> every_positive(
                self.inserted(start, digest),
                self.probes(earlier),
            ),
    {
        let after = self.inserted(start, digest);
        assert forall|b: int| 0 <= b < self@.len() implies after[b] + 1 >= self@[b] by {
            lemma_decay_once(start, self.decay_count(), self@.len() as usize, b);
        }
        assert(in_range(self.hash_kernels.probes(earlier), self@.len()));
    }

    /// An insertion of an item with the given digest; the decay starts at a
    /// random bucket.
    pub fn insert_digest(&mut self, digest: u64)
        requires
            old(self).wf(),
        ensures
            final(self).wf(),
            final(self).kernels() == old(self).kernels(),
            final(self).decay_count() == old(self).decay_count(),
            final(self).limit() == old(self).limit(),
            exists|start: usize| final(self)@ == #[trigger] old(self).inserted(start, digest),
            final(self).holds(digest),
    {
        let r = random_start();
        self.insert_digest_from(r, digest);
    }

    /// Whether every bucket that an item with the given digest touches holds
    /// more than zero.
    pub fn contains_digest(&self, digest: u64) -> (r: bool)
        requires
            self.wf(),
        ensures
            r == self.holds(digest),
    {
        let it = self.hash_kernels.digest_iter(digest);
        all_positive(&self.buckets, it)
    }
}

impl<BHK: BuildHashKernels> BloomFilter for Filter<BHK> {
    /// There is a bucket, a bucket can hold more than zero, none is over
    /// the limit, and every probe falls on a bucket.
    closed spec fn wf(&self) -> bool {
        &&& self.buckets.cells().len() > 0
        &&& self.buckets.limit() >= 1
        &&& bounded(self.buckets.cells(), self.buckets.limit())
        &&& forall|digest: u64|
            in_range(#[trigger] self.hash_kernels.probes(digest), self.buckets.cells().len())
    }

    open spec fn cells(&self) -> Seq<u8> {
        self@
    }

    /// Whether every bucket that an item with the given digest touches holds
    /// more than zero.
    open spec fn holds(&self, digest: u64) -> bool {
        every_positive(self@, self.probes(digest))
    }

    /// Lets a row of buckets decay by one, from a random bucket on, then
    /// sets every bucket that the item touches to the largest value.
    fn insert<T: Hash>(&mut self, item: &T)
        ensures
            final(self).kernels() == old(self).kernels(),
            final(self).decay_count() == old(self).decay_count(),
            final(self).limit() == old(self).limit(),
            exists|start: usize, digest: u64|
                final(self)@ == #[trigger] old(self).inserted(start, digest),
    {
        self.decrement();
        let ghost start = choose|start: usize|
            self@ == bumped(
                old(self)@,
                #[trigger] decay_positions(
                    start,
                    old(self).decay_count(),
                    old(self)@.len() as usize,
                ),
                -1,
                old(self).limit(),
            );
        let max = self.buckets.max_value();
        let it = self.hash_kernels.hash_iter(item);
        let ghost digest = choose|digest: u64| it.remaining() == self.hash_kernels.probes(digest);
        let ghost mid = self@;
        write_each(&mut self.buckets, it, max);
        proof {
            lemma_written_at(mid, old(self).probes(digest), old(self).limit());
            assert(self@ == old(self).inserted(start, digest));
            assert(self.holds(digest));
        }
    }

    /// Whether every bucket that the item touches holds more than zero.
    fn contains<T: Hash>(&self, item: &T) -> (r: bool) {
        let it = self.hash_kernels.hash_iter(item);
        let ghost digest = choose|digest: u64| it.remaining() == self.hash_kernels.probes(digest);
        let r = all_positive(&self.buckets, it);
        proof {
            assert(r == self.holds(digest));
        }
        r
    }

    /// Sets every bucket to zero: the filter holds nothing any more.
    fn reset(&mut self)
        ensures
            forall|digest: u64|
                old(self).probes(digest).len() > 0 ==> !final(self).holds(digest),
            final(self).kernels() == old(self).kernels(),
            final(self).decay_count() == old(self).decay_count(),
            final(self).limit() == old(self).limit(),
    {
        self.buckets.reset();
        proof {
            assert forall|digest: u64| old(self).probes(digest).len() > 0 implies !self.holds(
                digest,
            ) by {
                assert(in_range(self.hash_kernels.probes(digest), self@.len()));
                assert(self@[self.probes(digest)[0] as int] == 0);
            }
        }
    }
}

} // verus!
