//! Approximate set-membership filters: a filter answers whether an item was
//! put into it, never with a wrong "no", now and then with a wrong "yes",
//! in far less memory than a set of the items would take.
//!
//! The filters share one storage engine, an array of small saturating
//! counters packed into 64-bit words ([`buckets`], over the bit-level model
//! of [`bits`] and the byte format of [`bytes`]), and one way from an item
//! to the buckets that it touches ([`hash`]). They differ in what they do to
//! those buckets ([`policy`]): the [`classic`] filter sets them, the
//! [`counting`] filter counts them up and down, the [`stable`] filter sets
//! them and lets others decay. [`const_generics`], [`const_buckets`] and
//! [`const_stable`] hold the same in storage of a size fixed at compile
//! time.
//!
//! Every filter works on the 64-bit digest that a hasher gives an item. What
//! is stated of a filter is stated for digests: the functions that take an
//! item do what the functions that take a digest do, for the digest of the
//! item.

use std::hash::Hash;
use vstd::prelude::*;

pub mod bits;
pub mod buckets;
pub mod bytes;
pub mod classic;
pub mod const_buckets;
pub mod const_generics;
pub mod const_stable;
pub mod counting;
pub mod hash;
pub mod policy;
pub mod stable;

pub use crate::buckets::{BucketArray, Buckets};
pub use crate::classic::Filter as ClassicBloomFilter;
pub use crate::const_generics::buckets::{
    approximate_bucket_count, compute_word_num, ConstBuckets,
};
pub use crate::const_generics::classic::Filter as ConstClassicBloomFilter;
pub use crate::const_generics::stable::Filter as ConstStableBloomFilter;
pub use crate::counting::Filter as CountingBloomFilter;
pub use crate::hash::{
    BuildHashKernels, DefaultBuildHashKernels, DefaultBuildHasher, DefaultHashIter,
    DefaultHashKernels, HashIter, HashKernels,
};
pub use crate::stable::Filter as StableBloomFilter;

verus! {

/// A filter that items are put into and that is asked for them.
pub trait BloomFilter {
    /// Whether the filter fits together: its probes fall on its buckets.
    /// Every filter that a constructor hands out does.
    spec fn wf(&self) -> bool;

    /// The value of every bucket, in order.
    spec fn cells(&self) -> Seq<u8>;

    /// What `contains` answers for an item with the given digest.
    spec fn holds(&self, digest: u64) -> bool;

    /// Puts an item into the filter. Whatever digest the hasher gave the
    /// item, the filter holds that digest afterwards.
    fn insert<T: Hash>(&mut self, item: &T)
        requires
            old(self).wf(),
        ensures
            final(self).wf(),
            final(self).cells().len() == old(self).cells().len(),
            exists|digest: u64| final(self).holds(digest),
    ;

    /// Whether the filter holds the digest that the hasher gives the item.
    fn contains<T: Hash>(&self, item: &T) -> (r: bool)
        requires
            self.wf(),
        ensures
            exists|digest: u64| r == self.holds(digest),
    ;

    /// Sets every bucket to zero.
    fn reset(&mut self)
        requires
            old(self).wf(),
        ensures
            final(self).wf(),
            final(self).cells() == Seq::new(old(self).cells().len(), |b: int| 0u8),
    ;
}

/// A filter that items can be taken out of.
pub trait RemovableBloomFilter: BloomFilter {
    /// Takes an item out of the filter.
    fn remove<T: Hash>(&mut self, item: &T)
        requires
            old(self).wf(),
        ensures
            final(self).wf(),
            final(self).cells().len() == old(self).cells().len(),
    ;
}

/// A filter that another filter's buckets can be merged into.
pub trait UpdatableBloomFilter: BloomFilter {
    /// Merges the buckets that `raw_data` holds into the filter's own by
    /// bitwise or. What the filter held before, it holds afterwards.
    fn update(&mut self, raw_data: &[u8])
        requires
            old(self).wf(),
        ensures
            final(self).wf(),
            final(self).cells().len() == old(self).cells().len(),
            forall|digest: u64| old(self).holds(digest) ==> final(self).holds(digest),
    ;
}

} // verus!
