//! Hash kernels: from one 64-bit digest of an item to the buckets that the
//! item touches.

use std::collections::hash_map::DefaultHasher;
use std::hash::{BuildHasher, Hash};
use vstd::arithmetic::div_mod::{lemma_add_mod_noop, lemma_mod_bound, lemma_small_mod};
use vstd::prelude::*;

verus! {

/// The lower half of a digest.
pub open spec fn digest_low(digest: u64) -> usize {
    (digest & 0xffff_ffff) as usize
}

/// The upper half of a digest.
pub open spec fn digest_high(digest: u64) -> usize {
    (digest >> 32) as usize
}

/// Probe `i` of the double hashing scheme: `seed + h1 + h2 * i`, wrapped to
/// the width of `usize`, then reduced modulo `n`.
pub open spec fn probe_at(seed: usize, h1: usize, h2: usize, n: usize, i: int) -> usize {
    (((seed + h1 + h2 * i) % (usize::MAX + 1)) % (n as int)) as usize
}

/// The `k` probes of a digest among `n` buckets.
pub open spec fn probe_seq(digest: u64, k: usize, n: usize, seed: usize) -> Seq<usize> {
    Seq::new(k as nat, |i: int| probe_at(seed, digest_low(digest), digest_high(digest), n, i))
}

/// A cursor over the probes of one item.
pub trait HashIter {
    /// The probes that are still to come, next one first.
    spec fn remaining(&self) -> Seq<usize>;

    /// Hands out the next probe, if one is left.
    fn next(&mut self) -> (r: Option<usize>)
        ensures
            old(self).remaining().len() == 0 ==> r.is_none() && final(self).remaining()
                == old(self).remaining(),
            old(self).remaining().len() > 0 ==> r == Some(old(self).remaining()[0])
                && final(self).remaining() == old(self).remaining().drop_first(),
    ;
}

/// Turns an item into the buckets that it touches.
pub trait HashKernels {
    /// The cursor that hands out the probes.
    type HI: HashIter;

    /// The probes of an item with the given digest.
    spec fn probes(&self, digest: u64) -> Seq<usize>;

    /// A cursor over the probes of a digest.
    fn digest_iter(&self, digest: u64) -> (it: Self::HI)
        ensures
            it.remaining() == self.probes(digest),
    ;

    /// A cursor over the probes of an item: those of the digest that the
    /// kernel's hasher gives the item.
    fn hash_iter<T: Hash>(&self, item: &T) -> (it: Self::HI)
        ensures
            exists|digest: u64| it.remaining() == self.probes(digest),
    ;
}

/// Makes the hash kernels of a filter once its size is known.
pub trait BuildHashKernels: Sized {
    /// The kernels that are made.
    type HK: HashKernels;

    /// The probes that the kernels made for `k` probes among `n` buckets
    /// give a digest: the same for the same builder, `k`, `n` and digest.
    spec fn probes(&self, k: usize, n: usize, digest: u64) -> Seq<usize>;

    /// Kernels that give every digest `k` probes among `n` buckets.
    fn with_k(self, k: usize, n: usize) -> (kernels: Self::HK)
        requires
            k == 0 || n > 0,
        ensures
            forall|digest: u64| #[trigger] kernels.probes(digest) == self.probes(k, n, digest),
            forall|digest: u64| #[trigger] kernels.probes(digest).len() == k,
            forall|digest: u64, i: int|
                0 <= i < k ==> #[trigger] kernels.probes(digest)[i] < n,
    ;
}

/// Builds the kernels of the double hashing scheme from a seed and a
/// hasher.
pub struct DefaultBuildHashKernels<BH> {
    hash_seed: usize,
    build_hasher: BH,
}

impl<BH: BuildHasher> DefaultBuildHashKernels<BH> {
    /// A builder with the given seed and hasher.
    pub fn new(hash_seed: usize, build_hasher: BH) -> (r: Self)
        ensures
            r.seed() == hash_seed,
            r.hasher() == build_hasher,
    {
        Self { hash_seed, build_hasher }
    }

    /// The seed that is added to every probe.
    pub closed spec fn seed(&self) -> usize {
        self.hash_seed
    }

    /// The hasher that digests the items.
    pub closed spec fn hasher(&self) -> BH {
        self.build_hasher
    }
}

impl<BH: BuildHasher> BuildHashKernels for DefaultBuildHashKernels<BH> {
    type HK = DefaultHashKernels<BH>;

    open spec fn probes(&self, k: usize, n: usize, digest: u64) -> Seq<usize> {
        probe_seq(digest, k, n, self.seed())
    }

    fn with_k(self, k: usize, n: usize) -> (kernels: DefaultHashKernels<BH>)
        ensures
            kernels.probe_count() == k,
            kernels.modulus() == n,
            kernels.seed() == self.seed(),
            kernels.hasher() == self.hasher(),
    {
        let kernels = DefaultHashKernels {
            k,
            n,
            hash_seed: self.hash_seed,
            build_hasher: self.build_hasher,
        };
        proof {
            assert forall|digest: u64, i: int| 0 <= i < k implies #[trigger] kernels.probes(
                digest,
            )[i] < n by {
                lemma_mod_bound(
                    (kernels.hash_seed + digest_low(digest) + digest_high(digest) * i) % (usize::MAX
                        + 1),
                    n as int,
                );
            }
        }
        kernels
    }
}

/// The double hashing scheme: one digest of the item, split in two halves,
/// gives all `k` probes.
pub struct DefaultHashKernels<BH> {
    k: usize,
    n: usize,
    hash_seed: usize,
    build_hasher: BH,
}

impl<BH> DefaultHashKernels<BH> {
    #[verifier::type_invariant]
    spec fn wf(&self) -> bool {
        self.k == 0 || self.n > 0
    }

    /// The number of probes of every digest.
    pub closed spec fn probe_count(&self) -> usize {
        self.k
    }

    /// The number of buckets that the probes fall in.
    pub closed spec fn modulus(&self) -> usize {
        self.n
    }

    /// The seed that is added to every probe.
    pub closed spec fn seed(&self) -> usize {
        self.hash_seed
    }

    /// The hasher that digests the items.
    pub closed spec fn hasher(&self) -> BH {
        self.build_hasher
    }
}

/// The digest that a hasher gives an item, by `BuildHasher::hash_one`.
/// Nothing is claimed of the digest: it is the hasher's and the item's
/// affair.
#[verifier::external_body]
fn digest_of<BH: BuildHasher, T: Hash>(build_hasher: &BH, item: &T) -> u64 {
    build_hasher.hash_one(item)
}

impl<BH: BuildHasher> HashKernels for DefaultHashKernels<BH> {
    type HI = DefaultHashIter;

    open spec fn probes(&self, digest: u64) -> Seq<usize> {
        probe_seq(digest, self.probe_count(), self.modulus(), self.seed())
    }

    fn digest_iter(&self, digest: u64) -> (it: DefaultHashIter) {
        proof {
            use_type_invariant(self);
        }
        DefaultHashIter::new(digest, self.k, self.n, self.hash_seed)
    }

    fn hash_iter<T: Hash>(&self, item: &T) -> (it: DefaultHashIter) {
        let digest = digest_of(&self.build_hasher, item);
        self.digest_iter(digest)
    }
}

/// A hasher-builder that always starts from the same state.
pub struct DefaultBuildHasher;

impl BuildHasher for DefaultBuildHasher {
    type Hasher = DefaultHasher;

    /// A hasher that has been fed nothing yet.
    fn build_hasher(&self) -> (hasher: DefaultHasher)
        ensures
            hasher@ == Seq::<Seq<u8>>::empty(),
    {
        DefaultHasher::new()
    }
}

/// The cursor of the double hashing scheme.
pub struct DefaultHashIter {
    h1: usize,
    h2: usize,
    k: usize,
    n: usize,
    hash_seed: usize,
    counter: usize,
}

impl DefaultHashIter {
    #[verifier::type_invariant]
    spec fn wf(&self) -> bool {
        &&& self.counter <= self.k
        &&& self.counter < self.k ==> self.n > 0
    }

    fn new(hash: u64, k: usize, n: usize, hash_seed: usize) -> (r: Self)
        requires
            k == 0 || n > 0,
        ensures
            r.remaining() == probe_seq(hash, k, n, hash_seed),
    {
        proof {
            assert(hash & 0xffff_ffff <= 0xffff_ffff && hash >> 32 <= 0xffff_ffff
                && hash & 0xffff_ffff == (hash as u32)) by (bit_vector);
        }
        let r = Self {
            h1: (hash as u32) as usize,
            h2: (hash >> 32) as usize,
            k,
            n,
            hash_seed,
            counter: 0,
        };
        proof {
            assert(r.remaining() =~= probe_seq(hash, k, n, hash_seed));
        }
        r
    }
}

proof fn lemma_wrapped_probe(seed: usize, h1: usize, h2: usize, i: usize)
    ensures
        seed.wrapping_add(h1).wrapping_add(h2.wrapping_mul(i)) == (seed + h1 + h2 * i) % (usize::MAX
            + 1),
{
    let r = usize::MAX + 1;
    let a = seed + h1;
    let b = h2 * i;
    assert(0 <= b) by (nonlinear_arith)
        requires
            b == h2 * i,
    ;
    lemma_mod_bound(b, r);
    lemma_mod_bound(a, r);
    lemma_mod_bound(a + b, r);
    assert(seed.wrapping_add(h1) == a % r) by {
        if a > usize::MAX {
            lemma_small_mod((a - r) as nat, r as nat);
            lemma_add_mod_noop(a - r, r, r);
            lemma_small_mod(0, r as nat);
            assert((a - r + r) % r == ((a - r) % r + r % r) % r);
            assert(r % r == 0) by (nonlinear_arith)
                requires
                    r > 0,
            ;
        } else {
            lemma_small_mod(a as nat, r as nat);
        }
    }
    let x = a % r;
    let y = b % r;
    assert(h2.wrapping_mul(i) == y);
    assert(seed.wrapping_add(h1).wrapping_add(h2.wrapping_mul(i)) == (x + y) % r) by {
        if x + y > usize::MAX {
            lemma_small_mod((x + y - r) as nat, r as nat);
            lemma_add_mod_noop(x + y - r, r, r);
            lemma_small_mod(0, r as nat);
            assert(r % r == 0) by (nonlinear_arith)
                requires
                    r > 0,
            ;
        } else {
            lemma_small_mod((x + y) as nat, r as nat);
        }
    }
    lemma_add_mod_noop(a, b, r);
}

impl HashIter for DefaultHashIter {
    closed spec fn remaining(&self) -> Seq<usize> {
        Seq::new(
            (self.k - self.counter) as nat,
            |j: int| probe_at(self.hash_seed, self.h1, self.h2, self.n, self.counter + j),
        )
    }

    fn next(&mut self) -> (r: Option<usize>) {
        proof {
            use_type_invariant(&*self);
        }
        if self.k == self.counter {
            return None;
        }
        proof {
            lemma_wrapped_probe(self.hash_seed, self.h1, self.h2, self.counter);
        }
        let r = self.hash_seed.wrapping_add(self.h1).wrapping_add(
            self.h2.wrapping_mul(self.counter),
        ) % self.n;
        self.counter += 1;
        proof {
            assert(self.remaining() =~= old(self).remaining().drop_first());
        }
        Some(r)
    }
}

} // verus!
