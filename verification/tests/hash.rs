use bloom_filters::hash::{
    BuildHashKernels, DefaultBuildHashKernels, DefaultBuildHasher, HashIter, HashKernels,
};
use std::collections::hash_map::RandomState;
use std::hash::BuildHasher;

fn drain<I: HashIter>(mut it: I) -> Vec<usize> {
    let mut out = Vec::new();
    while let Some(i) = it.next() {
        out.push(i);
    }
    out
}

#[test]
fn probes_follow_the_formula() {
    let kernels = DefaultBuildHashKernels::new(5, DefaultBuildHasher).with_k(4, 7);
    // h1 = 3, h2 = 2: (5 + 3 + 2 * i) mod 7
    let digest: u64 = (2u64 << 32) | 3;
    assert_eq!(vec![1, 3, 5, 0], drain(kernels.digest_iter(digest)));
}

#[test]
fn probes_use_both_halves_of_the_digest() {
    let kernels = DefaultBuildHashKernels::new(0, DefaultBuildHasher).with_k(3, 1000);
    let digest: u64 = (10u64 << 32) | 0xffff_ffff;
    let h1 = 0xffff_ffffusize;
    assert_eq!(
        vec![h1 % 1000, (h1 + 10) % 1000, (h1 + 20) % 1000],
        drain(kernels.digest_iter(digest))
    );
}

#[test]
fn probes_wrap_around() {
    let kernels = DefaultBuildHashKernels::new(usize::MAX, DefaultBuildHasher).with_k(2, 10);
    // usize::MAX + 3 wraps to 2; then 2 + 4 = 6
    let digest: u64 = (4u64 << 32) | 3;
    assert_eq!(vec![2, 6], drain(kernels.digest_iter(digest)));
}

#[test]
fn no_probes_when_k_is_zero() {
    let kernels = DefaultBuildHashKernels::new(1, DefaultBuildHasher).with_k(0, 0);
    assert_eq!(Vec::<usize>::new(), drain(kernels.digest_iter(12345)));
    let mut it = kernels.digest_iter(1);
    assert_eq!(None, it.next());
    assert_eq!(None, it.next());
}

#[test]
fn probes_stay_under_the_modulus() {
    let kernels = DefaultBuildHashKernels::new(99, DefaultBuildHasher).with_k(50, 13);
    for digest in [0u64, 1, u64::MAX, 0x1234_5678_9abc_def0] {
        let probes = drain(kernels.digest_iter(digest));
        assert_eq!(50, probes.len());
        assert!(probes.iter().all(|p| *p < 13));
    }
}

#[test]
fn item_probes_are_those_of_its_digest() {
    let kernels = DefaultBuildHashKernels::new(17, DefaultBuildHasher).with_k(6, 730);
    let item = 424242usize;
    let digest = DefaultBuildHasher.hash_one(&item);
    assert_eq!(drain(kernels.digest_iter(digest)), drain(kernels.hash_iter(&item)));
    let other = 424243usize;
    assert_ne!(drain(kernels.hash_iter(&item)), drain(kernels.hash_iter(&other)));
}

#[test]
fn item_probes_repeat_for_a_seeded_hasher() {
    let kernels = DefaultBuildHashKernels::new(3, RandomState::new()).with_k(5, 100);
    let a = drain(kernels.hash_iter(&"an item"));
    let b = drain(kernels.hash_iter(&"an item"));
    assert_eq!(a, b);
    assert_eq!(5, a.len());
}

#[test]
fn default_build_hasher_is_fixed() {
    let a = DefaultBuildHasher.hash_one(&7u32);
    let b = DefaultBuildHasher.hash_one(&7u32);
    assert_eq!(a, b);
    assert_ne!(a, DefaultBuildHasher.hash_one(&8u32));
}
