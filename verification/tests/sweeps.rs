use bloom_filters::buckets::Buckets;
use bloom_filters::hash::{
    BuildHashKernels, DefaultBuildHashKernels, DefaultBuildHasher, HashKernels,
};
use bloom_filters::policy::{all_at, all_positive, bump_each, decay, write_each};

fn cells(buckets: &Buckets) -> Vec<u8> {
    (0..buckets.len()).map(|i| buckets.get(i)).collect()
}

#[test]
fn write_each_writes_the_value_or_the_limit() {
    let kernels = DefaultBuildHashKernels::new(0, DefaultBuildHasher).with_k(3, 6);
    let digest: u64 = (2u64 << 32) | 1;
    let mut buckets = Buckets::new(6, 2);
    write_each(&mut buckets, kernels.digest_iter(digest), 2);
    assert_eq!(vec![0, 2, 0, 2, 0, 2], cells(&buckets));
    write_each(&mut buckets, kernels.digest_iter(0), 9);
    assert_eq!(vec![3, 2, 0, 2, 0, 2], cells(&buckets));
    assert!(all_at(&buckets, kernels.digest_iter(digest), 2));
    assert!(!all_at(&buckets, kernels.digest_iter(0), 2));
    assert!(all_at(&buckets, kernels.digest_iter(0), 3));
    assert!(all_positive(&buckets, kernels.digest_iter(digest)));
    assert!(!all_positive(&buckets, kernels.digest_iter((1u64 << 32) | 1)));
}

#[test]
fn bump_each_adds_once_for_each_probe() {
    let kernels = DefaultBuildHashKernels::new(0, DefaultBuildHasher).with_k(4, 3);
    // h1 = 0, h2 = 1: probes 0, 1, 2, 0
    let digest: u64 = 1u64 << 32;
    let mut buckets = Buckets::new(3, 3);
    bump_each(&mut buckets, kernels.digest_iter(digest), 1);
    assert_eq!(vec![2, 1, 1], cells(&buckets));
    bump_each(&mut buckets, kernels.digest_iter(digest), 3);
    assert_eq!(vec![7, 4, 4], cells(&buckets));
    bump_each(&mut buckets, kernels.digest_iter(digest), -2);
    assert_eq!(vec![3, 2, 2], cells(&buckets));
    bump_each(&mut buckets, kernels.digest_iter(digest), -2);
    assert_eq!(vec![0, 0, 0], cells(&buckets));
}

#[test]
fn decay_takes_one_off_a_row() {
    let mut buckets = Buckets::new(4, 3);
    for b in 0..4 {
        buckets.set(b, 5);
    }
    decay(&mut buckets, 3, 2);
    assert_eq!(vec![4, 5, 5, 4], cells(&buckets));
    decay(&mut buckets, 6, 0);
    assert_eq!(vec![4, 5, 5, 4], cells(&buckets));
    decay(&mut buckets, usize::MAX, 6);
    // usize::MAX mod 4 is 3: buckets 3, 0, 1, 2, 3, 0
    assert_eq!(vec![2, 4, 4, 2], cells(&buckets));
    decay(&mut buckets, 0, 12);
    assert_eq!(vec![0, 1, 1, 0], cells(&buckets));
}
