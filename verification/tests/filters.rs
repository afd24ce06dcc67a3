use bloom_filters::hash::{DefaultBuildHashKernels, DefaultBuildHasher};
use bloom_filters::stable::clamp_probe_count;
use bloom_filters::{
    BloomFilter, ClassicBloomFilter, ConstClassicBloomFilter, ConstStableBloomFilter,
    CountingBloomFilter, RemovableBloomFilter, StableBloomFilter, UpdatableBloomFilter,
};
use rand::random;
use std::collections::hash_map::RandomState;
use std::hash::BuildHasher;

fn bucket_count(items_count: usize, fp_rate: f64) -> usize {
    let ln2 = std::f64::consts::LN_2;
    ((items_count as f64) * fp_rate.ln().abs() / (ln2 * ln2)).ceil() as usize
}

fn probe_count(fp_rate: f64) -> usize {
    fp_rate.log2().abs().ceil() as usize
}

fn distinct_items(n: usize) -> Vec<usize> {
    let mut items: Vec<usize> = Vec::new();
    while items.len() < n {
        let x: usize = random();
        if !items.contains(&x) {
            items.push(x);
        }
    }
    items
}

#[test]
fn parameters_for_three_percent() {
    assert_eq!(730, bucket_count(100, 0.03));
    assert_eq!(6, probe_count(0.03));
}

#[test]
fn classic_contains() {
    let items = distinct_items(16);
    let mut filter = ClassicBloomFilter::new(
        bucket_count(100, 0.03),
        probe_count(0.03),
        DefaultBuildHashKernels::new(random(), RandomState::new()),
    );
    assert_eq!(730, filter.buckets().len());
    assert!(items.iter().all(|i| !filter.contains(i)));
    items.iter().for_each(|i| filter.insert(i));
    assert!(items.iter().all(|i| filter.contains(i)));
}

#[test]
fn classic_raw_data() {
    let items = distinct_items(8);
    let data = vec![0; 8];
    let hash_seed = random();
    let mut filter = ClassicBloomFilter::with_raw_data(
        &data,
        2,
        DefaultBuildHashKernels::new(hash_seed, DefaultBuildHasher),
    );
    assert_eq!(64, filter.buckets().len());
    assert!(items.iter().all(|i| !filter.contains(i)));
    items.iter().for_each(|i| filter.insert(i));
    let data = filter.buckets().raw_data();
    let filter = ClassicBloomFilter::with_raw_data(
        &data,
        2,
        DefaultBuildHashKernels::new(hash_seed, DefaultBuildHasher),
    );
    assert!(items.iter().all(|i| filter.contains(i)));
}

#[test]
fn classic_update() {
    let items1 = distinct_items(8);
    let items2 = distinct_items(8);
    let data = vec![0; 8];
    let hash_seed = random();

    let mut filter1 = ClassicBloomFilter::with_raw_data(
        &data,
        2,
        DefaultBuildHashKernels::new(hash_seed, DefaultBuildHasher),
    );
    items1.iter().for_each(|i| filter1.insert(i));

    let mut filter2 = ClassicBloomFilter::with_raw_data(
        &data,
        2,
        DefaultBuildHashKernels::new(hash_seed, DefaultBuildHasher),
    );
    items2.iter().for_each(|i| filter2.insert(i));

    filter1.update(&filter2.buckets().raw_data());
    assert!(items1.iter().all(|i| filter1.contains(i)));
    assert!(items2.iter().all(|i| filter1.contains(i)));
}

#[test]
fn classic_update_is_the_union_of_the_buckets() {
    let mut a =
        ClassicBloomFilter::new(128, 3, DefaultBuildHashKernels::new(1, DefaultBuildHasher));
    let mut b =
        ClassicBloomFilter::new(128, 3, DefaultBuildHashKernels::new(1, DefaultBuildHasher));
    a.insert_digest(11);
    b.insert_digest(0xdead_beef_0000_0001);
    let before: Vec<u8> = (0..128).map(|i| a.buckets().get(i)).collect();
    a.update(&b.buckets().raw_data());
    for i in 0..128 {
        assert_eq!(before[i] | b.buckets().get(i), a.buckets().get(i));
    }
    assert!(a.contains_digest(11));
    assert!(a.contains_digest(0xdead_beef_0000_0001));
}

#[test]
fn classic_insert_sets_exactly_the_probes() {
    let mut filter =
        ClassicBloomFilter::new(7, 4, DefaultBuildHashKernels::new(5, DefaultBuildHasher));
    // h1 = 3, h2 = 2: probes 1, 3, 5, 0
    let digest: u64 = (2u64 << 32) | 3;
    assert!(!filter.contains_digest(digest));
    filter.insert_digest(digest);
    let cells: Vec<u8> = (0..7).map(|i| filter.buckets().get(i)).collect();
    assert_eq!(vec![1, 1, 0, 1, 0, 1, 0], cells);
    assert!(filter.contains_digest(digest));
    // h1 = 4, h2 = 0: probe 2 only
    assert!(!filter.contains_digest(4));
    filter.reset();
    assert!(!filter.contains_digest(digest));
    assert!((0..7).all(|i| filter.buckets().get(i) == 0));
}

#[test]
fn classic_item_and_digest_agree() {
    let mut filter =
        ClassicBloomFilter::new(730, 6, DefaultBuildHashKernels::new(9, DefaultBuildHasher));
    let item = "a word";
    filter.insert(&item);
    assert!(filter.contains(&item));
    assert!(filter.contains_digest(DefaultBuildHasher.hash_one(&item)));
    assert!(!filter.contains(&"another word"));
}

#[test]
fn classic_without_probes_holds_everything() {
    let filter = ClassicBloomFilter::new(0, 0, DefaultBuildHashKernels::new(9, DefaultBuildHasher));
    assert!(filter.contains(&1u8));
    assert!(filter.contains_digest(77));
}

#[test]
fn counting_contains() {
    let items = distinct_items(16);
    let mut filter = CountingBloomFilter::new(
        bucket_count(100, 0.03),
        4,
        probe_count(0.03),
        DefaultBuildHashKernels::new(random(), RandomState::new()),
    );
    assert!(items.iter().all(|i| !filter.contains(i)));
    items.iter().for_each(|i| filter.insert(i));
    assert!(items.iter().all(|i| filter.contains(i)));
}

#[test]
fn counting_remove() {
    let item: usize = random();
    let mut filter = CountingBloomFilter::new(
        bucket_count(100, 0.03),
        4,
        probe_count(0.03),
        DefaultBuildHashKernels::new(random(), RandomState::new()),
    );
    filter.insert(&item);
    filter.remove(&item);
    assert!(!filter.contains(&item));
}

#[test]
fn counting_counts_every_probe() {
    let mut filter =
        CountingBloomFilter::new(7, 2, 4, DefaultBuildHashKernels::new(0, DefaultBuildHasher));
    // h1 = 3, h2 = 0: all four probes fall on bucket 3
    filter.insert_digest(3);
    assert_eq!(3, filter.buckets().get(3));
    assert!(filter.contains_digest(3));
    filter.remove_digest(3);
    assert_eq!(0, filter.buckets().get(3));
    assert!(!filter.contains_digest(3));
    // h1 = 1, h2 = 1: probes 1, 2, 3, 4
    let digest: u64 = (1u64 << 32) | 1;
    filter.insert_digest(digest);
    filter.insert_digest(digest);
    let cells: Vec<u8> = (0..7).map(|i| filter.buckets().get(i)).collect();
    assert_eq!(vec![0, 2, 2, 2, 2, 0, 0], cells);
    filter.remove_digest(digest);
    assert!(filter.contains_digest(digest));
    filter.remove_digest(digest);
    assert!(!filter.contains_digest(digest));
    filter.remove_digest(digest);
    assert!((0..7).all(|i| filter.buckets().get(i) == 0));
}

#[test]
fn counting_shared_bucket_is_lost_on_removal() {
    let mut filter =
        CountingBloomFilter::new(7, 1, 1, DefaultBuildHashKernels::new(0, DefaultBuildHasher));
    // both digests fall on bucket 3, and a bucket of one bit counts to one
    filter.insert_digest(3);
    filter.insert_digest(10);
    filter.remove_digest(3);
    assert!(!filter.contains_digest(10));
    filter.reset();
    assert!(!filter.contains_digest(3));
}

#[test]
fn stable_contains() {
    let items = distinct_items(7);
    // d = 3, max = (1 << d) - 1
    let mut filter = StableBloomFilter::new(
        100,
        3,
        probe_count(0.03),
        1,
        DefaultBuildHashKernels::new(random(), RandomState::new()),
    );
    assert!(items.iter().all(|i| !filter.contains(i)));
    items.iter().for_each(|i| filter.insert(i));
    assert!(items.iter().all(|i| filter.contains(i)));
}

#[test]
fn stable_decays_then_sets() {
    let mut filter =
        StableBloomFilter::new(5, 3, 2, 3, DefaultBuildHashKernels::new(0, DefaultBuildHasher));
    // h1 = 1, h2 = 1: probes 1, 2
    let first: u64 = (1u64 << 32) | 1;
    filter.insert_digest_from(0, first);
    let cells: Vec<u8> = (0..5).map(|i| filter.buckets().get(i)).collect();
    assert_eq!(vec![0, 7, 7, 0, 0], cells);
    // decay takes one off buckets 4, 0, 1 (start 9 mod 5 = 4), then probes 3, 4 are set
    let second: u64 = (1u64 << 32) | 3;
    filter.insert_digest_from(9, second);
    let cells: Vec<u8> = (0..5).map(|i| filter.buckets().get(i)).collect();
    assert_eq!(vec![0, 6, 7, 7, 7], cells);
    assert!(filter.contains_digest(first));
    assert!(filter.contains_digest(second));
    filter.decay_from(1);
    let cells: Vec<u8> = (0..5).map(|i| filter.buckets().get(i)).collect();
    assert_eq!(vec![0, 5, 6, 6, 7], cells);
    filter.reset();
    assert!(!filter.contains_digest(first));
}

#[test]
fn stable_decay_goes_round_more_than_once() {
    let mut filter =
        StableBloomFilter::new(3, 2, 1, 7, DefaultBuildHashKernels::new(0, DefaultBuildHasher));
    filter.insert_digest_from(0, 0);
    filter.insert_digest_from(0, 1);
    filter.insert_digest_from(0, 2);
    // seven steps from bucket 2 on: bucket 2 three times, buckets 0 and 1 twice
    filter.decay_from(2);
    let cells: Vec<u8> = (0..3).map(|i| filter.buckets().get(i)).collect();
    assert_eq!(vec![0, 0, 0], cells);
}

#[test]
fn stable_item_fades_after_enough_insertions() {
    let mut filter =
        StableBloomFilter::new(4, 2, 1, 4, DefaultBuildHashKernels::new(0, DefaultBuildHasher));
    filter.insert_digest(0);
    assert!(filter.contains_digest(0));
    filter.insert_digest(1);
    assert!(filter.contains_digest(0));
    filter.insert_digest(1);
    assert!(filter.contains_digest(0));
    filter.insert_digest(1);
    assert!(!filter.contains_digest(0));
    assert!(filter.contains_digest(1));
}

#[test]
fn stable_probe_count_is_clamped() {
    assert_eq!(3, clamp_probe_count(6, 3));
    assert_eq!(1, clamp_probe_count(0, 3));
    assert_eq!(3, clamp_probe_count(3, 3));
    assert_eq!(2, clamp_probe_count(2, 3));
    assert_eq!(0, clamp_probe_count(5, 0));
    let mut filter =
        StableBloomFilter::new(2, 3, 6, 0, DefaultBuildHashKernels::new(0, DefaultBuildHasher));
    // two probes: 1 and 0; a decay count of zero counts as one
    filter.insert_digest_from(0, 1);
    filter.insert_digest_from(0, (1u64 << 32) | 1);
    let cells: Vec<u8> = (0..2).map(|i| filter.buckets().get(i)).collect();
    assert_eq!(vec![7, 7], cells);
    filter.decay_from(1);
    let cells: Vec<u8> = (0..2).map(|i| filter.buckets().get(i)).collect();
    assert_eq!(vec![7, 6], cells);
}

#[test]
fn const_classic_contains() {
    let items = distinct_items(16);
    // 1600 buckets of one bit take 25 words
    let mut filter = ConstClassicBloomFilter::<_, 25>::new(
        bucket_count(100, 0.03),
        probe_count(0.03),
        DefaultBuildHashKernels::new(random(), RandomState::new()),
    );
    assert!(items.iter().all(|i| !filter.contains(i)));
    items.iter().for_each(|i| filter.insert(i));
    assert!(items.iter().all(|i| filter.contains(i)));
    assert_eq!(730, filter.buckets().len());
    filter.reset();
    assert!(items.iter().all(|i| !filter.contains(i)));
}

#[test]
fn const_stable_contains() {
    let items = distinct_items(7);
    // 730 buckets of three bits take 35 words
    let mut filter = ConstStableBloomFilter::<_, 35>::new(
        730,
        3,
        probe_count(0.03),
        7,
        DefaultBuildHashKernels::new(random(), RandomState::new()),
    );
    assert!(items.iter().all(|i| !filter.contains(i)));
    items.iter().for_each(|i| filter.insert(i));
    assert!(items.iter().all(|i| filter.contains(i)));
    filter.insert_digest_from(3, 0);
    assert!(filter.contains_digest(0));
}

#[test]
fn const_stable_with_fixed_shape_contains() {
    let items = distinct_items(7);
    let mut filter = bloom_filters::const_stable::Filter::<_, 35, 730, 3>::new(
        probe_count(0.03),
        7,
        DefaultBuildHashKernels::new(random(), RandomState::new()),
    );
    assert!(items.iter().all(|i| !filter.contains(i)));
    items.iter().for_each(|i| filter.insert(i));
    assert!(items.iter().all(|i| filter.contains(i)));
    assert_eq!(730, filter.buckets().len());
    assert_eq!(7, filter.buckets().max_value());
}
