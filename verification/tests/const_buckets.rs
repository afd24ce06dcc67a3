use bloom_filters::const_buckets::{compute_word_num, ConstBuckets};

#[test]
fn const_buckets_one_bit() {
    assert_eq!(2, compute_word_num(100, 1));
    let mut buckets = ConstBuckets::<2, 100, 1>::new();
    buckets.set(0, 1);
    buckets.set(1, 0);
    buckets.set(2, 1);
    buckets.set(3, 0);
    assert_eq!(1, buckets.get(0));
    assert_eq!(0, buckets.get(1));
    assert_eq!(1, buckets.get(2));
    assert_eq!(0, buckets.get(3));
}

#[test]
fn const_buckets_three_bits() {
    assert_eq!(5, compute_word_num(100, 3));
    let mut buckets = ConstBuckets::<5, 100, 3>::new();
    buckets.set(0, 1);
    buckets.set(1, 2);
    buckets.set(10, 3);
    buckets.set(11, 4);
    buckets.set(20, 5);
    buckets.set(21, 6);
    assert_eq!(1, buckets.get(0));
    assert_eq!(2, buckets.get(1));
    assert_eq!(3, buckets.get(10));
    assert_eq!(4, buckets.get(11));
    assert_eq!(5, buckets.get(20));
    assert_eq!(6, buckets.get(21));
}

#[test]
fn const_buckets_reset() {
    let mut buckets = ConstBuckets::<2, 100, 1>::new();
    buckets.set(1, 1);
    assert_eq!(1, buckets.get(1));
    buckets.reset();
    assert_eq!(0, buckets.get(1));
}

#[test]
fn const_buckets_increment() {
    let mut buckets = ConstBuckets::<5, 100, 3>::new();
    buckets.increment(10, 2);
    assert_eq!(2, buckets.get(10));
    buckets.increment(10, 1);
    assert_eq!(3, buckets.get(10));
    buckets.increment(10, 100);
    assert_eq!(7, buckets.get(10));
    buckets.increment(10, -1);
    assert_eq!(6, buckets.get(10));
    buckets.increment(10, -10);
    assert_eq!(0, buckets.get(10));

    // test overflow
    assert_eq!(1, compute_word_num(3, 7));
    let mut buckets = ConstBuckets::<1, 3, 7>::new();
    buckets.increment(0, 127);
    assert_eq!(127, buckets.get(0));
    buckets.increment(0, 1);
    assert_eq!(127, buckets.get(0));
}

#[test]
fn const_buckets_with_raw_data() {
    let mut buckets = ConstBuckets::<2, 100, 1>::new();
    buckets.set(0, 1);
    buckets.set(1, 0);
    buckets.set(2, 1);
    buckets.set(3, 0);
    let raw_data = buckets.raw_data();
    let buckets = ConstBuckets::<2, 100, 1>::with_raw_data(&raw_data);
    assert_eq!(1, buckets.get(0));
    assert_eq!(0, buckets.get(1));
    assert_eq!(1, buckets.get(2));
    assert_eq!(0, buckets.get(3));

    let mut buckets = ConstBuckets::<5, 100, 3>::new();
    buckets.set(0, 1);
    buckets.set(1, 2);
    buckets.set(10, 3);
    buckets.set(11, 4);
    buckets.set(20, 5);
    buckets.set(21, 6);
    let raw_data = buckets.raw_data();
    let buckets = ConstBuckets::<5, 100, 3>::with_raw_data(&raw_data);
    assert_eq!(1, buckets.get(0));
    assert_eq!(2, buckets.get(1));
    assert_eq!(3, buckets.get(10));
    assert_eq!(4, buckets.get(11));
    assert_eq!(5, buckets.get(20));
    assert_eq!(6, buckets.get(21));
}

#[test]
fn const_buckets_update() {
    let mut b1 = ConstBuckets::<2, 100, 1>::new();
    b1.set(0, 1);
    b1.set(20, 1);
    b1.set(63, 1);

    assert_eq!(1, compute_word_num(50, 1));
    let mut b2 = ConstBuckets::<1, 50, 1>::new();
    b2.set(7, 1);
    b2.set(20, 1);
    b2.set(21, 1);
    b2.set(49, 1);

    b1.update(&b2.raw_data());
    assert_eq!(1, b1.get(0));
    assert_eq!(0, b1.get(1));
    assert_eq!(1, b1.get(20));
    assert_eq!(1, b1.get(21));
    assert_eq!(1, b1.get(49));
    assert_eq!(1, b1.get(63));
}

#[test]
fn const_buckets_shape() {
    let buckets = ConstBuckets::<5, 100, 3>::new();
    assert_eq!(100, buckets.len());
    assert_eq!(7, buckets.max_value());
    assert_eq!(40, buckets.raw_data().len());
    let copy = buckets.clone();
    assert_eq!(0, copy.get(99));
}
