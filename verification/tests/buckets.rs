use bloom_filters::buckets::Buckets;

#[test]
fn one_bit() {
    let mut buckets = Buckets::new(100, 1);
    buckets.set(0, 1);
    buckets.set(1, 0);
    buckets.set(2, 1);
    buckets.set(3, 0);
    assert_eq!(1, buckets.get(0));
    assert_eq!(0, buckets.get(1));
    assert_eq!(1, buckets.get(2));
    assert_eq!(0, buckets.get(3));
}

#[test]
fn three_bits() {
    let mut buckets = Buckets::new(100, 3);
    buckets.set(0, 1);
    buckets.set(1, 2);
    buckets.set(10, 3);
    buckets.set(11, 4);
    buckets.set(20, 5);
    buckets.set(21, 6);
    assert_eq!(1, buckets.get(0));
    assert_eq!(2, buckets.get(1));
    assert_eq!(3, buckets.get(10));
    assert_eq!(4, buckets.get(11));
    assert_eq!(5, buckets.get(20));
    assert_eq!(6, buckets.get(21));
}

#[test]
fn reset() {
    let mut buckets = Buckets::new(100, 1);
    buckets.set(1, 1);
    assert_eq!(1, buckets.get(1));
    buckets.reset();
    assert_eq!(0, buckets.get(1));
}

#[test]
fn increment() {
    let mut buckets = Buckets::new(100, 3);
    buckets.increment(10, 2);
    assert_eq!(2, buckets.get(10));
    buckets.increment(10, 1);
    assert_eq!(3, buckets.get(10));
    buckets.increment(10, 100);
    assert_eq!(7, buckets.get(10));
    buckets.increment(10, -1);
    assert_eq!(6, buckets.get(10));
    buckets.increment(10, -10);
    assert_eq!(0, buckets.get(10));
}

#[test]
fn with_raw_data() {
    let mut buckets = Buckets::new(100, 1);
    buckets.set(0, 1);
    buckets.set(1, 0);
    buckets.set(2, 1);
    buckets.set(3, 0);
    let raw_data = buckets.raw_data();
    let buckets = Buckets::with_raw_data(100, 1, &raw_data);
    assert_eq!(1, buckets.get(0));
    assert_eq!(0, buckets.get(1));
    assert_eq!(1, buckets.get(2));
    assert_eq!(0, buckets.get(3));

    let mut buckets = Buckets::new(100, 3);
    buckets.set(0, 1);
    buckets.set(1, 2);
    buckets.set(10, 3);
    buckets.set(11, 4);
    buckets.set(20, 5);
    buckets.set(21, 6);
    let raw_data = buckets.raw_data();
    let buckets = Buckets::with_raw_data(100, 3, &raw_data);
    assert_eq!(1, buckets.get(0));
    assert_eq!(2, buckets.get(1));
    assert_eq!(3, buckets.get(10));
    assert_eq!(4, buckets.get(11));
    assert_eq!(5, buckets.get(20));
    assert_eq!(6, buckets.get(21));
}
