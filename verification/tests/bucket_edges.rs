use bloom_filters::buckets::{BucketArray, Buckets};

#[test]
fn scenario_saturation() {
    let mut buckets = Buckets::new(100, 3);
    buckets.set(10, 3);
    buckets.set(11, 4);
    buckets.set(20, 5);
    assert_eq!(3, buckets.get(10));
    assert_eq!(4, buckets.get(11));
    assert_eq!(5, buckets.get(20));
    buckets.increment(10, 100);
    assert_eq!(7, buckets.get(10));
    buckets.increment(10, -10);
    assert_eq!(0, buckets.get(10));
}

#[test]
fn set_clamps_to_the_largest_value() {
    for width in 0u8..8 {
        let mut buckets = Buckets::new(10, width);
        let max = ((1u16 << width) - 1) as u8;
        assert_eq!(max, buckets.max_value());
        buckets.set(4, 255);
        assert_eq!(max, buckets.get(4));
        assert_eq!(0, buckets.get(3));
        assert_eq!(0, buckets.get(5));
        buckets.set(4, max);
        assert_eq!(max, buckets.get(4));
    }
}

#[test]
fn increment_never_leaves_the_range() {
    let mut buckets = Buckets::new(3, 7);
    buckets.increment(0, 127);
    assert_eq!(127, buckets.get(0));
    buckets.increment(0, 127);
    assert_eq!(127, buckets.get(0));
    buckets.increment(0, -128);
    assert_eq!(0, buckets.get(0));
    buckets.increment(0, -128);
    assert_eq!(0, buckets.get(0));
    buckets.increment(1, 5);
    buckets.increment(1, -3);
    assert_eq!(2, buckets.get(1));
    let deltas: [i8; 9] = [100, 100, -1, -128, 3, 127, -5, -127, 1];
    for d in deltas {
        buckets.increment(2, d);
        assert!(buckets.get(2) <= buckets.max_value());
    }
    assert_eq!(1, buckets.get(2));
}

#[test]
fn width_zero_holds_only_zero() {
    let mut buckets = Buckets::new(5, 0);
    assert_eq!(5, buckets.len());
    assert_eq!(0, buckets.max_value());
    buckets.set(2, 9);
    buckets.increment(3, 4);
    assert_eq!(0, buckets.get(2));
    assert_eq!(0, buckets.get(3));
    assert_eq!(0, buckets.raw_data().len());
}

#[test]
fn empty_array() {
    let mut buckets = Buckets::new(0, 3);
    assert_eq!(0, buckets.len());
    assert_eq!(7, buckets.max_value());
    assert_eq!(0, buckets.raw_data().len());
    buckets.reset();
    buckets.update(&[1, 2, 3]);
    let copy = Buckets::with_raw_data(0, 3, &[]);
    assert_eq!(0, copy.len());
}

#[test]
fn reset_clears_every_bucket() {
    let mut buckets = Buckets::new(50, 5);
    for b in 0..50 {
        buckets.set(b, 31);
    }
    buckets.reset();
    for b in 0..50 {
        assert_eq!(0, buckets.get(b));
    }
    assert!(buckets.raw_data().iter().all(|x| *x == 0));
}

fn fill<B: BucketArray>(buckets: &mut B) -> usize {
    let n = buckets.len();
    for b in 0..n {
        buckets.set(b, 1);
        buckets.increment(b, 1);
    }
    n
}

#[test]
fn through_the_trait() {
    let mut buckets = Buckets::new(9, 2);
    assert_eq!(9, fill(&mut buckets));
    assert_eq!(2, buckets.get(8));
    assert_eq!(3, BucketArray::max_value(&buckets));
    BucketArray::reset(&mut buckets);
    assert_eq!(0, BucketArray::get(&buckets, 8));
}
