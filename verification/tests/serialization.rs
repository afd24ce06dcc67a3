use bloom_filters::bytes::{read_le_word, words_to_le_bytes};
use bloom_filters::buckets::Buckets;

#[test]
fn words_are_written_lowest_byte_first() {
    let bytes = words_to_le_bytes(&[0x0807_0605_0403_0201, 0xff]);
    assert_eq!(vec![1, 2, 3, 4, 5, 6, 7, 8, 0xff, 0, 0, 0, 0, 0, 0, 0], bytes);
    assert_eq!(Vec::<u8>::new(), words_to_le_bytes(&[]));
}

#[test]
fn words_are_read_lowest_byte_first() {
    let bytes = [1u8, 2, 3, 4, 5, 6, 7, 8, 0xff, 0xee];
    assert_eq!(0x0807_0605_0403_0201, read_le_word(&bytes, 0));
    // the second word is short: the missing bytes read as zero
    assert_eq!(0xeeff, read_le_word(&bytes, 1));
    assert_eq!(0, read_le_word(&bytes, 2));
    assert_eq!(0, read_le_word(&bytes, usize::MAX));
}

#[test]
fn raw_data_has_the_packed_fields() {
    let mut buckets = Buckets::new(16, 4);
    buckets.set(0, 0xa);
    buckets.set(1, 0xb);
    buckets.set(15, 0x7);
    assert_eq!(vec![0xba, 0, 0, 0, 0, 0, 0, 0x70], buckets.raw_data());
}

#[test]
fn a_field_across_two_words() {
    // bucket 21 of width 3 takes bits 63, 64 and 65
    let mut buckets = Buckets::new(100, 3);
    buckets.set(21, 5);
    let raw = buckets.raw_data();
    assert_eq!(40, raw.len());
    assert_eq!(0x80, raw[7]);
    assert_eq!(0x02, raw[8]);
    assert_eq!(5, buckets.get(21));
    assert_eq!(0, buckets.get(20));
    assert_eq!(0, buckets.get(22));
    buckets.set(20, 7);
    buckets.set(22, 7);
    assert_eq!(5, buckets.get(21));
    buckets.set(21, 2);
    assert_eq!(7, buckets.get(20));
    assert_eq!(2, buckets.get(21));
    assert_eq!(7, buckets.get(22));
}

#[test]
fn round_trip_keeps_every_bucket() {
    for width in 0u8..8 {
        let count = 77usize;
        let mut buckets = Buckets::new(count, width);
        for b in 0..count {
            buckets.set(b, ((b * 37 + 11) % 256) as u8);
        }
        let raw = buckets.raw_data();
        assert_eq!((count * width as usize + 63) / 64 * 8, raw.len());
        let copy = Buckets::with_raw_data(count, width, &raw);
        for b in 0..count {
            assert_eq!(buckets.get(b), copy.get(b));
        }
        assert_eq!(raw, copy.raw_data());
    }
}

#[test]
fn with_raw_data_reads_any_bytes() {
    let raw = [0xffu8; 8];
    let buckets = Buckets::with_raw_data(9, 7, &raw);
    for b in 0..9 {
        assert_eq!(127, buckets.get(b));
    }
    let buckets = Buckets::with_raw_data(64, 1, &[0x05, 0, 0, 0, 0, 0, 0, 0x80]);
    assert_eq!(1, buckets.get(0));
    assert_eq!(0, buckets.get(1));
    assert_eq!(1, buckets.get(2));
    assert_eq!(1, buckets.get(63));
}

#[test]
fn update_merges_by_or() {
    let mut a = Buckets::new(20, 3);
    a.set(0, 0b001);
    a.set(5, 0b100);
    let mut b = Buckets::new(20, 3);
    b.set(0, 0b010);
    b.set(5, 0b100);
    b.set(7, 0b111);
    a.update(&b.raw_data());
    assert_eq!(0b011, a.get(0));
    assert_eq!(0b100, a.get(5));
    assert_eq!(0b111, a.get(7));
    assert_eq!(0, a.get(1));
}

#[test]
fn update_with_short_and_long_bytes() {
    let mut a = Buckets::new(128, 1);
    a.update(&[0x01, 0x80]);
    assert_eq!(1, a.get(0));
    assert_eq!(1, a.get(15));
    assert_eq!(0, a.get(16));
    a.update(&[0u8; 40]);
    assert_eq!(1, a.get(0));
    let mut long = vec![0u8; 24];
    long[8] = 0x02;
    long[16] = 0xff;
    a.update(&long);
    assert_eq!(1, a.get(65));
    assert_eq!(16, a.raw_data().len());
    a.update(&[]);
    assert_eq!(1, a.get(65));
}
