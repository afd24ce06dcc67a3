//! A packed array of fixed-width saturating counters in storage whose size
//! is fixed at compile time.

use crate::bits::{
    field, lemma_bucket_range, lemma_field_bound, lemma_fits, lemma_read_in_word, lemma_read_joined,
    lemma_unpack_merge, lemma_unpack_write, lemma_unpack_zero, lemma_write_in_word,
    lemma_write_joined, low_mask, max_for, merge, reads_as, saturate, unpack, words_needed,
    write_in_word, writes_as, BITS_PER_WORD,
};
use crate::bytes::{
    from_le_bytes, lemma_words_round_trip, read_le_word, to_le_bytes, words_to_le_bytes,
};
use crate::buckets::BucketArray;
use vstd::prelude::*;

verus! {

/// The words that hold `bucket_count` buckets of `bucket_size` bits each.
pub fn compute_word_num(bucket_count: usize, bucket_size: u8) -> (r: usize)
    requires
        bucket_count * bucket_size + 63 <= usize::MAX,
    ensures
        r == words_needed(bucket_count as nat, bucket_size as nat),
{
    (bucket_count * bucket_size as usize + (BITS_PER_WORD - 1)) / BITS_PER_WORD
}

/// A number of buckets that is enough for `items_count` items at any
/// false-positive rate down to one in a hundred: sixteen for each item.
pub fn approximate_bucket_count(items_count: usize) -> (r: usize)
    requires
        items_count * 16 <= usize::MAX,
    ensures
        r == items_count * 16,
{
    items_count * 16
}

/// `bucket_count` counters of `bucket_size` bits each, packed into `W`
/// 64-bit words.
pub struct ConstBuckets<const W: usize> {
    data: [u64; W],
    bucket_count: usize,
    bucket_size: u8,
    max: u8,
}

impl<const W: usize> View for ConstBuckets<W> {
    type V = Seq<u8>;

    /// The value of every bucket, in order.
    open spec fn view(&self) -> Seq<u8> {
        unpack(self.storage(), self.spec_len() as nat, self.width())
    }
}

impl<const W: usize> ConstBuckets<W> {
    /// What holds of every array: the width is under 8 bits and the storage
    /// has at least the words that the buckets need.
    #[verifier::type_invariant]
    pub closed spec fn wf(&self) -> bool {
        &&& self.bucket_size < 8
        &&& self.bucket_count * self.bucket_size + 63 <= usize::MAX
        &&& (self.bucket_count * self.bucket_size + 63) / 64 <= W
        &&& self.max == low_mask(self.bucket_size as u64)
    }

    /// The backing words.
    pub closed spec fn storage(&self) -> Seq<u64> {
        self.data@
    }

    /// The number of buckets.
    pub closed spec fn spec_len(&self) -> usize {
        self.bucket_count
    }

    /// The bits that one bucket takes.
    pub closed spec fn width(&self) -> nat {
        self.bucket_size as nat
    }

    /// The shape of a well-formed array.
    pub proof fn lemma_shape(&self)
        requires
            self.wf(),
        ensures
            self.width() < 8,
            self.len() * self.width() + 63 <= usize::MAX,
            words_needed(self.len() as nat, self.width()) <= self.storage().len() == W,
    {
    }

    /// An array read back from the bytes that `raw_data` gave of this one
    /// holds, bucket by bucket, what this one holds.
    pub proof fn lemma_raw_data_round_trip(&self, copy: &Self)
        requires
            self.wf(),
            copy.len() == self.len(),
            copy.width() == self.width(),
            copy.storage() == from_le_bytes(to_le_bytes(self.storage()), W as nat),
        ensures
            copy.storage() == self.storage(),
            copy@ == self@,
    {
        lemma_words_round_trip(self.storage());
    }

    /// No bucket holds more than the largest value of its width.
    pub proof fn lemma_cells_bounded(&self)
        requires
            self.width() < 8,
        ensures
            forall|b: int| 0 <= b < self@.len() ==> self@[b] <= max_for(self.width()),
    {
        assert forall|b: int| 0 <= b < self@.len() implies self@[b] <= max_for(self.width()) by {
            lemma_fits(0, self.width() as u64);
            lemma_field_bound(self.storage(), b * self.width(), self.width() as int);
        }
    }

    /// An array of `bucket_count` buckets of `bucket_size` bits each, all
    /// zero.
    pub fn new(bucket_count: usize, bucket_size: u8) -> (r: Self)
        requires
            bucket_size < 8,
            bucket_count * bucket_size + 63 <= usize::MAX,
            words_needed(bucket_count as nat, bucket_size as nat) <= W,
        ensures
            r.len() == bucket_count,
            r.width() == bucket_size,
            r.storage() == Seq::new(W as nat, |i: int| 0u64),
            r@ == Seq::new(bucket_count as nat, |b: int| 0u8),
    {
        proof {
            lemma_fits(0, bucket_size as u64);
            assert(1u8 << bucket_size == 1u64 << (bucket_size as u64) && 1u8 << bucket_size >= 1)
                by (bit_vector)
                requires
                    bucket_size < 8,
            ;
        }
        let r = Self { data: [0;W], bucket_count, bucket_size, max: (1u8 << bucket_size) - 1 };
        proof {
            assert(r.storage() =~= Seq::new(W as nat, |i: int| 0u64));
            lemma_unpack_zero(r.storage(), bucket_count as nat, bucket_size as nat);
        }
        r
    }

    /// The array of `bucket_count` buckets of `bucket_size` bits each that
    /// `raw_data` holds, as `raw_data` wrote it.
    pub fn with_raw_data(bucket_count: usize, bucket_size: u8, raw_data: &[u8]) -> (r: Self)
        requires
            bucket_size < 8,
            bucket_count * bucket_size + 63 <= usize::MAX,
            words_needed(bucket_count as nat, bucket_size as nat) <= W,
            raw_data@.len() == 8 * W,
        ensures
            r.len() == bucket_count,
            r.width() == bucket_size,
            r.storage() == from_le_bytes(raw_data@, W as nat),
            forall|b: int| 0 <= b < r@.len() ==> r@[b] <= max_for(r.width()),
    {
        proof {
            lemma_fits(0, bucket_size as u64);
            assert(1u8 << bucket_size == 1u64 << (bucket_size as u64) && 1u8 << bucket_size >= 1)
                by (bit_vector)
                requires
                    bucket_size < 8,
            ;
        }
        let mut data: [u64; W] = [0;W];
        let mut i: usize = 0;
        while i < W
            invariant
                i <= W,
                forall|j: int| 0 <= j < i ==> data@[j] == from_le_bytes(raw_data@, W as nat)[j],
            decreases W - i,
        {
            data[i] = read_le_word(raw_data, i);
            i += 1;
        }
        let r = Self { data, bucket_count, bucket_size, max: (1u8 << bucket_size) - 1 };
        proof {
            assert(r.storage() =~= from_le_bytes(raw_data@, W as nat));
            r.lemma_cells_bounded();
        }
        r
    }

    /// The storage as bytes: every word lowest byte first, in the order of
    /// the words.
    pub fn raw_data(&self) -> (bytes: Vec<u8>)
        ensures
            bytes@ == to_le_bytes(self.storage()),
            bytes@.len() == 8 * W,
    {
        words_to_le_bytes(self.data.as_slice())
    }

    /// Merges the storage that `raw_data` holds into this one by bitwise
    /// or, word by word; where `raw_data` ends, the rest reads as zero.
    pub fn update(&mut self, raw_data: &[u8])
        ensures
            final(self).len() == old(self).len(),
            final(self).width() == old(self).width(),
            final(self).storage() == merge(
                old(self).storage(),
                from_le_bytes(raw_data@, old(self).storage().len()),
            ),
            forall|b: int|
                0 <= b < old(self).len() ==> #[trigger] final(self)@[b] == old(self)@[b] | unpack(
                    from_le_bytes(raw_data@, old(self).storage().len()),
                    old(self).len() as nat,
                    old(self).width(),
                )[b],
            forall|b: int|
                0 <= b < old(self).len() ==> final(self)@[b] <= max_for(old(self).width()),
    {
        proof {
            use_type_invariant(&*self);
        }
        let n = W;
        let ghost other = from_le_bytes(raw_data@, n as nat);
        let mut i: usize = 0;
        while i < n
            invariant
                i <= n,
                n == self.data@.len(),
                n == old(self).data@.len(),
                self.wf(),
                self.bucket_count == old(self).bucket_count,
                self.bucket_size == old(self).bucket_size,
                other == from_le_bytes(raw_data@, n as nat),
                forall|j: int| 0 <= j < i ==> self.data@[j] == old(self).data@[j] | other[j],
                forall|j: int| i <= j < n ==> self.data@[j] == old(self).data@[j],
            decreases n - i,
        {
            let w = read_le_word(raw_data, i);
            self.data[i] |= w;
            i += 1;
        }
        proof {
            assert(self.storage() =~= merge(old(self).storage(), other));
            lemma_unpack_merge(
                old(self).storage(),
                other,
                self.bucket_count as nat,
                self.bucket_size as nat,
            );
            self.lemma_cells_bounded();
        }
    }

    /// The number of buckets.
    #[verifier::when_used_as_spec(spec_len)]
    pub fn len(&self) -> (r: usize)
        ensures
            r == self.len(),
    {
        self.bucket_count
    }

    /// The largest value that a bucket holds.
    pub fn max_value(&self) -> (r: u8)
        ensures
            r == max_for(self.width()),
            self.width() < 8,
    {
        proof {
            use_type_invariant(self);
        }
        self.max
    }

    /// Sets every bucket to zero.
    pub fn reset(&mut self)
        ensures
            final(self).len() == old(self).len(),
            final(self).width() == old(self).width(),
            final(self).storage() == Seq::new(old(self).storage().len(), |i: int| 0u64),
            final(self)@ == Seq::new(old(self).len() as nat, |b: int| 0u8),
    {
        proof {
            use_type_invariant(&*self);
        }
        let n = W;
        let mut i: usize = 0;
        while i < n
            invariant
                i <= n,
                n == self.data@.len(),
                self.wf(),
                self.bucket_count == old(self).bucket_count,
                self.bucket_size == old(self).bucket_size,
                self.max == old(self).max,
                forall|j: int| 0 <= j < i ==> self.data@[j] == 0,
            decreases n - i,
        {
            self.data[i] = 0;
            i += 1;
        }
        proof {
            assert(self.storage() =~= Seq::new(old(self).storage().len(), |i: int| 0u64));
            lemma_unpack_zero(self.storage(), self.bucket_count as nat, self.bucket_size as nat);
        }
    }

    /// Adds `delta` to a bucket; the sum is brought into the range from zero
    /// to the largest value.
    pub fn increment(&mut self, bucket: usize, delta: i8)
        requires
            bucket < old(self).len(),
        ensures
            final(self).len() == old(self).len(),
            final(self).width() == old(self).width(),
            final(self).storage().len() == old(self).storage().len(),
            final(self)@ == old(self)@.update(
                bucket as int,
                saturate(
                    old(self)@[bucket as int] + delta,
                    max_for(old(self).width()) as int,
                ) as u8,
            ),
    {
        proof {
            use_type_invariant(&*self);
            lemma_fits(0, self.bucket_size as u64);
        }
        let v: i16 = self.get(bucket) as i16 + delta as i16;
        let value = if v < 0 {
            0u8
        } else if v > self.max as i16 {
            self.max
        } else {
            v as u8
        };
        self.set(bucket, value);
    }

    /// Writes a value into a bucket; one above the largest value is written
    /// as the largest value.
    pub fn set(&mut self, bucket: usize, byte: u8)
        requires
            bucket < old(self).len(),
        ensures
            final(self).len() == old(self).len(),
            final(self).width() == old(self).width(),
            final(self)@ == old(self)@.update(
                bucket as int,
                saturate(byte as int, max_for(old(self).width()) as int) as u8,
            ),
            writes_as(
                old(self).storage(),
                final(self).storage(),
                bucket * old(self).width(),
                old(self).width() as int,
                saturate(byte as int, max_for(old(self).width()) as int) as u64,
            ),
    {
        proof {
            use_type_invariant(&*self);
            lemma_fits(0, self.bucket_size as u64);
            lemma_bucket_range(bucket as int, self.bucket_count as int, self.bucket_size as int);
        }
        let length = self.bucket_size as usize;
        let word = if byte > self.max {
            self.max
        } else {
            byte
        } as u64;
        if length > 0 {
            let offset = bucket * length;
            self.set_word(offset, length, word);
            proof {
                lemma_unpack_write(
                    old(self).storage(),
                    self.storage(),
                    self.bucket_count as nat,
                    self.bucket_size as nat,
                    bucket as int,
                    word,
                );
            }
        } else {
            proof {
                assert(low_mask(0) == 0) by (bit_vector);
                assert(self@ =~= old(self)@.update(bucket as int, 0u8));
            }
        }
    }

    /// The value of a bucket.
    pub fn get(&self, bucket: usize) -> (r: u8)
        requires
            bucket < self.len(),
        ensures
            r == self@[bucket as int],
            r <= max_for(self.width()),
    {
        proof {
            use_type_invariant(self);
            lemma_fits(0, self.bucket_size as u64);
            lemma_bucket_range(bucket as int, self.bucket_count as int, self.bucket_size as int);
            lemma_field_bound(
                self.storage(),
                bucket * self.bucket_size,
                self.bucket_size as int,
            );
        }
        let length = self.bucket_size as usize;
        if length > 0 {
            self.get_word(bucket * length, length) as u8
        } else {
            0
        }
    }

    fn set_word(&mut self, offset: usize, length: usize, word: u64)
        requires
            0 < length < 64,
            offset + length <= usize::MAX,
            offset + length <= 64 * old(self).storage().len(),
        ensures
            writes_as(
                old(self).storage(),
                final(self).storage(),
                offset as int,
                length as int,
                word,
            ),
            final(self).spec_len() == old(self).spec_len(),
            final(self).width() == old(self).width(),
        decreases length,
    {
        proof {
            use_type_invariant(&*self);
        }
        let word_index = offset / BITS_PER_WORD;
        let word_offset = offset % BITS_PER_WORD;
        if word_offset + length > BITS_PER_WORD {
            let remain = BITS_PER_WORD - word_offset;
            self.set_word(offset, remain, word);
            let ghost mid = self.storage();
            self.set_word(offset + remain, length - remain, word >> remain);
            proof {
                lemma_write_joined(
                    old(self).storage(),
                    mid,
                    self.storage(),
                    offset as int,
                    length as int,
                    remain as int,
                    word,
                );
            }
        } else {
            proof {
                lemma_write_in_word(self.storage(), offset as int, length as int, word);
            }
            let bit_mask: u64 = (1u64 << length) - 1;
            self.data[word_index] &= !(bit_mask << word_offset);
            self.data[word_index] |= (word & bit_mask) << word_offset;
            proof {
                assert(self.storage() =~= old(self).storage().update(
                    word_index as int,
                    write_in_word(
                        old(self).storage()[word_index as int],
                        word_offset as u64,
                        length as u64,
                        word,
                    ),
                ));
            }
        }
    }

    fn get_word(&self, offset: usize, length: usize) -> (r: u64)
        requires
            0 < length < 64,
            offset + length <= usize::MAX,
            offset + length <= 64 * self.storage().len(),
        ensures
            reads_as(self.storage(), offset as int, length as int, r),
            r == field(self.storage(), offset as int, length as int),
        decreases length,
    {
        let word_index = offset / BITS_PER_WORD;
        let word_offset = offset % BITS_PER_WORD;
        if word_offset + length > BITS_PER_WORD {
            let remain = BITS_PER_WORD - word_offset;
            let low = self.get_word(offset, remain);
            let high = self.get_word(offset + remain, length - remain);
            proof {
                lemma_read_joined(
                    self.storage(),
                    offset as int,
                    length as int,
                    remain as int,
                    low,
                    high,
                );
            }
            low | (high << remain)
        } else {
            proof {
                lemma_read_in_word(self.storage(), offset as int, length as int);
            }
            let bit_mask: u64 = (1u64 << length) - 1;
            (self.data[word_index] & (bit_mask << word_offset)) >> word_offset
        }
    }
}

impl<const W: usize> Clone for ConstBuckets<W> {
    fn clone(&self) -> (r: Self)
        ensures
            r == *self,
    {
        proof {
            use_type_invariant(self);
        }
        Self {
            data: self.data,
            bucket_count: self.bucket_count,
            bucket_size: self.bucket_size,
            max: self.max,
        }
    }
}

impl<const W: usize> BucketArray for ConstBuckets<W> {
    open spec fn cells(&self) -> Seq<u8> {
        self@
    }

    open spec fn limit(&self) -> u8 {
        max_for(self.width())
    }

    fn len(&self) -> (r: usize) {
        ConstBuckets::len(self)
    }

    fn max_value(&self) -> (r: u8) {
        ConstBuckets::max_value(self)
    }

    fn get(&self, bucket: usize) -> (r: u8) {
        ConstBuckets::get(self, bucket)
    }

    fn set(&mut self, bucket: usize, byte: u8) {
        ConstBuckets::set(self, bucket, byte)
    }

    fn increment(&mut self, bucket: usize, delta: i8) {
        ConstBuckets::increment(self, bucket, delta)
    }

    fn reset(&mut self) {
        ConstBuckets::reset(self)
    }
}

} // verus!
