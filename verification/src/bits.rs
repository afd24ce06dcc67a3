//! Bit-level model of packed storage: a sequence of 64-bit words read as one
//! long string of bits, lowest bit of the first word first, and cut into
//! fields of equal width, one for each bucket.

use vstd::arithmetic::power2::{lemma2_to64, pow2};
use vstd::prelude::*;

verus! {

/// Bits in one storage word.
pub const BITS_PER_WORD: usize = 64;

/// The mask with the lowest `length` bits set.
pub open spec fn low_mask(length: u64) -> u64 {
    ((1u64 << length) - 1) as u64
}

/// Bit `j` of the word `w`.
pub open spec fn word_bit(w: u64, j: u64) -> bool {
    (w >> j) & 1 == 1
}

/// Bit `i` of the bit string that `words` hold.
pub open spec fn bit_at(words: Seq<u64>, i: int) -> bool {
    word_bit(words[i / 64], (i % 64) as u64)
}

/// The number written by the `length` bits of `words` that start at bit
/// `offset`, lowest digit first.
pub open spec fn field(words: Seq<u64>, offset: int, length: int) -> int
    decreases length,
{
    if length <= 0 {
        0
    } else {
        (if bit_at(words, offset) { 1int } else { 0int })
            + 2 * field(words, offset + 1, length - 1)
    }
}

/// The largest value that a bucket of `width` bits holds.
pub open spec fn max_for(width: nat) -> u8 {
    low_mask(width as u64) as u8
}

/// The words that hold `count` buckets of `width` bits each.
pub open spec fn words_needed(count: nat, width: nat) -> nat {
    (count * width + 63) / 64
}

/// The bucket values that `words` hold: bucket `b` is the field of `width`
/// bits at bit `b * width`.
pub open spec fn unpack(words: Seq<u64>, count: nat, width: nat) -> Seq<u8> {
    Seq::new(count, |b: int| field(words, b * width, width as int) as u8)
}

/// `v` brought into the range from 0 to `max`.
pub open spec fn saturate(v: int, max: int) -> int {
    if v < 0 {
        0
    } else if v > max {
        max
    } else {
        v
    }
}

/// Word by word, the bitwise or of `a` and `b`.
pub open spec fn merge(a: Seq<u64>, b: Seq<u64>) -> Seq<u64> {
    Seq::new(a.len(), |i: int| a[i] | b[i])
}

/// `v` holds the `length` bits of `words` from bit `offset` on and nothing
/// above them.
pub open spec fn reads_as(words: Seq<u64>, offset: int, length: int, v: u64) -> bool {
    &&& forall|j: u64| j < length ==> #[trigger] word_bit(v, j) == bit_at(words, offset + j)
    &&& v >> (length as u64) == 0
}

/// `after` is `before` with the `length` bits from bit `offset` on replaced by
/// the lowest bits of `word`; every other bit is kept.
pub open spec fn writes_as(
    before: Seq<u64>,
    after: Seq<u64>,
    offset: int,
    length: int,
    word: u64,
) -> bool {
    &&& after.len() == before.len()
    &&& forall|i: int|
        0 <= i < 64 * before.len() ==> #[trigger] bit_at(after, i) == if offset <= i < offset
            + length {
            word_bit(word, (i - offset) as u64)
        } else {
            bit_at(before, i)
        }
}

/// What reading the field of `length` bits at bit `o` of one word gives.
pub open spec fn read_in_word(w: u64, o: u64, length: u64) -> u64 {
    (w & (low_mask(length) << o)) >> o
}

/// The word `w` after the lowest `length` bits of `word` were written at
/// its bit `o`.
pub open spec fn write_in_word(w: u64, o: u64, length: u64, word: u64) -> u64 {
    (w & !(low_mask(length) << o)) | ((word & low_mask(length)) << o)
}

proof fn lemma_shift_step(v: u64, length: u64)
    by (bit_vector)
    requires
        0 < length < 64,
        v >> length == 0,
    ensures
        (v >> 1) >> ((length - 1) as u64) == 0,
        v == (v & 1) + 2 * (v >> 1),
        v & 1 == 0 || v & 1 == 1,
        (v >> 0) & 1 == v & 1,
{
}

proof fn lemma_shift_bit(v: u64, j: u64)
    by (bit_vector)
    requires
        j < 63,
    ensures
        ((v >> 1) >> j) & 1 == (v >> ((j + 1) as u64)) & 1,
{
}

proof fn lemma_shift_zero(v: u64)
    by (bit_vector)
    requires
        v >> 0 == 0,
    ensures
        v == 0,
{
}

/// A word that holds a field's bits and nothing more is the field's number.
pub proof fn lemma_reads_as_field(words: Seq<u64>, offset: int, length: int, v: u64)
    requires
        0 <= length < 64,
        reads_as(words, offset, length, v),
    ensures
        field(words, offset, length) == v,
    decreases length,
{
    if length == 0 {
        lemma_shift_zero(v);
    } else {
        let rest = v >> 1;
        lemma_shift_step(v, length as u64);
        assert forall|j: u64| j < length - 1 implies #[trigger] word_bit(rest, j) == bit_at(
            words,
            offset + 1 + j,
        ) by {
            lemma_shift_bit(v, j);
            assert(word_bit(v, (j + 1) as u64) == bit_at(words, offset + (j + 1) as u64));
        }
        lemma_reads_as_field(words, offset + 1, length - 1, rest);
        assert(word_bit(v, 0) == bit_at(words, offset + 0));
    }
}

proof fn lemma_mask_step(length: u64)
    by (bit_vector)
    requires
        0 < length < 64,
    ensures
        low_mask(length) == 2 * low_mask((length - 1) as u64) + 1,
{
}

/// A field of `length` bits is a number from 0 to `low_mask(length)`.
pub proof fn lemma_field_bound(words: Seq<u64>, offset: int, length: int)
    requires
        0 <= length < 64,
    ensures
        0 <= field(words, offset, length) <= low_mask(length as u64),
    decreases length,
{
    if length == 0 {
        assert(low_mask(0) == 0) by (bit_vector);
    } else {
        lemma_mask_step(length as u64);
        lemma_field_bound(words, offset + 1, length - 1);
    }
}

/// Two bit strings that agree on a field's bits hold the same number there.
pub proof fn lemma_field_same_bits(a: Seq<u64>, b: Seq<u64>, offset: int, length: int)
    requires
        forall|i: int| offset <= i < offset + length ==> bit_at(a, i) == bit_at(b, i),
    ensures
        field(a, offset, length) == field(b, offset, length),
    decreases length,
{
    if length > 0 {
        lemma_field_same_bits(a, b, offset + 1, length - 1);
    }
}

/// A field that lies in words that are all zero is zero.
pub proof fn lemma_field_zero(words: Seq<u64>, offset: int, length: int)
    requires
        forall|i: int| 0 <= i < words.len() ==> words[i] == 0,
        0 <= offset,
        offset + length <= 64 * words.len(),
    ensures
        field(words, offset, length) == 0,
    decreases length,
{
    if length > 0 {
        let j = (offset % 64) as u64;
        assert((0u64 >> j) & 1 == 0) by (bit_vector);
        lemma_field_zero(words, offset + 1, length - 1);
    }
}

/// The largest value of a bucket of `width` bits is two to the power of
/// `width`, less one.
pub proof fn lemma_max_for(width: nat)
    requires
        width < 8,
    ensures
        max_for(width) == pow2(width) - 1,
{
    lemma2_to64();
    let w = width as u64;
    assert(w < 8 ==> low_mask(w) as u8 == if w == 0 {
        0u8
    } else if w == 1 {
        1u8
    } else if w == 2 {
        3u8
    } else if w == 3 {
        7u8
    } else if w == 4 {
        15u8
    } else if w == 5 {
        31u8
    } else if w == 6 {
        63u8
    } else {
        127u8
    }) by (bit_vector);
}

/// A bucket of one bit holds zero or one.
pub proof fn lemma_one_bit()
    ensures
        low_mask(1) == 1,
{
    assert(low_mask(1) == 1) by (bit_vector);
}

/// Only a bucket of one bit has one as its largest value.
pub proof fn lemma_width_of_one(width: nat)
    requires
        width < 8,
        max_for(width) == 1,
    ensures
        width == 1,
{
    let w = width as u64;
    assert(w < 8 && low_mask(w) as u8 == 1 ==> w == 1) by (bit_vector);
}

/// A bucket of one bit or more can hold more than zero.
pub proof fn lemma_counter_width(width: u8)
    requires
        0 < width < 8,
    ensures
        1 <= low_mask(width as u64) < 128,
{
    let w = width as u64;
    assert(1 <= low_mask(w) < 128) by (bit_vector)
        requires
            0 < w < 8,
    ;
}

/// A number is at most the mask exactly when it has no bit above the mask.
pub proof fn lemma_fits(v: u64, length: u64)
    by (bit_vector)
    requires
        length < 64,
    ensures
        v <= low_mask(length) <==> v >> length == 0,
        length < 8 ==> low_mask(length) < 128,
{
}

/// What a masked and shifted read of one word returns, bit by bit.
proof fn lemma_read_bit(w: u64, o: u64, length: u64, j: u64)
    by (bit_vector)
    requires
        o < 64,
        length < 64,
        o + length <= 64,
        j < length,
    ensures
        (((w & (low_mask(length) << o)) >> o) >> j) & 1 == (w >> ((o + j) as u64)) & 1,
{
}

/// A masked and shifted read of one word has no bit above the mask.
proof fn lemma_read_top(w: u64, o: u64, length: u64)
    by (bit_vector)
    requires
        o < 64,
        length < 64,
        o + length <= 64,
    ensures
        ((w & (low_mask(length) << o)) >> o) >> length == 0,
        low_mask(length) >= 0,
        1u64 << length >= 1,
{
}

/// Reading a field that lies in one word gives the field.
pub proof fn lemma_read_in_word(words: Seq<u64>, offset: int, length: int)
    requires
        0 <= offset,
        0 < length < 64,
        offset % 64 + length <= 64,
        offset + length <= 64 * words.len(),
    ensures
        1u64 << (length as u64) >= 1,
        reads_as(
            words,
            offset,
            length,
            read_in_word(words[offset / 64], (offset % 64) as u64, length as u64),
        ),
        field(words, offset, length) == read_in_word(
            words[offset / 64],
            (offset % 64) as u64,
            length as u64,
        ),
{
    let w = words[offset / 64];
    let o = (offset % 64) as u64;
    let r = read_in_word(w, o, length as u64);
    lemma_read_top(w, o, length as u64);
    assert forall|j: u64| j < length implies #[trigger] word_bit(r, j) == bit_at(
        words,
        offset + j,
    ) by {
        lemma_read_bit(w, o, length as u64, j);
    }
    lemma_reads_as_field(words, offset, length, r);
}

/// What two parts of a field joined at bit `remain` hold, bit by bit.
proof fn lemma_join_bit(low: u64, high: u64, remain: u64, j: u64)
    by (bit_vector)
    requires
        0 < remain < 64,
        low >> remain == 0,
        j < 64,
    ensures
        ((low | (high << remain)) >> j) & 1 == if j < remain {
            (low >> j) & 1
        } else {
            (high >> ((j - remain) as u64)) & 1
        },
{
}

/// Two parts of a field joined at bit `remain` have no bit above the field.
proof fn lemma_join_top(low: u64, high: u64, remain: u64, length: u64)
    by (bit_vector)
    requires
        0 < remain < length,
        length < 64,
        low >> remain == 0,
        high >> ((length - remain) as u64) == 0,
    ensures
        (low | (high << remain)) >> length == 0,
{
}

/// Joining the two parts of a field that crosses a word boundary gives the
/// field.
pub proof fn lemma_read_joined(
    words: Seq<u64>,
    offset: int,
    length: int,
    remain: int,
    low: u64,
    high: u64,
)
    requires
        0 < remain < length,
        length < 64,
        reads_as(words, offset, remain, low),
        reads_as(words, offset + remain, length - remain, high),
    ensures
        reads_as(words, offset, length, low | (high << (remain as u64))),
        field(words, offset, length) == low | (high << (remain as u64)),
{
    let r = low | (high << (remain as u64));
    lemma_join_top(low, high, remain as u64, length as u64);
    assert forall|j: u64| j < length implies #[trigger] word_bit(r, j) == bit_at(
        words,
        offset + j,
    ) by {
        lemma_join_bit(low, high, remain as u64, j);
        if j < remain {
            assert(word_bit(low, j) == bit_at(words, offset + j));
        } else {
            let k = (j - remain) as u64;
            assert(word_bit(high, k) == bit_at(words, offset + remain + k));
        }
    }
    lemma_reads_as_field(words, offset, length, r);
}

/// What a masked write into one word leaves, bit by bit.
proof fn lemma_write_bit(w: u64, word: u64, o: u64, length: u64, j: u64)
    by (bit_vector)
    requires
        o < 64,
        length < 64,
        o + length <= 64,
        j < 64,
    ensures
        (((w & !(low_mask(length) << o)) | ((word & low_mask(length)) << o)) >> j) & 1 == if o <= j
            && j < o + length {
            (word >> ((j - o) as u64)) & 1
        } else {
            (w >> j) & 1
        },
{
}

/// Writing into a field that lies in one word changes that field and no
/// other bit.
pub proof fn lemma_write_in_word(before: Seq<u64>, offset: int, length: int, word: u64)
    requires
        0 <= offset,
        0 < length < 64,
        offset % 64 + length <= 64,
        offset + length <= 64 * before.len(),
    ensures
        1u64 << (length as u64) >= 1,
        writes_as(
            before,
            before.update(
                offset / 64,
                write_in_word(before[offset / 64], (offset % 64) as u64, length as u64, word),
            ),
            offset,
            length,
            word,
        ),
{
    let w = before[offset / 64];
    let o = (offset % 64) as u64;
    let after = before.update(offset / 64, write_in_word(w, o, length as u64, word));
    lemma_read_top(w, o, length as u64);
    assert forall|i: int| 0 <= i < 64 * before.len() implies #[trigger] bit_at(after, i) == if
        offset <= i < offset + length {
        word_bit(word, (i - offset) as u64)
    } else {
        bit_at(before, i)
    } by {
        if i / 64 == offset / 64 {
            lemma_write_bit(w, word, o, length as u64, (i % 64) as u64);
        }
    }
}

/// A bit of a shifted word is a higher bit of the word.
proof fn lemma_shifted_bit(word: u64, remain: u64, j: u64)
    by (bit_vector)
    requires
        remain < 64,
        j < 64,
        remain + j < 64,
    ensures
        ((word >> remain) >> j) & 1 == (word >> ((remain + j) as u64)) & 1,
{
}

/// Writing the two parts of a field that crosses a word boundary, one after
/// the other, changes that field and no other bit.
pub proof fn lemma_write_joined(
    before: Seq<u64>,
    mid: Seq<u64>,
    after: Seq<u64>,
    offset: int,
    length: int,
    remain: int,
    word: u64,
)
    requires
        0 <= offset,
        0 < remain < length,
        length < 64,
        writes_as(before, mid, offset, remain, word),
        writes_as(mid, after, offset + remain, length - remain, word >> (remain as u64)),
    ensures
        writes_as(before, after, offset, length, word),
{
    assert forall|i: int| 0 <= i < 64 * before.len() implies #[trigger] bit_at(after, i) == if
        offset <= i < offset + length {
        word_bit(word, (i - offset) as u64)
    } else {
        bit_at(before, i)
    } by {
        assert(bit_at(mid, i) == if offset <= i < offset + remain {
            word_bit(word, (i - offset) as u64)
        } else {
            bit_at(before, i)
        });
        if offset + remain <= i < offset + length {
            lemma_shifted_bit(word, remain as u64, (i - offset - remain) as u64);
        }
    }
}

/// Where bucket `b` lies among the bits of `count` buckets.
pub proof fn lemma_bucket_range(b: int, count: int, width: int)
    by (nonlinear_arith)
    requires
        0 <= b < count,
        0 <= width,
    ensures
        0 <= b * width,
        b * width + width <= count * width,
{
}

/// Two different buckets share no bit.
pub proof fn lemma_buckets_apart(a: int, b: int, width: int)
    by (nonlinear_arith)
    requires
        0 <= a < b,
        0 <= width,
    ensures
        a * width + width <= b * width,
{
}

/// Writing a value that fits into the field of one bucket changes that
/// bucket to the value and no other bucket.
pub proof fn lemma_unpack_write(
    before: Seq<u64>,
    after: Seq<u64>,
    count: nat,
    width: nat,
    bucket: int,
    value: u64,
)
    requires
        0 < width < 8,
        0 <= bucket < count,
        value <= low_mask(width as u64),
        count * width <= 64 * before.len(),
        writes_as(before, after, bucket * width, width as int, value),
    ensures
        unpack(after, count, width) == unpack(before, count, width).update(bucket, value as u8),
{
    let offset = bucket * width;
    assert forall|b: int| 0 <= b < count implies unpack(after, count, width)[b] == unpack(
        before,
        count,
        width,
    ).update(bucket, value as u8)[b] by {
        lemma_bucket_range(b, count as int, width as int);
        lemma_bucket_range(bucket, count as int, width as int);
        if b == bucket {
            lemma_fits(value, width as u64);
            assert forall|j: u64| j < width implies #[trigger] word_bit(value, j) == bit_at(
                after,
                offset + j,
            ) by {
                assert(bit_at(after, offset + j) == word_bit(value, (offset + j - offset) as u64));
            }
            lemma_reads_as_field(after, offset, width as int, value);
        } else {
            if b < bucket {
                lemma_buckets_apart(b, bucket, width as int);
            } else {
                lemma_buckets_apart(bucket, b, width as int);
            }
            lemma_field_same_bits(after, before, b * width, width as int);
        }
    }
}

/// Words that are all zero hold buckets that are all zero.
pub proof fn lemma_unpack_zero(words: Seq<u64>, count: nat, width: nat)
    requires
        forall|i: int| 0 <= i < words.len() ==> words[i] == 0,
        count * width <= 64 * words.len(),
    ensures
        unpack(words, count, width) == Seq::new(count, |b: int| 0u8),
{
    assert forall|b: int| 0 <= b < count implies unpack(words, count, width)[b] == 0u8 by {
        lemma_bucket_range(b, count as int, width as int);
        lemma_field_zero(words, b * width, width as int);
    }
}

proof fn lemma_or_bit(a: u64, b: u64, j: u64)
    by (bit_vector)
    requires
        j < 64,
    ensures
        ((a | b) >> j) & 1 == 1 <==> (a >> j) & 1 == 1 || (b >> j) & 1 == 1,
{
}

proof fn lemma_or_step(x: u64, y: u64, p: u64, q: u64)
    by (bit_vector)
    requires
        x <= 1,
        y <= 1,
        p < 128,
        q < 128,
    ensures
        (x + 2 * p) as u64 | (y + 2 * q) as u64 == (if x == 1 || y == 1 {
            1u64
        } else {
            0u64
        }) + 2 * (p | q),
        p | q < 128,
{
}

proof fn lemma_or_bytes(x: u64, y: u64)
    by (bit_vector)
    requires
        x < 128,
        y < 128,
    ensures
        (x | y) as u8 == (x as u8) | (y as u8),
{
}

/// The field of a merge is the bitwise or of the two fields.
pub proof fn lemma_field_merge(a: Seq<u64>, b: Seq<u64>, offset: int, length: int)
    requires
        0 <= length < 8,
        a.len() == b.len(),
        0 <= offset,
        offset + length <= 64 * a.len(),
    ensures
        field(merge(a, b), offset, length) == (field(a, offset, length) as u64) | (field(
            b,
            offset,
            length,
        ) as u64),
        field(merge(a, b), offset, length) < 128,
    decreases length,
{
    lemma_fits(0, length as u64);
    lemma_field_bound(a, offset, length);
    lemma_field_bound(b, offset, length);
    lemma_field_bound(merge(a, b), offset, length);
    if length == 0 {
        assert(0u64 | 0u64 == 0) by (bit_vector);
    } else {
        lemma_fits(0, (length - 1) as u64);
        lemma_field_bound(a, offset + 1, length - 1);
        lemma_field_bound(b, offset + 1, length - 1);
        lemma_field_merge(a, b, offset + 1, length - 1);
        lemma_or_bit(a[offset / 64], b[offset / 64], (offset % 64) as u64);
        let x: u64 = if bit_at(a, offset) { 1 } else { 0 };
        let y: u64 = if bit_at(b, offset) { 1 } else { 0 };
        lemma_or_step(
            x,
            y,
            field(a, offset + 1, length - 1) as u64,
            field(b, offset + 1, length - 1) as u64,
        );
    }
}

/// Bucket by bucket, a merge holds the bitwise or of the two values.
pub proof fn lemma_unpack_merge(a: Seq<u64>, b: Seq<u64>, count: nat, width: nat)
    requires
        width < 8,
        a.len() == b.len(),
        count * width <= 64 * a.len(),
    ensures
        forall|i: int|
            0 <= i < count ==> #[trigger] unpack(merge(a, b), count, width)[i] == unpack(
                a,
                count,
                width,
            )[i] | unpack(b, count, width)[i],
{
    assert forall|i: int| 0 <= i < count implies #[trigger] unpack(merge(a, b), count, width)[i]
        == unpack(a, count, width)[i] | unpack(b, count, width)[i] by {
        lemma_bucket_range(i, count as int, width as int);
        lemma_field_merge(a, b, i * width, width as int);
        lemma_fits(0, width as u64);
        lemma_field_bound(a, i * width, width as int);
        lemma_field_bound(b, i * width, width as int);
        lemma_or_bytes(
            field(a, i * width, width as int) as u64,
            field(b, i * width, width as int) as u64,
        );
    }
}

} // verus!
