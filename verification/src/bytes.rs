//! The storage as bytes: every 64-bit word lowest byte first, one word
//! after the other.

use vstd::prelude::*;

verus! {

/// Bytes in one storage word.
pub const BYTES_PER_WORD: usize = 8;

/// Byte `k` of a word, lowest first.
pub open spec fn word_byte(w: u64, k: u64) -> u8 {
    ((w >> ((8 * k) as u64)) & 0xff) as u8
}

/// The word whose bytes, lowest first, are `b0` to `b7`.
pub open spec fn word_of_bytes(
    b0: u8,
    b1: u8,
    b2: u8,
    b3: u8,
    b4: u8,
    b5: u8,
    b6: u8,
    b7: u8,
) -> u64 {
    (b0 as u64) | ((b1 as u64) << 8) | ((b2 as u64) << 16) | ((b3 as u64) << 24) | ((b4 as u64)
        << 32) | ((b5 as u64) << 40) | ((b6 as u64) << 48) | ((b7 as u64) << 56)
}

/// Byte `k` of `bytes`, or zero past their end.
pub open spec fn byte_or_zero(bytes: Seq<u8>, k: int) -> u8 {
    if 0 <= k < bytes.len() {
        bytes[k]
    } else {
        0
    }
}

/// Word `i` of the little-endian reading of `bytes`; bytes past the end
/// read as zero.
pub open spec fn le_word(bytes: Seq<u8>, i: int) -> u64 {
    word_of_bytes(
        byte_or_zero(bytes, 8 * i),
        byte_or_zero(bytes, 8 * i + 1),
        byte_or_zero(bytes, 8 * i + 2),
        byte_or_zero(bytes, 8 * i + 3),
        byte_or_zero(bytes, 8 * i + 4),
        byte_or_zero(bytes, 8 * i + 5),
        byte_or_zero(bytes, 8 * i + 6),
        byte_or_zero(bytes, 8 * i + 7),
    )
}

/// The bytes of every word, lowest byte first, in the order of the words.
pub open spec fn to_le_bytes(words: Seq<u64>) -> Seq<u8> {
    Seq::new(8 * words.len(), |k: int| word_byte(words[k / 8], (k % 8) as u64))
}

/// The first `n` words of the little-endian reading of `bytes`.
pub open spec fn from_le_bytes(bytes: Seq<u8>, n: nat) -> Seq<u64> {
    Seq::new(n, |i: int| le_word(bytes, i))
}

proof fn lemma_word_bytes(w: u64)
    by (bit_vector)
    ensures
        word_of_bytes(
            word_byte(w, 0),
            word_byte(w, 1),
            word_byte(w, 2),
            word_byte(w, 3),
            word_byte(w, 4),
            word_byte(w, 5),
            word_byte(w, 6),
            word_byte(w, 7),
        ) == w,
{
}

proof fn lemma_bytes_word(b0: u8, b1: u8, b2: u8, b3: u8, b4: u8, b5: u8, b6: u8, b7: u8)
    by (bit_vector)
    ensures
        ({
            let w = word_of_bytes(b0, b1, b2, b3, b4, b5, b6, b7);
            &&& word_byte(w, 0) == b0
            &&& word_byte(w, 1) == b1
            &&& word_byte(w, 2) == b2
            &&& word_byte(w, 3) == b3
            &&& word_byte(w, 4) == b4
            &&& word_byte(w, 5) == b5
            &&& word_byte(w, 6) == b6
            &&& word_byte(w, 7) == b7
        }),
{
}

/// Reading back the bytes of words gives the words.
pub proof fn lemma_words_round_trip(words: Seq<u64>)
    ensures
        from_le_bytes(to_le_bytes(words), words.len()) == words,
{
    let bytes = to_le_bytes(words);
    assert forall|i: int| 0 <= i < words.len() implies le_word(bytes, i) == words[i] by {
        lemma_word_bytes(words[i]);
        assert(byte_or_zero(bytes, 8 * i) == word_byte(words[i], 0));
        assert(byte_or_zero(bytes, 8 * i + 1) == word_byte(words[i], 1));
        assert(byte_or_zero(bytes, 8 * i + 2) == word_byte(words[i], 2));
        assert(byte_or_zero(bytes, 8 * i + 3) == word_byte(words[i], 3));
        assert(byte_or_zero(bytes, 8 * i + 4) == word_byte(words[i], 4));
        assert(byte_or_zero(bytes, 8 * i + 5) == word_byte(words[i], 5));
        assert(byte_or_zero(bytes, 8 * i + 6) == word_byte(words[i], 6));
        assert(byte_or_zero(bytes, 8 * i + 7) == word_byte(words[i], 7));
    }
    assert(from_le_bytes(bytes, words.len()) =~= words);
}

/// Writing out the words read from whole words of bytes gives the bytes.
pub proof fn lemma_bytes_round_trip(bytes: Seq<u8>, n: nat)
    requires
        bytes.len() == 8 * n,
    ensures
        to_le_bytes(from_le_bytes(bytes, n)) == bytes,
{
    let words = from_le_bytes(bytes, n);
    assert forall|k: int| 0 <= k < bytes.len() implies to_le_bytes(words)[k] == bytes[k] by {
        let i = k / 8;
        lemma_bytes_word(
            byte_or_zero(bytes, 8 * i),
            byte_or_zero(bytes, 8 * i + 1),
            byte_or_zero(bytes, 8 * i + 2),
            byte_or_zero(bytes, 8 * i + 3),
            byte_or_zero(bytes, 8 * i + 4),
            byte_or_zero(bytes, 8 * i + 5),
            byte_or_zero(bytes, 8 * i + 6),
            byte_or_zero(bytes, 8 * i + 7),
        );
    }
    assert(to_le_bytes(words) =~= bytes);
}

proof fn lemma_byte_of_word(w: u64, k: u64)
    by (bit_vector)
    requires
        k < 8,
    ensures
        (w >> ((8 * k) as u64)) & 0xff <= 0xff,
{
}

proof fn lemma_zero_bytes()
    by (bit_vector)
    ensures
        word_of_bytes(0, 0, 0, 0, 0, 0, 0, 0) == 0,
{
}

/// Word `i` of the little-endian reading of `bytes`; bytes past the end
/// read as zero.
pub fn read_le_word(bytes: &[u8], i: usize) -> (w: u64)
    ensures
        w == le_word(bytes@, i as int),
{
    if i > bytes.len() / BYTES_PER_WORD {
        proof {
            lemma_zero_bytes();
        }
        return 0;
    }
    let base = i * BYTES_PER_WORD;
    let left = bytes.len() - base;
    let b0: u8 = if 0 < left { bytes[base] } else { 0 };
    let b1: u8 = if 1 < left { bytes[base + 1] } else { 0 };
    let b2: u8 = if 2 < left { bytes[base + 2] } else { 0 };
    let b3: u8 = if 3 < left { bytes[base + 3] } else { 0 };
    let b4: u8 = if 4 < left { bytes[base + 4] } else { 0 };
    let b5: u8 = if 5 < left { bytes[base + 5] } else { 0 };
    let b6: u8 = if 6 < left { bytes[base + 6] } else { 0 };
    let b7: u8 = if 7 < left { bytes[base + 7] } else { 0 };
    (b0 as u64) | ((b1 as u64) << 8) | ((b2 as u64) << 16) | ((b3 as u64) << 24) | ((b4 as u64)
        << 32) | ((b5 as u64) << 40) | ((b6 as u64) << 48) | ((b7 as u64) << 56)
}

/// The bytes of every word, lowest byte first, in the order of the words.
pub fn words_to_le_bytes(words: &[u64]) -> (bytes: Vec<u8>)
    ensures
        bytes@ == to_le_bytes(words@),
{
    let mut bytes: Vec<u8> = Vec::new();
    let mut i: usize = 0;
    while i < words.len()
        invariant
            i <= words.len(),
            bytes@ == to_le_bytes(words@.subrange(0, i as int)),
        decreases words.len() - i,
    {
        let w = words[i];
        let ghost before = bytes@;
        let mut k: u32 = 0;
        while k < 8
            invariant
                k <= 8,
                w == words@[i as int],
                bytes@.len() == before.len() + k,
                bytes@.subrange(0, before.len() as int) == before,
                forall|j: int|
                    before.len() <= j < before.len() + k ==> #[trigger] bytes@[j] == word_byte(
                        w,
                        (j - before.len()) as u64,
                    ),
            decreases 8 - k,
        {
            proof {
                lemma_byte_of_word(w, k as u64);
            }
            bytes.push(((w >> (8 * k)) & 0xff) as u8);
            k += 1;
        }
        proof {
            let next = to_le_bytes(words@.subrange(0, i + 1));
            assert forall|j: int| 0 <= j < next.len() implies bytes@[j] == next[j] by {
                if j < before.len() {
                    assert(bytes@[j] == bytes@.subrange(0, before.len() as int)[j]);
                }
            }
            assert(bytes@ =~= next);
        }
        i += 1;
    }
    proof {
        assert(words@.subrange(0, i as int) =~= words@);
    }
    bytes
}

} // verus!
