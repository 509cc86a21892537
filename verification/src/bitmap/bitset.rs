//! Bitmap containers: one bit for each of the 65536 values.

use vstd::prelude::*;

use crate::bitmap::bits::{
    byte_bit, count_ones, high_mask, lemma_bit_and, lemma_highest_bit, lemma_lowest_bit,
    lemma_word_covers, lemma_word_full, lemma_word_subset, lemma_word_zero, lemma_words_meet,
    low_mask, range_mask, word_bit, word_set,
};
use crate::bitmap::bytes::{le64, lemma_le64_bit, read_u64_at};
use crate::bitmap::count::{
    count, lemma_count_bound, lemma_count_none, lemma_count_shift, lemma_count_split,
};

verus! {

/// The number of 64-bit words in a bitmap payload.
pub const BITMAP_LENGTH: usize = 1024;

/// The number of bytes in a bitmap payload.
pub const BITMAP_BYTES: usize = 8192;

/// The values of a bitmap payload: `i` is one when bit `i % 8` of byte `i / 8` is set.
pub open spec fn bitmap_set(p: Seq<u8>) -> Set<int> {
    Set::new(|i: int| 0 <= i < 0x1_0000 && byte_bit(p[i / 8], i % 8))
}

/// Word `w` of a bitmap payload.
pub open spec fn word_at(p: Seq<u8>, w: int) -> u64 {
    le64(p, 8 * w)
}

/// The values of a bitmap payload, read by words.
pub(crate) proof fn lemma_bitmap_word(p: Seq<u8>, w: int, k: int)
    requires
        0 <= w < BITMAP_LENGTH,
        0 <= k < 64,
    ensures
        bitmap_set(p).contains(64 * w + k) <==> word_bit(word_at(p, w), k),
{
    lemma_le64_bit(p, 8 * w, k);
    assert((64 * w + k) / 8 == 8 * w + k / 8);
    assert((64 * w + k) % 8 == k % 8);
}

/// The bits `a..=b` of a word of the payload are the values at those places.
pub(crate) proof fn lemma_masked_count(p: Seq<u8>, s: Set<int>, w: int, m: u64, a: int, b: int)
    requires
        0 <= w < BITMAP_LENGTH,
        0 <= a <= b + 1 <= 64,
        forall|k: int|
            0 <= k < 64 ==> (#[trigger] word_bit(m, k) <==> a <= k <= b && s.contains(64 * w + k)),
    ensures
        count(word_set(m), 0, 64) == count(s, 64 * w + a, 64 * w + b + 1),
{
    let ws = word_set(m);
    lemma_count_split(ws, 0, a, 64);
    lemma_count_split(ws, a, b + 1, 64);
    lemma_count_none(ws, 0, a);
    lemma_count_none(ws, b + 1, 64);
    assert forall|i: int| a <= i < b + 1 implies (#[trigger] ws.contains(i) <==> s.contains(
        i + 64 * w,
    )) by {
        assert(word_bit(m, i) <==> a <= i <= b && s.contains(64 * w + i));
    }
    lemma_count_shift(ws, s, a, b + 1, 64 * w);
}

/// Reads word `w` of a bitmap payload.
pub(crate) fn bitmap_word(payload: &[u8], w: usize) -> (word: u64)
    requires
        payload@.len() >= BITMAP_BYTES,
        w < BITMAP_LENGTH,
    ensures
        word == word_at(payload@, w as int),
        forall|k: int|
            0 <= k < 64 ==> (#[trigger] word_bit(word, k) <==> bitmap_set(payload@).contains(
                64 * w + k,
            )),
{
    let word: u64 = read_u64_at(payload, w * 8);
    proof {
        assert forall|k: int| 0 <= k < 64 implies (#[trigger] word_bit(word, k) <==> bitmap_set(
            payload@,
        ).contains(64 * w + k)) by {
            lemma_bitmap_word(payload@, w as int, k);
        }
    }
    word
}

pub(crate) fn bitmap_contains(payload: &[u8], index: u16) -> (found: bool)
    requires
        payload@.len() >= BITMAP_BYTES,
    ensures
        found == bitmap_set(payload@).contains(index as int),
{
    let word_index: usize = (index / 64) as usize;
    let bit: u64 = (index % 64) as u64;
    let word: u64 = bitmap_word(payload, word_index);
    assert(word_bit(word, bit as int) <==> bitmap_set(payload@).contains(index as int));
    assert(word & (1u64 << bit) != 0 <==> (word >> bit) & 1u64 == 1u64) by (bit_vector)
        requires
            bit < 64,
    ;
    word & (1u64 << bit) != 0
}

pub(crate) fn bitmap_min(payload: &[u8]) -> (least: u16)
    requires
        payload@.len() >= BITMAP_BYTES,
        exists|i: int| bitmap_set(payload@).contains(i),
    ensures
        bitmap_set(payload@).contains(least as int),
        forall|i: int| bitmap_set(payload@).contains(i) ==> least <= i,
{
    let ghost s = bitmap_set(payload@);
    let mut index: usize = 0;
    while index < BITMAP_LENGTH
        invariant
            payload@.len() >= BITMAP_BYTES,
            s == bitmap_set(payload@),
            index <= BITMAP_LENGTH,
            forall|i: int| s.contains(i) ==> 64 * index <= i,
        decreases BITMAP_LENGTH - index,
    {
        let word: u64 = bitmap_word(payload, index);
        proof {
            assert forall|i: int| s.contains(i) && i < 64 * index + 64 implies word_bit(
                word,
                i - 64 * index,
            ) by {}
        }
        if word != 0 {
            proof {
                lemma_lowest_bit(word);
            }
            let bit: u32 = word.trailing_zeros();
            proof {
                assert(word_bit(word, bit as int));
                assert forall|i: int| s.contains(i) implies 64 * index + bit <= i by {
                    if i < 64 * index + 64 {
                        assert(word_bit(word, i - 64 * index));
                    }
                }
            }
            return index as u16 * 64 + bit as u16;
        }
        proof {
            lemma_word_zero(word);
        }
        index = index + 1;
    }
    proof {
        let i = choose|i: int| s.contains(i);
        assert(s.contains(i) && 64 * index <= i);
        assert(false);
    }
    0
}

pub(crate) fn bitmap_max(payload: &[u8]) -> (greatest: u16)
    requires
        payload@.len() >= BITMAP_BYTES,
        exists|i: int| bitmap_set(payload@).contains(i),
    ensures
        bitmap_set(payload@).contains(greatest as int),
        forall|i: int| bitmap_set(payload@).contains(i) ==> i <= greatest,
{
    let ghost s = bitmap_set(payload@);
    let mut after: usize = BITMAP_LENGTH;
    while after > 0
        invariant
            payload@.len() >= BITMAP_BYTES,
            s == bitmap_set(payload@),
            after <= BITMAP_LENGTH,
            forall|i: int| s.contains(i) ==> i < 64 * after,
        decreases after,
    {
        let index: usize = after - 1;
        let word: u64 = bitmap_word(payload, index);
        proof {
            assert forall|i: int| s.contains(i) && 64 * index <= i implies word_bit(
                word,
                i - 64 * index,
            ) by {}
        }
        if word != 0 {
            proof {
                lemma_highest_bit(word);
            }
            let bit: u32 = 63 - word.leading_zeros();
            proof {
                assert(word_bit(word, bit as int));
                assert forall|i: int| s.contains(i) implies i <= 64 * index + bit by {
                    if 64 * index <= i {
                        assert(word_bit(word, i - 64 * index));
                    }
                }
            }
            return index as u16 * 64 + bit as u16;
        }
        proof {
            lemma_word_zero(word);
        }
        after = index;
    }
    proof {
        let i = choose|i: int| s.contains(i);
        assert(s.contains(i) && i < 0);
        assert(false);
    }
    0
}

/// Counts the values in the words `from..to`.
pub(crate) fn bitmap_count_words(payload: &[u8], from: usize, to: usize) -> (total: u64)
    requires
        payload@.len() >= BITMAP_BYTES,
        from <= to <= BITMAP_LENGTH,
    ensures
        total == count(bitmap_set(payload@), 64 * from as int, 64 * to as int),
{
    let ghost s = bitmap_set(payload@);
    let mut index: usize = from;
    let mut total: u64 = 0;
    while index < to
        invariant
            payload@.len() >= BITMAP_BYTES,
            from <= index <= to <= BITMAP_LENGTH,
            s == bitmap_set(payload@),
            total == count(s, 64 * from as int, 64 * index as int),
            total <= 64 * index,
        decreases to - index,
    {
        let word: u64 = bitmap_word(payload, index);
        proof {
            lemma_masked_count(payload@, s, index as int, word, 0, 63);
            lemma_count_split(s, 64 * from as int, 64 * index as int, 64 * index + 64);
        }
        total = total + count_ones(word) as u64;
        index = index + 1;
    }
    total
}

pub(crate) fn bitmap_rank(payload: &[u8], index: u16) -> (rank: u64)
    requires
        payload@.len() >= BITMAP_BYTES,
    ensures
        rank == count(bitmap_set(payload@), 0, index + 1),
{
    let word_index: usize = (index / 64) as usize;
    let bit: u16 = index % 64;
    let full_words: u64 = bitmap_count_words(payload, 0, word_index);
    let mask: u64 = low_mask(bit);
    let word: u64 = bitmap_word(payload, word_index);
    proof {
        let s = bitmap_set(payload@);
        assert forall|k: int| 0 <= k < 64 implies (#[trigger] word_bit(word & mask, k) <==> 0 <= k
            <= bit && s.contains(64 * word_index + k)) by {
            lemma_bit_and(word, mask, k);
        }
        lemma_masked_count(payload@, s, word_index as int, word & mask, 0, bit as int);
        lemma_count_split(s, 0, 64 * word_index as int, index + 1);
        lemma_count_bound(s, 0, 64 * word_index as int);
    }
    full_words + count_ones(word & mask) as u64
}

pub(crate) fn bitmap_intersection_len_bitmap(left: &[u8], right: &[u8]) -> (total: u64)
    requires
        left@.len() >= BITMAP_BYTES,
        right@.len() >= BITMAP_BYTES,
    ensures
        total == count(bitmap_set(left@).intersect(bitmap_set(right@)), 0, 0x1_0000),
{
    let ghost both = bitmap_set(left@).intersect(bitmap_set(right@));
    let mut index: usize = 0;
    let mut total: u64 = 0;
    while index < BITMAP_LENGTH
        invariant
            left@.len() >= BITMAP_BYTES,
            right@.len() >= BITMAP_BYTES,
            index <= BITMAP_LENGTH,
            both == bitmap_set(left@).intersect(bitmap_set(right@)),
            total == count(both, 0, 64 * index as int),
            total <= 64 * index,
        decreases BITMAP_LENGTH - index,
    {
        let l: u64 = bitmap_word(left, index);
        let r: u64 = bitmap_word(right, index);
        proof {
            assert forall|k: int| 0 <= k < 64 implies (#[trigger] word_bit(l & r, k) <==> 0 <= k
                <= 63 && both.contains(64 * index + k)) by {
                lemma_bit_and(l, r, k);
                assert(word_bit(l, k) <==> bitmap_set(left@).contains(64 * index + k));
                assert(word_bit(r, k) <==> bitmap_set(right@).contains(64 * index + k));
            }
            lemma_masked_count(left@, both, index as int, l & r, 0, 63);
            lemma_count_split(both, 0, 64 * index as int, 64 * index + 64);
        }
        total = total + count_ones(l & r) as u64;
        index = index + 1;
    }
    total
}

/// Counts the values in `start..=end`.
pub(crate) fn bitmap_intersection_len_range(payload: &[u8], start: u16, end: u16) -> (total: u64)
    requires
        payload@.len() >= BITMAP_BYTES,
        start <= end,
    ensures
        total == count(bitmap_set(payload@), start as int, end + 1),
{
    let start_word: usize = (start / 64) as usize;
    let end_word: usize = (end / 64) as usize;
    let start_bit: u16 = start % 64;
    let end_bit: u16 = end % 64;
    let ghost s = bitmap_set(payload@);

    if start_word == end_word {
        let mask: u64 = range_mask(start_bit, end_bit);
        let word: u64 = bitmap_word(payload, start_word);
        proof {
            assert forall|k: int| 0 <= k < 64 implies (#[trigger] word_bit(word & mask, k)
                <==> start_bit <= k <= end_bit && s.contains(64 * start_word + k)) by {
                lemma_bit_and(word, mask, k);
            }
            lemma_masked_count(
                payload@,
                s,
                start_word as int,
                word & mask,
                start_bit as int,
                end_bit as int,
            );
        }
        return count_ones(word & mask) as u64;
    }
    let first_mask: u64 = high_mask(start_bit);
    let last_mask: u64 = low_mask(end_bit);
    let first: u64 = bitmap_word(payload, start_word);
    let last: u64 = bitmap_word(payload, end_word);
    proof {
        assert forall|k: int| 0 <= k < 64 implies (#[trigger] word_bit(first & first_mask, k)
            <==> start_bit <= k <= 63 && s.contains(64 * start_word + k)) by {
            lemma_bit_and(first, first_mask, k);
        }
        lemma_masked_count(payload@, s, start_word as int, first & first_mask, start_bit as int, 63);
        assert forall|k: int| 0 <= k < 64 implies (#[trigger] word_bit(last & last_mask, k) <==> 0
            <= k <= end_bit && s.contains(64 * end_word + k)) by {
            lemma_bit_and(last, last_mask, k);
        }
        lemma_masked_count(payload@, s, end_word as int, last & last_mask, 0, end_bit as int);
        lemma_count_split(s, start as int, 64 * start_word + 64, end + 1);
        lemma_count_split(s, 64 * start_word + 64, 64 * end_word as int, end + 1);
        lemma_count_bound(s, 64 * start_word + 64, 64 * end_word as int);
    }
    let middle: u64 = bitmap_count_words(payload, start_word + 1, end_word);
    count_ones(first & first_mask) as u64 + middle + count_ones(last & last_mask) as u64
}

pub(crate) fn bitmap_is_subset_of_bitmap(left: &[u8], right: &[u8]) -> (subset: bool)
    requires
        left@.len() >= BITMAP_BYTES,
        right@.len() >= BITMAP_BYTES,
    ensures
        subset == bitmap_set(left@).subset_of(bitmap_set(right@)),
{
    let ghost ls = bitmap_set(left@);
    let ghost rs = bitmap_set(right@);
    let mut index: usize = 0;
    while index < BITMAP_LENGTH
        invariant
            left@.len() >= BITMAP_BYTES,
            right@.len() >= BITMAP_BYTES,
            index <= BITMAP_LENGTH,
            ls == bitmap_set(left@),
            rs == bitmap_set(right@),
            forall|i: int| i < 64 * index && ls.contains(i) ==> rs.contains(i),
        decreases BITMAP_LENGTH - index,
    {
        let l: u64 = bitmap_word(left, index);
        let r: u64 = bitmap_word(right, index);
        proof {
            lemma_word_subset(l, r);
        }
        if l & !r != 0 {
            proof {
                let k = choose|k: int| 0 <= k < 64 && #[trigger] word_bit(l, k) && !word_bit(r, k);
                assert(ls.contains(64 * index + k) && !rs.contains(64 * index + k));
            }
            return false;
        }
        proof {
            assert forall|i: int| i < 64 * index + 64 && ls.contains(i) implies rs.contains(i) by {
                if 64 * index <= i {
                    let k = i - 64 * index;
                    assert(word_bit(l, k) <==> ls.contains(64 * index + k));
                    assert(word_bit(r, k) <==> rs.contains(64 * index + k));
                }
            }
        }
        index = index + 1;
    }
    true
}

pub(crate) fn bitmap_intersects_bitmap(left: &[u8], right: &[u8]) -> (meet: bool)
    requires
        left@.len() >= BITMAP_BYTES,
        right@.len() >= BITMAP_BYTES,
    ensures
        meet == !bitmap_set(left@).disjoint(bitmap_set(right@)),
{
    let ghost ls = bitmap_set(left@);
    let ghost rs = bitmap_set(right@);
    let mut index: usize = 0;
    while index < BITMAP_LENGTH
        invariant
            left@.len() >= BITMAP_BYTES,
            right@.len() >= BITMAP_BYTES,
            index <= BITMAP_LENGTH,
            ls == bitmap_set(left@),
            rs == bitmap_set(right@),
            forall|i: int| i < 64 * index && ls.contains(i) ==> !rs.contains(i),
        decreases BITMAP_LENGTH - index,
    {
        let l: u64 = bitmap_word(left, index);
        let r: u64 = bitmap_word(right, index);
        proof {
            lemma_words_meet(l, r);
        }
        if l & r != 0 {
            proof {
                let k = choose|k: int| 0 <= k < 64 && #[trigger] word_bit(l, k) && word_bit(r, k);
                assert(ls.contains(64 * index + k) && rs.contains(64 * index + k));
            }
            return true;
        }
        proof {
            assert forall|i: int| i < 64 * index + 64 && ls.contains(i) implies !rs.contains(i) by {
                if 64 * index <= i {
                    let k = i - 64 * index;
                    assert(word_bit(l, k) <==> ls.contains(64 * index + k));
                    assert(word_bit(r, k) <==> rs.contains(64 * index + k));
                }
            }
        }
        index = index + 1;
    }
    false
}

/// Every one of `start..=end` is a value.
pub(crate) fn bitmap_contains_range(payload: &[u8], start: u16, end: u16) -> (all: bool)
    requires
        payload@.len() >= BITMAP_BYTES,
        start <= end,
    ensures
        all == (forall|i: int| start <= i <= end ==> bitmap_set(payload@).contains(i)),
{
    let start_word: usize = (start / 64) as usize;
    let end_word: usize = (end / 64) as usize;
    let start_bit: u16 = start % 64;
    let end_bit: u16 = end % 64;
    let ghost s = bitmap_set(payload@);

    if start_word == end_word {
        let mask: u64 = range_mask(start_bit, end_bit);
        let word: u64 = bitmap_word(payload, start_word);
        proof {
            lemma_mask_covers(s, start_word as int, word, mask, start_bit as int, end_bit as int);
        }
        return word & mask == mask;
    }
    let first_mask: u64 = high_mask(start_bit);
    let first: u64 = bitmap_word(payload, start_word);
    proof {
        lemma_mask_covers(s, start_word as int, first, first_mask, start_bit as int, 63);
    }
    if first & first_mask != first_mask {
        return false;
    }
    let mut index: usize = start_word + 1;
    while index < end_word
        invariant
            payload@.len() >= BITMAP_BYTES,
            s == bitmap_set(payload@),
            start_word == start / 64,
            end_word == end / 64,
            start_word < index <= end_word < BITMAP_LENGTH,
            forall|i: int| start <= i < 64 * index ==> s.contains(i),
        decreases end_word - index,
    {
        let word: u64 = bitmap_word(payload, index);
        proof {
            lemma_word_full(word);
        }
        if word != u64::MAX {
            proof {
                let k = choose|k: int| 0 <= k < 64 && !word_bit(word, k);
                assert(!s.contains(64 * index + k));
            }
            return false;
        }
        proof {
            assert forall|i: int| start <= i < 64 * index + 64 implies s.contains(i) by {
                if 64 * index <= i {
                    assert(word_bit(word, i - 64 * index));
                }
            }
        }
        index = index + 1;
    }
    let last_mask: u64 = low_mask(end_bit);
    let last: u64 = bitmap_word(payload, end_word);
    proof {
        lemma_mask_covers(s, end_word as int, last, last_mask, 0, end_bit as int);
    }
    last & last_mask == last_mask
}

/// A word has the bits `a..=b` exactly when the set has the values at those places.
proof fn lemma_mask_covers(s: Set<int>, w: int, word: u64, mask: u64, a: int, b: int)
    requires
        0 <= a <= b < 64,
        forall|k: int| 0 <= k < 64 ==> (#[trigger] word_bit(word, k) <==> s.contains(64 * w + k)),
        forall|k: int| 0 <= k < 64 ==> (#[trigger] word_bit(mask, k) <==> a <= k <= b),
    ensures
        word & mask == mask <==> forall|i: int| 64 * w + a <= i <= 64 * w + b ==> s.contains(i),
{
    lemma_word_covers(word, mask);
    if word & mask == mask {
        assert forall|i: int| 64 * w + a <= i <= 64 * w + b implies s.contains(i) by {
            let k = i - 64 * w;
            assert(word_bit(mask, k));
            assert(word_bit(word, k));
        }
    } else {
        let k = choose|k: int| 0 <= k < 64 && #[trigger] word_bit(mask, k) && !word_bit(word, k);
        assert(!s.contains(64 * w + k));
    }
}

/// A word has one of the bits `a..=b` exactly when the set has a value at those places.
proof fn lemma_mask_meets(s: Set<int>, w: int, word: u64, mask: u64, a: int, b: int)
    requires
        0 <= a <= b < 64,
        forall|k: int| 0 <= k < 64 ==> (#[trigger] word_bit(word, k) <==> s.contains(64 * w + k)),
        forall|k: int| 0 <= k < 64 ==> (#[trigger] word_bit(mask, k) <==> a <= k <= b),
    ensures
        word & mask != 0 <==> exists|i: int| 64 * w + a <= i <= 64 * w + b && s.contains(i),
{
    lemma_words_meet(word, mask);
    if word & mask != 0 {
        let k = choose|k: int| 0 <= k < 64 && #[trigger] word_bit(word, k) && word_bit(mask, k);
        assert(s.contains(64 * w + k));
    } else {
        assert forall|i: int| 64 * w + a <= i <= 64 * w + b implies !s.contains(i) by {
            let k = i - 64 * w;
            assert(word_bit(mask, k));
            assert(!word_bit(word, k));
        }
    }
}

/// One of `start..=end` is a value.
pub(crate) fn bitmap_intersects_range(payload: &[u8], start: u16, end: u16) -> (any: bool)
    requires
        payload@.len() >= BITMAP_BYTES,
        start <= end,
    ensures
        any == (exists|i: int| start <= i <= end && bitmap_set(payload@).contains(i)),
{
    let start_word: usize = (start / 64) as usize;
    let end_word: usize = (end / 64) as usize;
    let start_bit: u16 = start % 64;
    let end_bit: u16 = end % 64;
    let ghost s = bitmap_set(payload@);

    if start_word == end_word {
        let mask: u64 = range_mask(start_bit, end_bit);
        let word: u64 = bitmap_word(payload, start_word);
        proof {
            lemma_mask_meets(s, start_word as int, word, mask, start_bit as int, end_bit as int);
        }
        return word & mask != 0;
    }
    let first_mask: u64 = high_mask(start_bit);
    let first: u64 = bitmap_word(payload, start_word);
    proof {
        lemma_mask_meets(s, start_word as int, first, first_mask, start_bit as int, 63);
    }
    if first & first_mask != 0 {
        return true;
    }
    let mut index: usize = start_word + 1;
    while index < end_word
        invariant
            payload@.len() >= BITMAP_BYTES,
            s == bitmap_set(payload@),
            start_word == start / 64,
            end_word == end / 64,
            start_word < index <= end_word < BITMAP_LENGTH,
            forall|i: int| start <= i < 64 * index ==> !s.contains(i),
        decreases end_word - index,
    {
        let word: u64 = bitmap_word(payload, index);
        proof {
            lemma_word_zero(word);
        }
        if word != 0 {
            proof {
                let k = choose|k: int| 0 <= k < 64 && word_bit(word, k);
                assert(s.contains(64 * index + k));
            }
            return true;
        }
        proof {
            assert forall|i: int| start <= i < 64 * index + 64 implies !s.contains(i) by {
                if 64 * index <= i {
                    assert(!word_bit(word, i - 64 * index));
                }
            }
        }
        index = index + 1;
    }
    let last_mask: u64 = low_mask(end_bit);
    let last: u64 = bitmap_word(payload, end_word);
    proof {
        lemma_mask_meets(s, end_word as int, last, last_mask, 0, end_bit as int);
    }
    last & last_mask != 0
}

} // verus!
