//! Bits of bytes and of 64-bit words.

use vstd::prelude::*;

use crate::bitmap::count::{count, lemma_count_none, lemma_count_remove};

verus! {

/// Bit `k` of a byte, counted from the least significant.
pub open spec fn byte_bit(b: u8, k: int) -> bool {
    (b >> (k as u8)) & 1u8 == 1u8
}

/// Bit `k` of a word, counted from the least significant.
pub open spec fn word_bit(w: u64, k: int) -> bool {
    (w >> (k as u64)) & 1u64 == 1u64
}

/// The positions of the bits that are set in a word.
pub open spec fn word_set(w: u64) -> Set<int> {
    Set::new(|k: int| 0 <= k < 64 && word_bit(w, k))
}

/// A word is zero exactly when it has no bit set.
pub(crate) proof fn lemma_word_zero(w: u64)
    ensures
        w == 0 <==> forall|k: int| 0 <= k < 64 ==> !word_bit(w, k),
{
    vstd::std_specs::bits::axiom_u64_trailing_zeros(w);
    if w == 0 {
        assert forall|k: int| 0 <= k < 64 implies !word_bit(w, k) by {
            let j = k as u64;
            assert((0u64 >> j) & 1u64 == 0u64) by (bit_vector);
        }
    } else {
        let k = vstd::std_specs::bits::u64_trailing_zeros(w) as int;
        assert(word_bit(w, k));
    }
}

/// The lowest bit set in a word.
pub(crate) proof fn lemma_lowest_bit(w: u64)
    requires
        w != 0,
    ensures
        ({
            let t = vstd::std_specs::bits::u64_trailing_zeros(w) as int;
            &&& 0 <= t < 64
            &&& word_bit(w, t)
            &&& forall|k: int| 0 <= k < t ==> !word_bit(w, k)
        }),
{
    vstd::std_specs::bits::axiom_u64_trailing_zeros(w);
    let t = vstd::std_specs::bits::u64_trailing_zeros(w) as int;
    assert forall|k: int| 0 <= k < t implies !word_bit(w, k) by {
        let j = k as u64;
        assert((w >> j) & 1u64 == 0u64);
    }
}

/// The highest bit set in a word.
pub(crate) proof fn lemma_highest_bit(w: u64)
    requires
        w != 0,
    ensures
        ({
            let t = 63 - vstd::std_specs::bits::u64_leading_zeros(w);
            &&& 0 <= t < 64
            &&& word_bit(w, t)
            &&& forall|k: int| t < k < 64 ==> !word_bit(w, k)
        }),
{
    vstd::std_specs::bits::axiom_u64_leading_zeros(w);
    let t = 63 - vstd::std_specs::bits::u64_leading_zeros(w);
    let tt = t as u64;
    assert((w >> tt) & 1u64 != 0u64 ==> (w >> tt) & 1u64 == 1u64) by (bit_vector);
    assert forall|k: int| t < k < 64 implies !word_bit(w, k) by {
        let j = k as u64;
        assert((w >> j) & 1u64 == 0u64);
    }
}

/// `w & (w - 1)` clears the lowest bit set and no other.
pub(crate) proof fn lemma_clear_lowest_bit(w: u64)
    requires
        w != 0,
    ensures
        word_set(w & ((w - 1) as u64)) =~= word_set(w).remove(
            vstd::std_specs::bits::u64_trailing_zeros(w) as int,
        ),
        (w & ((w - 1) as u64)) < w,
{
    vstd::std_specs::bits::axiom_u64_trailing_zeros(w);
    let t = vstd::std_specs::bits::u64_trailing_zeros(w) as u64;
    let v = w & ((w - 1) as u64);
    assert(v < w) by (bit_vector)
        requires
            w != 0,
            v == w & ((w - 1) as u64),
    ;
    assert forall|k: int| 0 <= k < 64 implies (word_bit(v, k) <==> word_bit(w, k) && k != t) by {
        let j = k as u64;
        lemma_clear_lowest_bit_at(w, v, t, j);
    }
}

proof fn lemma_clear_lowest_bit_at(w: u64, v: u64, t: u64, j: u64)
    by (bit_vector)
    requires
        w != 0,
        t < 64,
        j < 64,
        (w >> t) & 1u64 == 1u64,
        w << ((64 - t) as u64) == 0,
        v == w & ((w - 1) as u64),
    ensures
        ((v >> j) & 1u64 == 1u64) <==> ((w >> j) & 1u64 == 1u64 && j != t),
{
}

/// `&` keeps the bits that both words have.
pub(crate) proof fn lemma_bit_and(a: u64, b: u64, k: int)
    requires
        0 <= k < 64,
    ensures
        word_bit(a & b, k) <==> word_bit(a, k) && word_bit(b, k),
{
    let j = k as u64;
    assert(((a & b) >> j) & 1u64 == 1u64 <==> (a >> j) & 1u64 == 1u64 && (b >> j) & 1u64 == 1u64)
        by (bit_vector);
}

/// `& !` keeps the bits that only the first word has.
pub(crate) proof fn lemma_bit_and_not(a: u64, b: u64, k: int)
    requires
        0 <= k < 64,
    ensures
        word_bit(a & !b, k) <==> word_bit(a, k) && !word_bit(b, k),
{
    let j = k as u64;
    assert(j < 64 ==> (((a & !b) >> j) & 1u64 == 1u64 <==> (a >> j) & 1u64 == 1u64 && (b >> j)
        & 1u64 != 1u64)) by (bit_vector);
}

/// Two words have a bit in common exactly when `&` is not zero.
pub(crate) proof fn lemma_words_meet(a: u64, b: u64)
    ensures
        a & b != 0 <==> exists|k: int|
            0 <= k < 64 && #[trigger] word_bit(a, k) && word_bit(b, k),
{
    lemma_word_zero(a & b);
    if a & b != 0 {
        let k = choose|k: int| 0 <= k < 64 && word_bit(a & b, k);
        lemma_bit_and(a, b, k);
        assert(word_bit(a, k) && word_bit(b, k));
    } else {
        assert forall|k: int| 0 <= k < 64 implies !(#[trigger] word_bit(a, k) && word_bit(
            b,
            k,
        )) by {
            lemma_bit_and(a, b, k);
        }
    }
}

/// Every bit of the first word is one of the second exactly when `& !` is zero.
pub(crate) proof fn lemma_word_subset(a: u64, b: u64)
    ensures
        a & !b == 0 <==> forall|k: int|
            0 <= k < 64 && #[trigger] word_bit(a, k) ==> word_bit(b, k),
{
    lemma_word_zero(a & !b);
    if a & !b != 0 {
        let k = choose|k: int| 0 <= k < 64 && word_bit(a & !b, k);
        lemma_bit_and_not(a, b, k);
    } else {
        assert forall|k: int| 0 <= k < 64 && #[trigger] word_bit(a, k) implies word_bit(b, k) by {
            lemma_bit_and_not(a, b, k);
        }
    }
}

/// A word has every bit of a mask exactly when `&` gives the mask back.
pub(crate) proof fn lemma_word_covers(w: u64, mask: u64)
    ensures
        w & mask == mask <==> forall|k: int|
            0 <= k < 64 && #[trigger] word_bit(mask, k) ==> word_bit(w, k),
{
    lemma_word_subset(mask, w);
    assert(w & mask == mask <==> mask & !w == 0) by (bit_vector);
}

/// The full word has every bit set, and it is the only one.
pub(crate) proof fn lemma_word_full(w: u64)
    ensures
        w == u64::MAX <==> forall|k: int| 0 <= k < 64 ==> word_bit(w, k),
{
    lemma_word_zero(!w);
    assert(w == 0xffff_ffff_ffff_ffffu64 <==> !w == 0) by (bit_vector);
    assert forall|k: int|
        #![trigger word_bit(!w, k)]
        #![trigger word_bit(w, k)]
        0 <= k < 64 implies (word_bit(!w, k) <==> !word_bit(w, k)) by {
        let j = k as u64;
        assert(j < 64 ==> (((!w) >> j) & 1u64 == 1u64 <==> (w >> j) & 1u64 != 1u64)) by (bit_vector);
    }
}

/// The word with the bits `0..=bit` set.
pub(crate) fn low_mask(bit: u16) -> (mask: u64)
    requires
        bit < 64,
    ensures
        forall|k: int| 0 <= k < 64 ==> (word_bit(mask, k) <==> k <= bit),
{
    let b: u64 = bit as u64;
    if bit == 63 {
        proof {
            lemma_word_full(u64::MAX);
        }
        u64::MAX
    } else {
        assert((1u64 << ((b + 1) as u64)) >= 1u64) by (bit_vector)
            requires
                b < 63,
        ;
        let mask: u64 = (1u64 << (b + 1)) - 1;
        proof {
            assert forall|k: int| 0 <= k < 64 implies (word_bit(mask, k) <==> k <= bit) by {
                let j = k as u64;
                assert((mask >> j) & 1u64 == 1u64 <==> j <= b) by (bit_vector)
                    requires
                        b < 63,
                        j < 64,
                        mask == ((1u64 << ((b + 1) as u64)) - 1) as u64,
                ;
            }
        }
        mask
    }
}

/// The word with the bits `bit..64` set.
pub(crate) fn high_mask(bit: u16) -> (mask: u64)
    requires
        bit < 64,
    ensures
        forall|k: int| 0 <= k < 64 ==> (word_bit(mask, k) <==> bit <= k),
{
    let b: u64 = bit as u64;
    let mask: u64 = 0xffff_ffff_ffff_ffffu64 << b;
    proof {
        assert forall|k: int| 0 <= k < 64 implies (word_bit(mask, k) <==> bit <= k) by {
            let j = k as u64;
            assert((mask >> j) & 1u64 == 1u64 <==> b <= j) by (bit_vector)
                requires
                    b < 64,
                    j < 64,
                    mask == 0xffff_ffff_ffff_ffffu64 << b,
            ;
        }
    }
    mask
}

/// The word with the bits `start_bit..=end_bit` set.
pub(crate) fn range_mask(start_bit: u16, end_bit: u16) -> (mask: u64)
    requires
        start_bit < 64,
        end_bit < 64,
    ensures
        forall|k: int| 0 <= k < 64 ==> (word_bit(mask, k) <==> start_bit <= k <= end_bit),
{
    let start_mask: u64 = high_mask(start_bit);
    let end_mask: u64 = low_mask(end_bit);
    proof {
        assert forall|k: int| 0 <= k < 64 implies (word_bit(start_mask & end_mask, k) <==> start_bit
            <= k <= end_bit) by {
            lemma_bit_and(start_mask, end_mask, k);
        }
    }
    start_mask & end_mask
}

/// The number of bits set in `word`.
pub(crate) fn count_ones(word: u64) -> (ones: u32)
    ensures
        ones == count(word_set(word), 0, 64),
        ones <= 64,
{
    let mut rest: u64 = word;
    let mut ones: u32 = 0;
    proof {
        crate::bitmap::count::lemma_count_bound(word_set(word), 0, 64);
    }
    while rest != 0
        invariant
            ones + count(word_set(rest), 0, 64) == count(word_set(word), 0, 64),
            count(word_set(word), 0, 64) <= 64,
        decreases rest,
    {
        proof {
            lemma_lowest_bit(rest);
            lemma_clear_lowest_bit(rest);
            lemma_count_remove(
                word_set(rest),
                0,
                64,
                vstd::std_specs::bits::u64_trailing_zeros(rest) as int,
            );
        }
        rest = rest & (rest - 1);
        ones = ones + 1;
    }
    proof {
        lemma_word_zero(rest);
        lemma_count_none(word_set(rest), 0, 64);
    }
    ones
}

} // verus!
