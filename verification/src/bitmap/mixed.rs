//! Operations on two containers of different kinds.

use vstd::prelude::*;

use crate::bitmap::array::{
    array_at, array_binary_search, array_len, array_set, array_sorted, array_split, array_value,
    lemma_array_done, lemma_array_step,
};
use crate::bitmap::bits::{lemma_clear_lowest_bit, lemma_lowest_bit, word_bit, word_set};
use crate::bitmap::bitset::{
    bitmap_contains, bitmap_contains_range, bitmap_intersection_len_range, bitmap_intersects_range,
    bitmap_set, bitmap_word, BITMAP_BYTES, BITMAP_LENGTH,
};
use crate::bitmap::count::{count, lemma_count_bound};
use crate::bitmap::run::{
    lemma_run_done, lemma_run_member, lemma_run_step, run_bounds, run_contains, run_end,
    run_payload_ok, run_set, run_split, run_start,
};

verus! {

pub(crate) fn array_intersection_len_bitmap(array: &[u8], bitmap: &[u8]) -> (total: u64)
    requires
        array_sorted(array@),
        bitmap@.len() >= BITMAP_BYTES,
    ensures
        total == count(array_set(array@).intersect(bitmap_set(bitmap@)), 0, 0x1_0000),
{
    let len: usize = array.len() / 2;
    let ghost s = bitmap_set(bitmap@);
    let ghost both = array_set(array@).intersect(s);
    let ghost mut bound: int = 0;
    let mut total: u64 = 0;
    let mut index: usize = 0;
    while index < len
        invariant
            array_sorted(array@),
            bitmap@.len() >= BITMAP_BYTES,
            len == array_len(array@),
            s == bitmap_set(bitmap@),
            both == array_set(array@).intersect(s),
            0 <= bound <= 0x1_0000,
            array_split(array@, index as int, bound),
            total == count(both, 0, bound),
            total <= bound,
        decreases len - index,
    {
        let value: u16 = array_value(array, index);
        proof {
            lemma_array_step(array@, index as int, bound, s);
            lemma_count_bound(both, 0, value + 1);
            bound = value + 1;
        }
        if bitmap_contains(bitmap, value) {
            total = total + 1;
        }
        index = index + 1;
    }
    proof {
        lemma_array_done(array@, bound, s);
    }
    total
}

pub(crate) fn array_intersection_len_run(array: &[u8], run: &[u8], runs: u16) -> (total: u64)
    requires
        array_sorted(array@),
        run_payload_ok(run@, runs as int),
    ensures
        total == count(array_set(array@).intersect(run_set(run@, runs as int)), 0, 0x1_0000),
{
    let len: usize = array.len() / 2;
    let ghost s = run_set(run@, runs as int);
    let ghost both = array_set(array@).intersect(s);
    let ghost mut bound: int = 0;
    let mut total: u64 = 0;
    let mut index: usize = 0;
    while index < len
        invariant
            array_sorted(array@),
            run_payload_ok(run@, runs as int),
            len == array_len(array@),
            s == run_set(run@, runs as int),
            both == array_set(array@).intersect(s),
            0 <= bound <= 0x1_0000,
            array_split(array@, index as int, bound),
            total == count(both, 0, bound),
            total <= bound,
        decreases len - index,
    {
        let value: u16 = array_value(array, index);
        proof {
            lemma_array_step(array@, index as int, bound, s);
            lemma_count_bound(both, 0, value + 1);
            bound = value + 1;
        }
        if run_contains(run, runs, value) {
            total = total + 1;
        }
        index = index + 1;
    }
    proof {
        lemma_array_done(array@, bound, s);
    }
    total
}

pub(crate) fn run_intersection_len_bitmap(run: &[u8], runs: u16, bitmap: &[u8]) -> (total: u64)
    requires
        run_payload_ok(run@, runs as int),
        bitmap@.len() >= BITMAP_BYTES,
    ensures
        total == count(run_set(run@, runs as int).intersect(bitmap_set(bitmap@)), 0, 0x1_0000),
{
    let ghost s = bitmap_set(bitmap@);
    let ghost both = run_set(run@, runs as int).intersect(s);
    let ghost mut bound: int = 0;
    let mut total: u64 = 0;
    let mut index: usize = 0;
    while index < runs as usize
        invariant
            run_payload_ok(run@, runs as int),
            bitmap@.len() >= BITMAP_BYTES,
            s == bitmap_set(bitmap@),
            both == run_set(run@, runs as int).intersect(s),
            0 <= bound <= 0x1_0000,
            run_split(run@, runs as int, index as int, bound),
            total == count(both, 0, bound),
            total <= bound,
        decreases runs - index,
    {
        let (start, end) = run_bounds(run, index);
        proof {
            lemma_run_step(run@, runs as int, index as int, bound, s);
            lemma_count_bound(both, 0, end + 1);
            bound = end + 1;
        }
        total = total + bitmap_intersection_len_range(bitmap, start, end);
        index = index + 1;
    }
    proof {
        lemma_run_done(run@, runs as int, bound, s);
    }
    total
}

pub(crate) fn array_is_subset_of_bitmap(array: &[u8], bitmap: &[u8]) -> (subset: bool)
    requires
        bitmap@.len() >= BITMAP_BYTES,
    ensures
        subset == array_set(array@).subset_of(bitmap_set(bitmap@)),
{
    let len: usize = array.len() / 2;
    let mut index: usize = 0;
    while index < len
        invariant
            bitmap@.len() >= BITMAP_BYTES,
            len == array_len(array@),
            forall|j: int|
                0 <= j < index ==> bitmap_set(bitmap@).contains(#[trigger] array_at(array@, j)),
        decreases len - index,
    {
        let value: u16 = array_value(array, index);
        if !bitmap_contains(bitmap, value) {
            assert(array_set(array@).contains(value as int));
            return false;
        }
        index = index + 1;
    }
    true
}

/// A run that ends at or after a value and starts after it shows, when all earlier runs end
/// before the value, that no run holds it.
proof fn lemma_run_misses(p: Seq<u8>, runs: int, r: int, value: int)
    requires
        run_payload_ok(p, runs),
        0 <= r <= runs,
        forall|q: int| 0 <= q < r ==> #[trigger] run_end(p, q) < value,
        r < runs ==> value < run_start(p, r),
    ensures
        !run_set(p, runs).contains(value),
{
    if run_set(p, runs).contains(value) {
        let q = choose|q: int|
            0 <= q < runs && #[trigger] run_start(p, q) <= value && value <= run_end(p, q);
        if q < r {
            assert(run_end(p, q) < value);
        } else if r < q {
            assert(run_end(p, r) + 1 < run_start(p, q));
        }
    }
}

pub(crate) fn array_is_subset_of_run(array: &[u8], run: &[u8], runs: u16) -> (subset: bool)
    requires
        array_sorted(array@),
        run_payload_ok(run@, runs as int),
    ensures
        subset == array_set(array@).subset_of(run_set(run@, runs as int)),
{
    let ghost s = run_set(run@, runs as int);
    let len: usize = array.len() / 2;
    let run_count: usize = runs as usize;
    let mut run_index: usize = 0;
    let mut index: usize = 0;
    while index < len
        invariant
            array_sorted(array@),
            run_payload_ok(run@, runs as int),
            s == run_set(run@, runs as int),
            len == array_len(array@),
            run_count == runs,
            run_index <= run_count,
            forall|j: int| 0 <= j < index ==> s.contains(#[trigger] array_at(array@, j)),
            index < len ==> forall|q: int|
                0 <= q < run_index ==> #[trigger] run_end(run@, q) < array_at(array@, index as int),
        decreases len - index,
    {
        let value: u16 = array_value(array, index);
        assert(array_set(array@).contains(value as int));
        // The runs that end before `value` cannot hold it, nor any later value.
        while run_index < run_count
            invariant_except_break
                run_index <= run_count,
            invariant
                run_payload_ok(run@, runs as int),
                s == run_set(run@, runs as int),
                run_count == runs,
                array_set(array@).contains(value as int),
                forall|q: int| 0 <= q < run_index ==> #[trigger] run_end(run@, q) < value,
            ensures
                run_index <= run_count,
                run_index < run_count ==> run_start(run@, run_index as int) <= value <= run_end(
                    run@,
                    run_index as int,
                ),
            decreases run_count - run_index,
        {
            let (start, end) = run_bounds(run, run_index);
            if value <= end {
                if value < start {
                    proof {
                        lemma_run_misses(run@, runs as int, run_index as int, value as int);
                    }
                    return false;
                }
                break;
            }
            run_index = run_index + 1;
        }
        if run_index == run_count {
            proof {
                lemma_run_misses(run@, runs as int, run_index as int, value as int);
            }
            return false;
        }
        proof {
            lemma_run_member(run@, runs as int, run_index as int);
            if index + 1 < len {
                assert(array_at(array@, index as int) < array_at(array@, index + 1));
            }
        }
        index = index + 1;
    }
    true
}

pub(crate) fn bitmap_is_subset_of_run(bitmap: &[u8], run: &[u8], runs: u16) -> (subset: bool)
    requires
        bitmap@.len() >= BITMAP_BYTES,
        run_payload_ok(run@, runs as int),
    ensures
        subset == bitmap_set(bitmap@).subset_of(run_set(run@, runs as int)),
{
    let ghost b = bitmap_set(bitmap@);
    let ghost s = run_set(run@, runs as int);
    let run_count: usize = runs as usize;
    let mut run_index: usize = 0;
    let mut word_index: usize = 0;
    // `seen` is the first value that has not been looked at yet.
    let ghost mut seen: int = 0;
    while word_index < BITMAP_LENGTH
        invariant
            bitmap@.len() >= BITMAP_BYTES,
            run_payload_ok(run@, runs as int),
            b == bitmap_set(bitmap@),
            s == run_set(run@, runs as int),
            run_count == runs,
            run_index <= run_count,
            word_index <= BITMAP_LENGTH,
            seen == 64 * word_index,
            forall|i: int| i < seen && b.contains(i) ==> s.contains(i),
            forall|q: int| 0 <= q < run_index ==> #[trigger] run_end(run@, q) < seen,
        decreases BITMAP_LENGTH - word_index,
    {
        let mut word: u64 = bitmap_word(bitmap, word_index);
        while word != 0
            invariant
                run_payload_ok(run@, runs as int),
                b == bitmap_set(bitmap@),
                s == run_set(run@, runs as int),
                run_count == runs,
                run_index <= run_count,
                word_index < BITMAP_LENGTH,
                64 * word_index <= seen <= 64 * word_index + 64,
                forall|i: int| i < seen && b.contains(i) ==> s.contains(i),
                forall|q: int| 0 <= q < run_index ==> #[trigger] run_end(run@, q) < seen,
                forall|k: int|
                    0 <= k < 64 ==> (#[trigger] word_bit(word, k) <==> seen <= 64 * word_index + k
                        && b.contains(64 * word_index + k)),
            decreases word,
        {
            proof {
                lemma_lowest_bit(word);
                lemma_clear_lowest_bit(word);
            }
            let bit: u16 = word.trailing_zeros() as u16;
            let value: u16 = (word_index as u16) * 64 + bit;
            proof {
                assert(word_bit(word, bit as int));
                assert(b.contains(value as int));
            }
            while run_index < run_count
                invariant_except_break
                    run_index <= run_count,
                invariant
                    run_payload_ok(run@, runs as int),
                    b == bitmap_set(bitmap@),
                    s == run_set(run@, runs as int),
                    run_count == runs,
                    b.contains(value as int),
                    forall|q: int| 0 <= q < run_index ==> #[trigger] run_end(run@, q) < value,
                ensures
                    run_index <= run_count,
                    run_index < run_count ==> run_start(run@, run_index as int) <= value
                        <= run_end(run@, run_index as int),
                decreases run_count - run_index,
            {
                let (start, end) = run_bounds(run, run_index);
                if value <= end {
                    if value < start {
                        proof {
                            lemma_run_misses(run@, runs as int, run_index as int, value as int);
                        }
                        return false;
                    }
                    break;
                }
                run_index = run_index + 1;
            }
            if run_index == run_count {
                proof {
                    lemma_run_misses(run@, runs as int, run_index as int, value as int);
                }
                return false;
            }
            let ghost before = word;
            word = word & (word - 1);
            proof {
                lemma_run_member(run@, runs as int, run_index as int);
                assert forall|i: int| i < value + 1 && b.contains(i) implies s.contains(i) by {
                    if seen <= i && i < value {
                        assert(!word_bit(before, i - 64 * word_index));
                    }
                }
                assert forall|k: int| 0 <= k < 64 implies (#[trigger] word_bit(word, k) <==> value
                    + 1 <= 64 * word_index + k && b.contains(64 * word_index + k)) by {
                    assert(word_set(word).contains(k) <==> word_set(before).contains(k) && k
                        != bit);
                    assert(word_bit(before, k) <==> seen <= 64 * word_index + k && b.contains(
                        64 * word_index + k,
                    ));
                }
                seen = value + 1;
            }
        }
        proof {
            crate::bitmap::bits::lemma_word_zero(word);
            assert forall|i: int| i < 64 * word_index + 64 && b.contains(i) implies s.contains(
                i,
            ) by {
                if seen <= i {
                    assert(!word_bit(word, i - 64 * word_index));
                }
            }
            seen = 64 * word_index + 64;
        }
        word_index = word_index + 1;
    }
    true
}

/// Neighbours in a sorted array are at least one apart, so positions never outrun values.
proof fn lemma_array_spread(p: Seq<u8>, j: int, k: int)
    requires
        array_sorted(p),
        0 <= j <= k < array_len(p),
    ensures
        array_at(p, j) + (k - j) <= array_at(p, k),
    decreases k - j,
{
    if j < k {
        lemma_array_spread(p, j, k - 1);
        assert(array_at(p, k - 1) < array_at(p, k));
    }
}

/// A range that lies wholly in a sorted array fills consecutive positions.
proof fn lemma_array_dense(p: Seq<u8>, pos: int, n: int)
    requires
        array_sorted(p),
        0 <= pos < array_len(p),
        0 <= n,
        forall|i: int| array_at(p, pos) <= i <= array_at(p, pos) + n ==> array_set(p).contains(i),
    ensures
        pos + n < array_len(p),
        array_at(p, pos + n) == array_at(p, pos) + n,
    decreases n,
{
    if n > 0 {
        lemma_array_dense(p, pos, n - 1);
        assert(array_set(p).contains(array_at(p, pos) + n));
        let m = choose|m: int|
            0 <= m < array_len(p) && #[trigger] array_at(p, m) == array_at(p, pos) + n;
        if m < pos + n - 1 {
            assert(array_at(p, m) < array_at(p, pos + n - 1));
        } else if m > pos + n {
            assert(array_at(p, pos + n - 1) < array_at(p, pos + n));
            assert(array_at(p, pos + n) < array_at(p, m));
        }
    }
}

pub(crate) fn run_is_subset_of_array(run: &[u8], runs: u16, array: &[u8]) -> (subset: bool)
    requires
        run_payload_ok(run@, runs as int),
        array_sorted(array@),
    ensures
        subset == run_set(run@, runs as int).subset_of(array_set(array@)),
{
    // A run from `s` to `e` lies in the array exactly when the array holds `s` and, `e - s`
    // positions later, `e`: the values between are then distinct and increasing, so they leave
    // no gap.
    let ghost rs = run_set(run@, runs as int);
    let ghost s = array_set(array@);
    assert(array@.len() == array.len());
    let values: usize = array.len() / 2;
    let run_count: usize = runs as usize;
    let mut run_index: usize = 0;
    while run_index < run_count
        invariant
            run_payload_ok(run@, runs as int),
            array_sorted(array@),
            rs == run_set(run@, runs as int),
            s == array_set(array@),
            values == array_len(array@),
            values <= usize::MAX / 2,
            run_count == runs,
            run_index <= run_count,
            forall|r: int, i: int|
                0 <= r < run_index && #[trigger] run_start(run@, r) <= i && i <= run_end(run@, r)
                    ==> #[trigger] s.contains(i),
        decreases run_count - run_index,
    {
        let (start, end) = run_bounds(run, run_index);
        proof {
            lemma_run_member(run@, runs as int, run_index as int);
        }
        let len: usize = (end - start) as usize;
        let pos: usize = match array_binary_search(array, start) {
            Ok(p) => p,
            Err(_) => {
                assert(rs.contains(start as int));
                return false;
            },
        };
        proof {
            if rs.subset_of(s) {
                lemma_array_dense(array@, pos as int, len as int);
            }
        }
        if len >= values - pos {
            return false;
        }
        if array_value(array, pos + len) != end {
            return false;
        }
        proof {
            assert forall|i: int| start <= i <= end implies #[trigger] s.contains(i) by {
                let j = pos + (i - start);
                lemma_array_spread(array@, pos as int, j);
                lemma_array_spread(array@, j, pos + len);
                assert(array_at(array@, j) == i);
            }
        }
        run_index = run_index + 1;
    }
    true
}

pub(crate) fn run_is_subset_of_bitmap(run: &[u8], runs: u16, bitmap: &[u8]) -> (subset: bool)
    requires
        run_payload_ok(run@, runs as int),
        bitmap@.len() >= BITMAP_BYTES,
    ensures
        subset == run_set(run@, runs as int).subset_of(bitmap_set(bitmap@)),
{
    let ghost rs = run_set(run@, runs as int);
    let ghost s = bitmap_set(bitmap@);
    let run_count: usize = runs as usize;
    let mut run_index: usize = 0;
    while run_index < run_count
        invariant
            run_payload_ok(run@, runs as int),
            bitmap@.len() >= BITMAP_BYTES,
            rs == run_set(run@, runs as int),
            s == bitmap_set(bitmap@),
            run_count == runs,
            run_index <= run_count,
            forall|r: int, i: int|
                0 <= r < run_index && #[trigger] run_start(run@, r) <= i && i <= run_end(run@, r)
                    ==> #[trigger] s.contains(i),
        decreases run_count - run_index,
    {
        let (start, end) = run_bounds(run, run_index);
        proof {
            lemma_run_member(run@, runs as int, run_index as int);
        }
        if !bitmap_contains_range(bitmap, start, end) {
            proof {
                let i = choose|i: int| start <= i <= end && !s.contains(i);
                assert(rs.contains(i));
            }
            return false;
        }
        run_index = run_index + 1;
    }
    true
}

pub(crate) fn array_intersects_bitmap(array: &[u8], bitmap: &[u8]) -> (meet: bool)
    requires
        bitmap@.len() >= BITMAP_BYTES,
    ensures
        meet == !array_set(array@).disjoint(bitmap_set(bitmap@)),
{
    let len: usize = array.len() / 2;
    let mut index: usize = 0;
    while index < len
        invariant
            bitmap@.len() >= BITMAP_BYTES,
            len == array_len(array@),
            forall|j: int|
                0 <= j < index ==> !bitmap_set(bitmap@).contains(#[trigger] array_at(array@, j)),
        decreases len - index,
    {
        let value: u16 = array_value(array, index);
        if bitmap_contains(bitmap, value) {
            assert(array_set(array@).contains(value as int));
            return true;
        }
        index = index + 1;
    }
    false
}

pub(crate) fn array_intersects_run(array: &[u8], run: &[u8], runs: u16) -> (meet: bool)
    requires
        array_sorted(array@),
        run_payload_ok(run@, runs as int),
    ensures
        meet == !array_set(array@).disjoint(run_set(run@, runs as int)),
{
    let ghost s = run_set(run@, runs as int);
    let len: usize = array.len() / 2;
    let run_count: usize = runs as usize;
    let mut run_index: usize = 0;
    let mut index: usize = 0;
    while index < len
        invariant
            array_sorted(array@),
            run_payload_ok(run@, runs as int),
            s == run_set(run@, runs as int),
            len == array_len(array@),
            run_count == runs,
            run_index <= run_count,
            forall|j: int| 0 <= j < index ==> !s.contains(#[trigger] array_at(array@, j)),
            index < len ==> forall|q: int|
                0 <= q < run_index ==> #[trigger] run_end(run@, q) < array_at(array@, index as int),
        decreases len - index,
    {
        let value: u16 = array_value(array, index);
        assert(array_set(array@).contains(value as int));
        while run_index < run_count
            invariant_except_break
                run_index <= run_count,
            invariant
                run_payload_ok(run@, runs as int),
                s == run_set(run@, runs as int),
                run_count == runs,
                array_set(array@).contains(value as int),
                forall|q: int| 0 <= q < run_index ==> #[trigger] run_end(run@, q) < value,
            ensures
                run_index <= run_count,
                run_index < run_count ==> value < run_start(run@, run_index as int),
            decreases run_count - run_index,
        {
            let (start, end) = run_bounds(run, run_index);
            if value < start {
                break;
            }
            if value <= end {
                proof {
                    lemma_run_member(run@, runs as int, run_index as int);
                }
                return true;
            }
            run_index = run_index + 1;
        }
        proof {
            lemma_run_misses(run@, runs as int, run_index as int, value as int);
            if index + 1 < len {
                assert(array_at(array@, index as int) < array_at(array@, index + 1));
            }
        }
        if run_index == run_count {
            proof {
                assert forall|j: int| index < j < len implies !s.contains(
                    #[trigger] array_at(array@, j),
                ) by {
                    assert(array_at(array@, index as int) < array_at(array@, j));
                    lemma_run_misses(run@, runs as int, runs as int, array_at(array@, j));
                }
            }
            return false;
        }
        index = index + 1;
    }
    false
}

pub(crate) fn bitmap_intersects_run(bitmap: &[u8], run: &[u8], runs: u16) -> (meet: bool)
    requires
        bitmap@.len() >= BITMAP_BYTES,
        run_payload_ok(run@, runs as int),
    ensures
        meet == !bitmap_set(bitmap@).disjoint(run_set(run@, runs as int)),
{
    let ghost rs = run_set(run@, runs as int);
    let ghost s = bitmap_set(bitmap@);
    let run_count: usize = runs as usize;
    let mut run_index: usize = 0;
    while run_index < run_count
        invariant
            run_payload_ok(run@, runs as int),
            bitmap@.len() >= BITMAP_BYTES,
            rs == run_set(run@, runs as int),
            s == bitmap_set(bitmap@),
            run_count == runs,
            run_index <= run_count,
            forall|r: int, i: int|
                0 <= r < run_index && #[trigger] run_start(run@, r) <= i && i <= run_end(run@, r)
                    ==> !(#[trigger] s.contains(i)),
        decreases run_count - run_index,
    {
        let (start, end) = run_bounds(run, run_index);
        proof {
            lemma_run_member(run@, runs as int, run_index as int);
        }
        if bitmap_intersects_range(bitmap, start, end) {
            proof {
                let i = choose|i: int| start <= i <= end && s.contains(i);
                assert(rs.contains(i));
            }
            return true;
        }
        run_index = run_index + 1;
    }
    false
}

} // verus!
