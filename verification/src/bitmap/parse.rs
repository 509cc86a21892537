//! Reading and checking the parts of a serialized bitmap.

use vstd::prelude::*;
use vstd::slice::slice_subrange;

use crate::bitmap::array::{
    array_at, array_len, array_set, array_sorted, array_split, lemma_array_count_below,
};
use crate::bitmap::bitset::{bitmap_count_words, BITMAP_BYTES, BITMAP_LENGTH};
use crate::bitmap::bytes::{le16, le32, read_u16_at, read_u32_at};
use crate::bitmap::count::{count, lemma_count_none};
use crate::bitmap::error::ParseError;
use crate::bitmap::format::{
    array_error, array_faults, bitmap_error, first, first_from, run_faults, run_list_error, short,
    MAX_CONTAINERS,
};
use crate::bitmap::run::{
    lemma_run_total, run_end, run_set, run_start, runs_sorted, RUN_ELEMENT_BYTES, RUN_NUM_BYTES,
};

verus! {

/// The outcome of a check is the error that there is, if there is one.
pub open spec fn reports(outcome: Result<(), ParseError>, error: Option<ParseError>) -> bool {
    match error {
        None => outcome is Ok,
        Some(e) => outcome == Err::<(), ParseError>(e),
    }
}

/// An index at which a predicate holds, and below which it does not, is the first one.
pub(crate) proof fn lemma_first_is(n: int, p: spec_fn(int) -> bool, i: int)
    requires
        0 <= i < n,
        p(i),
        forall|j: int| 0 <= j < i ==> !(#[trigger] p(j)),
    ensures
        first(n, p) == i,
{
    lemma_first_from(0, n, p, i);
}

proof fn lemma_first_from(from: int, n: int, p: spec_fn(int) -> bool, i: int)
    requires
        from <= i <= n,
        i < n ==> p(i),
        forall|j: int| from <= j < i ==> !(#[trigger] p(j)),
    ensures
        first_from(from, n, p) == i,
    decreases i - from,
{
    if from < i {
        assert(!p(from));
        lemma_first_from(from + 1, n, p, i);
    }
}

/// A predicate that holds nowhere has no first index.
pub(crate) proof fn lemma_first_none(n: int, p: spec_fn(int) -> bool)
    requires
        0 <= n,
        forall|j: int| 0 <= j < n ==> !(#[trigger] p(j)),
    ensures
        first(n, p) == n,
{
    lemma_first_from(0, n, p, n);
}

pub(crate) fn max_containers() -> (max: u64)
    ensures
        max == MAX_CONTAINERS,
{
    u16::MAX as u64 + 1
}

pub(crate) fn validate_container_count(count: u64) -> (outcome: Result<(), ParseError>)
    ensures
        reports(
            outcome,
            if count > MAX_CONTAINERS {
                Some(ParseError::TooManyContainers { count, max: MAX_CONTAINERS })
            } else {
                None
            },
        ),
{
    let max: u64 = max_containers();
    if count > max {
        Err(ParseError::TooManyContainers { count, max })
    } else {
        Ok(())
    }
}

pub(crate) fn checked_payload(bytes: &[u8], offset: usize, needed: usize) -> (outcome: Result<
    (),
    ParseError,
>)
    ensures
        reports(
            outcome,
            if needed > 0 && bytes@.len() < offset + needed {
                Some(short(bytes@, offset as int, needed as int))
            } else {
                None
            },
        ),
{
    assert(bytes@.len() == bytes.len());
    let got: usize = bytes.len().saturating_sub(offset);
    if got < needed {
        Err(ParseError::Truncated { offset, needed, got })
    } else {
        Ok(())
    }
}

/// Takes the next `needed` bytes at `offset`, which moves past them.
pub(crate) fn take<'a>(bytes: &'a [u8], offset: &mut usize, needed: usize) -> (taken: Result<
    &'a [u8],
    ParseError,
>)
    requires
        *old(offset) <= bytes@.len(),
    ensures
        match taken {
            Ok(part) => {
                &&& *old(offset) + needed <= bytes@.len()
                &&& *final(offset) == *old(offset) + needed
                &&& part@ == bytes@.subrange(*old(offset) as int, *final(offset) as int)
            },
            Err(e) => {
                &&& bytes@.len() < *old(offset) + needed
                &&& *final(offset) == *old(offset)
                &&& e == short(bytes@, *old(offset) as int, needed as int)
            },
        },
{
    match checked_payload(bytes, *offset, needed) {
        Err(e) => {
            return Err(e);
        },
        Ok(()) => {},
    }
    let start: usize = *offset;
    assert(bytes@.len() == bytes.len());
    *offset = start + needed;
    Ok(slice_subrange(bytes, start, start + needed))
}

pub(crate) fn read_u32(bytes: &[u8], offset: &mut usize) -> (value: Result<u32, ParseError>)
    requires
        *old(offset) <= bytes@.len(),
    ensures
        match value {
            Ok(v) => {
                &&& *old(offset) + 4 <= bytes@.len()
                &&& *final(offset) == *old(offset) + 4
                &&& v == le32(bytes@, *old(offset) as int)
            },
            Err(e) => {
                &&& bytes@.len() < *old(offset) + 4
                &&& *final(offset) == *old(offset)
                &&& e == short(bytes@, *old(offset) as int, 4)
            },
        },
{
    match take(bytes, offset, 4) {
        Ok(raw) => Ok(read_u32_at(raw, 0)),
        Err(e) => Err(e),
    }
}

pub(crate) fn read_u16_at_abs(bytes: &[u8], offset: usize) -> (value: Result<u16, ParseError>)
    ensures
        match value {
            Ok(v) => offset + 2 <= bytes@.len() && v == le16(bytes@, offset as int),
            Err(e) => bytes@.len() < offset + 2 && e == short(bytes@, offset as int, 2),
        },
{
    match checked_payload(bytes, offset, 2) {
        Ok(()) => Ok(read_u16_at(bytes, offset)),
        Err(e) => Err(e),
    }
}

pub(crate) fn validate_array(bytes: &[u8], offset: usize, cardinality: u32) -> (outcome: Result<
    (),
    ParseError,
>)
    requires
        2 * cardinality <= usize::MAX,
    ensures
        reports(outcome, array_error(bytes@, offset as int, cardinality as int)),
        outcome is Ok && cardinality > 0 ==> ({
            let p = bytes@.subrange(offset as int, offset + 2 * cardinality);
            &&& offset + 2 * cardinality <= bytes@.len()
            &&& array_sorted(p)
            &&& count(array_set(p), 0, 0x1_0000) == cardinality
        }),
{
    let len: usize = cardinality as usize * 2;
    match checked_payload(bytes, offset, len) {
        Err(e) => {
            return Err(e);
        },
        Ok(()) => {},
    }
    assert(bytes@.len() == bytes.len());
    let ghost p = bytes@.subrange(offset as int, offset + len as int);
    let mut last: u16 = 0;
    let mut index: usize = 0;
    while index < cardinality as usize
        invariant
            len == 2 * cardinality,
            len > 0 ==> offset + len <= bytes@.len(),
            bytes@.len() == bytes.len(),
            p == bytes@.subrange(offset as int, offset + len as int),
            index <= cardinality,
            index > 0 ==> last == array_at(p, index - 1),
            forall|j: int| 0 <= j < index ==> !#[trigger] array_faults(p)(j),
            forall|j: int, k: int|
                0 <= j < k < index ==> #[trigger] array_at(p, j) < #[trigger] array_at(p, k),
        decreases cardinality - index,
    {
        let value: u16 = read_u16_at(bytes, offset + index * 2);
        assert(value == array_at(p, index as int));
        if index > 0 && value <= last {
            proof {
                assert(array_faults(p)(index as int));
                lemma_first_is(cardinality as int, array_faults(p), index as int);
            }
            return Err(
                ParseError::InvalidContainer {
                    offset: offset + index * 2,
                    detail: "array container values are not sorted and unique",
                },
            );
        }
        assert(!array_faults(p)(index as int));
        last = value;
        index = index + 1;
    }
    proof {
        lemma_first_none(cardinality as int, array_faults(p));
        if cardinality > 0 {
            assert(array_split(p, array_len(p), 0x1_0000));
            lemma_array_count_below(p, array_len(p), 0x1_0000);
        }
    }
    Ok(())
}

pub(crate) fn validate_bitmap(bytes: &[u8], offset: usize, cardinality: u32) -> (outcome: Result<
    (),
    ParseError,
>)
    ensures
        reports(outcome, bitmap_error(bytes@, offset as int, cardinality as int)),
{
    match checked_payload(bytes, offset, BITMAP_BYTES) {
        Err(e) => {
            return Err(e);
        },
        Ok(()) => {},
    }
    assert(bytes@.len() == bytes.len());
    let payload: &[u8] = slice_subrange(bytes, offset, offset + BITMAP_BYTES);
    let actual: u64 = bitmap_count_words(payload, 0, BITMAP_LENGTH);
    if actual == cardinality as u64 {
        Ok(())
    } else {
        Err(
            ParseError::InvalidContainer {
                offset,
                detail: "bitmap container cardinality does not match payload",
            },
        )
    }
}

pub(crate) fn validate_run(bytes: &[u8], offset: usize, runs: u16, cardinality: u32) -> (outcome:
    Result<(), ParseError>)
    ensures
        reports(outcome, run_list_error(bytes@, offset as int, runs as int, cardinality as int)),
        outcome is Ok ==> ({
            let needed = RUN_NUM_BYTES + runs * RUN_ELEMENT_BYTES;
            let p = bytes@.subrange(offset as int, offset + needed);
            &&& offset + needed <= bytes@.len()
            &&& runs_sorted(p, runs as int)
            &&& count(run_set(p, runs as int), 0, 0x1_0000) == cardinality
        }),
{
    let byte_size: usize = RUN_NUM_BYTES + runs as usize * RUN_ELEMENT_BYTES;
    match checked_payload(bytes, offset, byte_size) {
        Err(e) => {
            return Err(e);
        },
        Ok(()) => {},
    }
    assert(bytes@.len() == bytes.len());
    let payload: &[u8] = slice_subrange(bytes, offset, offset + byte_size);
    let ghost p = payload@;
    let mut last_end: u16 = 0;
    let mut actual_cardinality: u32 = 0;
    let mut index: usize = 0;
    proof {
        lemma_count_none(run_set(p, 0), 0, 0x1_0000);
    }
    while index < runs as usize
        invariant
            byte_size == RUN_NUM_BYTES + runs * RUN_ELEMENT_BYTES,
            offset + byte_size <= bytes@.len(),
            bytes@.len() == bytes.len(),
            p == payload@,
            p == bytes@.subrange(offset as int, offset + byte_size as int),
            index <= runs,
            index > 0 ==> last_end == run_end(p, index - 1),
            actual_cardinality == count(run_set(p, index as int), 0, 0x1_0000),
            actual_cardinality <= 0x1_0000,
            runs_sorted(p, index as int),
            forall|r: int| 0 <= r < index ==> !#[trigger] run_faults(p)(r),
        decreases runs - index,
    {
        let at: usize = RUN_NUM_BYTES + index * RUN_ELEMENT_BYTES;
        let start: u16 = read_u16_at(payload, at);
        let len: u16 = read_u16_at(payload, at + 2);
        assert(start == run_start(p, index as int));
        assert(start + len == run_end(p, index as int));
        let end: u16 = match start.checked_add(len) {
            Some(end) => end,
            None => {
                proof {
                    assert(run_faults(p)(index as int));
                    lemma_first_is(runs as int, run_faults(p), index as int);
                }
                return Err(
                    ParseError::InvalidRun {
                        offset,
                        detail: "run length overflows container",
                    },
                );
            },
        };
        if index > 0 && start <= last_end.saturating_add(1) {
            proof {
                assert(run_faults(p)(index as int));
                lemma_first_is(runs as int, run_faults(p), index as int);
            }
            return Err(
                ParseError::InvalidRun {
                    offset,
                    detail: "runs overlap or are contiguous",
                },
            );
        }
        proof {
            assert(!run_faults(p)(index as int));
            assert forall|q: int| 0 <= q < index implies #[trigger] run_end(p, q) + 1 < run_start(
                p,
                index as int,
            ) by {
                if q < index - 1 {
                    assert(run_end(p, q) + 1 < run_start(p, index - 1));
                }
            }
            assert(runs_sorted(p, index + 1));
            lemma_run_total(p, index as int);
        }
        last_end = end;
        actual_cardinality = actual_cardinality + (len as u32 + 1);
        index = index + 1;
    }
    proof {
        lemma_first_none(runs as int, run_faults(p));
    }
    if actual_cardinality == cardinality {
        Ok(())
    } else {
        Err(
            ParseError::InvalidRun {
                offset,
                detail: "run container cardinality does not match payload",
            },
        )
    }
}

} // verus!
