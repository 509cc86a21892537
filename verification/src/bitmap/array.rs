//! Array containers: strictly increasing 16-bit values, two bytes each.

use vstd::prelude::*;

use crate::bitmap::bytes::{le16, read_u16_at};
use crate::bitmap::count::{count, lemma_count_none, lemma_count_split, lemma_count_subset};

verus! {

/// The number of values in an array payload.
pub open spec fn array_len(p: Seq<u8>) -> int {
    p.len() as int / 2
}

/// Value `j` of an array payload.
pub open spec fn array_at(p: Seq<u8>, j: int) -> int {
    le16(p, 2 * j)
}

/// The values of an array payload are strictly increasing.
pub open spec fn array_sorted(p: Seq<u8>) -> bool {
    forall|j: int, k: int|
        0 <= j < k < array_len(p) ==> #[trigger] array_at(p, j) < #[trigger] array_at(p, k)
}

/// The values of an array payload.
pub open spec fn array_set(p: Seq<u8>) -> Set<int> {
    Set::new(|i: int| exists|j: int| 0 <= j < array_len(p) && #[trigger] array_at(p, j) == i)
}

/// The values before position `at` lie below `bound`, the others do not.
pub open spec fn array_split(p: Seq<u8>, at: int, bound: int) -> bool {
    &&& 0 <= at <= array_len(p)
    &&& forall|j: int| 0 <= j < at ==> #[trigger] array_at(p, j) < bound
    &&& forall|j: int| at <= j < array_len(p) ==> bound <= #[trigger] array_at(p, j)
}

/// The position of a split counts the values below its bound.
pub(crate) proof fn lemma_array_count_below(p: Seq<u8>, at: int, bound: int)
    requires
        array_sorted(p),
        array_split(p, at, bound),
        0 <= bound,
    ensures
        count(array_set(p), 0, bound) == at,
    decreases at,
{
    let s = array_set(p);
    if at == 0 {
        lemma_count_none(s, 0, bound);
    } else {
        let last = array_at(p, at - 1);
        assert(array_split(p, at - 1, last));
        lemma_array_count_below(p, at - 1, last);
        lemma_count_split(s, 0, last, bound);
        lemma_count_split(s, last, last + 1, bound);
        assert(s.contains(last));
        lemma_count_none(s, last + 1, bound);
        assert(count(s, last, last) == 0);
        assert(count(s, last, last + 1) == 1);
    }
}

/// The values from the position of a split on are those not below its bound.
pub(crate) proof fn lemma_array_count_from(p: Seq<u8>, at: int, bound: int)
    requires
        array_sorted(p),
        array_split(p, at, bound),
        0 <= bound <= 0x1_0000,
    ensures
        count(array_set(p), bound, 0x1_0000) == array_len(p) - at,
{
    lemma_array_count_below(p, at, bound);
    assert(array_split(p, array_len(p), 0x1_0000));
    lemma_array_count_below(p, array_len(p), 0x1_0000);
    lemma_count_split(array_set(p), 0, bound, 0x1_0000);
}

/// Moving a split past one value adds that value, and it alone, to what lies below.
pub(crate) proof fn lemma_array_step(p: Seq<u8>, at: int, bound: int, s: Set<int>)
    requires
        array_sorted(p),
        array_split(p, at, bound),
        at < array_len(p),
        0 <= bound,
    ensures
        array_split(p, at + 1, array_at(p, at) + 1),
        count(array_set(p).intersect(s), 0, array_at(p, at) + 1) == count(
            array_set(p).intersect(s),
            0,
            bound,
        ) + if s.contains(array_at(p, at)) {
            1int
        } else {
            0int
        },
{
    let v = array_at(p, at);
    let both = array_set(p).intersect(s);
    assert(array_set(p).contains(v));
    lemma_count_split(both, 0, bound, v + 1);
    lemma_count_split(both, bound, v, v + 1);
    lemma_count_none(both, bound, v);
    assert(count(both, v, v) == 0);
}

/// A split past the last value leaves nothing above its bound.
pub(crate) proof fn lemma_array_done(p: Seq<u8>, bound: int, s: Set<int>)
    requires
        array_split(p, array_len(p), bound),
        0 <= bound <= 0x1_0000,
    ensures
        count(array_set(p).intersect(s), 0, 0x1_0000) == count(
            array_set(p).intersect(s),
            0,
            bound,
        ),
{
    let both = array_set(p).intersect(s);
    lemma_count_split(both, 0, bound, 0x1_0000);
    lemma_count_none(both, bound, 0x1_0000);
}

/// Reads value `j` of an array payload.
pub(crate) fn array_value(payload: &[u8], j: usize) -> (value: u16)
    requires
        j < array_len(payload@),
    ensures
        value == array_at(payload@, j as int),
{
    assert(payload@.len() == payload.len());
    read_u16_at(payload, j * 2)
}

pub(crate) fn array_contains(payload: &[u8], index: u16) -> (found: bool)
    requires
        array_sorted(payload@),
    ensures
        found == array_set(payload@).contains(index as int),
{
    match array_binary_search(payload, index) {
        Ok(_) => true,
        Err(_) => false,
    }
}

pub(crate) fn array_rank(payload: &[u8], index: u16) -> (rank: u64)
    requires
        array_sorted(payload@),
    ensures
        rank == count(array_set(payload@), 0, index + 1),
{
    assert(payload@.len() == payload.len());
    match array_binary_search(payload, index) {
        Ok(pos) => {
            proof {
                assert(array_split(payload@, pos + 1, index + 1));
                lemma_array_count_below(payload@, pos + 1, index + 1);
            }
            pos as u64 + 1
        },
        Err(pos) => {
            proof {
                assert(array_split(payload@, pos as int, index + 1));
                lemma_array_count_below(payload@, pos as int, index + 1);
            }
            pos as u64
        },
    }
}

/// Finds the position of `index`, or the position at which it would have to be inserted.
pub(crate) fn array_binary_search(payload: &[u8], index: u16) -> (found: Result<usize, usize>)
    requires
        array_sorted(payload@),
    ensures
        match found {
            Ok(pos) => {
                &&& pos < array_len(payload@)
                &&& array_at(payload@, pos as int) == index
            },
            Err(pos) => {
                &&& array_split(payload@, pos as int, index as int)
                &&& !array_set(payload@).contains(index as int)
            },
        },
{
    let len: usize = payload.len() / 2;
    let mut size: usize = len;
    let mut left: usize = 0;
    while size > 0
        invariant
            array_sorted(payload@),
            len == array_len(payload@),
            left + size <= len,
            forall|j: int| 0 <= j < left ==> #[trigger] array_at(payload@, j) < index,
            forall|j: int| left + size <= j < len ==> index < #[trigger] array_at(payload@, j),
        decreases size,
    {
        let half: usize = size / 2;
        let mid: usize = left + half;
        let value: u16 = array_value(payload, mid);
        if value < index {
            left = mid + 1;
            size = size - (half + 1);
        } else if value == index {
            return Ok(mid);
        } else {
            size = half;
        }
    }
    Err(left)
}

pub(crate) fn array_intersection_len_array(left: &[u8], right: &[u8]) -> (total: u64)
    requires
        array_sorted(left@),
        array_sorted(right@),
    ensures
        total == count(array_set(left@).intersect(array_set(right@)), 0, 0x1_0000),
{
    let mut left_index: usize = 0;
    let mut right_index: usize = 0;
    let left_len: usize = left.len() / 2;
    let right_len: usize = right.len() / 2;
    let mut total: u64 = 0;
    let ghost ls = array_set(left@);
    let ghost rs = array_set(right@);
    let ghost both = ls.intersect(rs);
    let ghost mut bound: int = 0;

    while left_index < left_len && right_index < right_len
        invariant
            array_sorted(left@),
            array_sorted(right@),
            left_len == array_len(left@),
            right_len == array_len(right@),
            ls == array_set(left@),
            rs == array_set(right@),
            both == ls.intersect(rs),
            0 <= bound <= 0x1_0000,
            array_split(left@, left_index as int, bound),
            array_split(right@, right_index as int, bound),
            total == count(both, 0, bound),
            total <= left_index,
        decreases left_len - left_index + right_len - right_index,
    {
        let left_value: u16 = array_value(left, left_index);
        let right_value: u16 = array_value(right, right_index);
        if left_value < right_value {
            proof {
                lemma_array_step(left@, left_index as int, bound, rs);
                assert(!rs.contains(left_value as int));
                bound = left_value + 1;
            }
            left_index = left_index + 1;
        } else if left_value > right_value {
            proof {
                assert(both =~= rs.intersect(ls));
                lemma_array_step(right@, right_index as int, bound, ls);
                assert(!ls.contains(right_value as int));
                bound = right_value + 1;
            }
            right_index = right_index + 1;
        } else {
            proof {
                lemma_array_step(left@, left_index as int, bound, rs);
                lemma_array_step(right@, right_index as int, bound, ls);
                assert(rs.contains(left_value as int));
                bound = left_value + 1;
            }
            total = total + 1;
            left_index = left_index + 1;
            right_index = right_index + 1;
        }
    }
    proof {
        assert(both =~= rs.intersect(ls));
        if left_index == left_len {
            lemma_array_done(left@, bound, rs);
        } else {
            lemma_array_done(right@, bound, ls);
        }
    }
    total
}

pub(crate) fn array_is_subset_of_array(left: &[u8], right: &[u8]) -> (subset: bool)
    requires
        array_sorted(left@),
        array_sorted(right@),
    ensures
        subset == array_set(left@).subset_of(array_set(right@)),
{
    let left_len: usize = left.len() / 2;
    let right_len: usize = right.len() / 2;
    let mut li: usize = 0;
    let mut ri: usize = 0;
    let ghost ls = array_set(left@);
    let ghost rs = array_set(right@);
    let ghost mut bound: int = 0;
    while li < left_len
        invariant
            array_sorted(left@),
            array_sorted(right@),
            left_len == array_len(left@),
            right_len == array_len(right@),
            ls == array_set(left@),
            rs == array_set(right@),
            0 <= bound <= 0x1_0000,
            array_split(left@, li as int, bound),
            array_split(right@, ri as int, bound),
            forall|j: int| 0 <= j < li ==> rs.contains(#[trigger] array_at(left@, j)),
        decreases left_len - li,
    {
        // Too few right values remain to cover the left ones.
        if right_len - ri < left_len - li {
            proof {
                lemma_array_count_from(left@, li as int, bound);
                lemma_array_count_from(right@, ri as int, bound);
                if ls.subset_of(rs) {
                    lemma_count_subset(ls, rs, bound, 0x1_0000);
                }
            }
            return false;
        }
        let lv: u16 = array_value(left, li);
        assert(ls.contains(lv as int));
        loop
            invariant_except_break
                ri <= right_len,
                forall|j: int| 0 <= j < ri ==> #[trigger] array_at(right@, j) < lv,
            invariant
                array_sorted(right@),
                right_len == array_len(right@),
                rs == array_set(right@),
                ls == array_set(left@),
                ls.contains(lv as int),
            ensures
                0 < ri <= right_len,
                array_at(right@, ri - 1) == lv,
            decreases right_len - ri,
        {
            if ri == right_len {
                assert(!rs.contains(lv as int));
                return false;
            }
            let rv: u16 = array_value(right, ri);
            if rv < lv {
                ri = ri + 1;
            } else if rv == lv {
                ri = ri + 1;
                break;
            } else {
                assert(!rs.contains(lv as int));
                return false;
            }
        }
        proof {
            bound = lv + 1;
            assert(rs.contains(lv as int));
        }
        li = li + 1;
    }
    true
}

pub(crate) fn array_intersects_array(left: &[u8], right: &[u8]) -> (meet: bool)
    requires
        array_sorted(left@),
        array_sorted(right@),
    ensures
        meet == !array_set(left@).disjoint(array_set(right@)),
{
    let mut li: usize = 0;
    let mut ri: usize = 0;
    let left_len: usize = left.len() / 2;
    let right_len: usize = right.len() / 2;
    let ghost ls = array_set(left@);
    let ghost rs = array_set(right@);
    while li < left_len && ri < right_len
        invariant
            array_sorted(left@),
            array_sorted(right@),
            left_len == array_len(left@),
            right_len == array_len(right@),
            ls == array_set(left@),
            rs == array_set(right@),
            li <= left_len,
            ri <= right_len,
            forall|j: int| 0 <= j < li ==> !rs.contains(#[trigger] array_at(left@, j)),
            forall|j: int| 0 <= j < ri ==> !ls.contains(#[trigger] array_at(right@, j)),
        decreases left_len - li + right_len - ri,
    {
        let lv: u16 = array_value(left, li);
        let rv: u16 = array_value(right, ri);
        assert(ls.contains(lv as int));
        assert(rs.contains(rv as int));
        if lv < rv {
            assert(!rs.contains(lv as int));
            li = li + 1;
        } else if lv > rv {
            assert(!ls.contains(rv as int));
            ri = ri + 1;
        } else {
            return true;
        }
    }
    false
}

} // verus!
