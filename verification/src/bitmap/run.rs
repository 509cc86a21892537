//! Run containers: a count, and for each run its first value and its length less one.

use vstd::prelude::*;

use crate::bitmap::bytes::{le16, read_u16_at};
use crate::bitmap::count::{
    count, lemma_count_all, lemma_count_bound, lemma_count_none, lemma_count_same,
    lemma_count_split,
};

verus! {

/// The number of bytes that hold the number of runs.
pub const RUN_NUM_BYTES: usize = 2;

/// The number of bytes that hold one run.
pub const RUN_ELEMENT_BYTES: usize = 4;

/// The first value of run `r`.
pub open spec fn run_start(p: Seq<u8>, r: int) -> int {
    le16(p, 2 + 4 * r)
}

/// The last value of run `r`.
pub open spec fn run_end(p: Seq<u8>, r: int) -> int {
    le16(p, 2 + 4 * r) + le16(p, 4 + 4 * r)
}

/// The first `runs` runs stay below 65536, are increasing, and have a gap between any two.
pub open spec fn runs_sorted(p: Seq<u8>, runs: int) -> bool {
    &&& forall|r: int| 0 <= r < runs ==> #[trigger] run_end(p, r) < 0x1_0000
    &&& forall|q: int, r: int|
        0 <= q < r < runs ==> #[trigger] run_end(p, q) + 1 < #[trigger] run_start(p, r)
}

/// The values of the first `runs` runs.
pub open spec fn run_set(p: Seq<u8>, runs: int) -> Set<int> {
    Set::new(
        |i: int|
            exists|r: int| 0 <= r < runs && #[trigger] run_start(p, r) <= i && i <= run_end(p, r),
    )
}

/// The payload holds at least `runs` runs, and the first `runs` are increasing.
pub open spec fn run_payload_ok(p: Seq<u8>, runs: int) -> bool {
    &&& p.len() >= RUN_NUM_BYTES + runs * RUN_ELEMENT_BYTES
    &&& runs_sorted(p, runs)
}

/// The runs before `at` lie below `bound`, the others do not.
pub open spec fn run_split(p: Seq<u8>, runs: int, at: int, bound: int) -> bool {
    &&& 0 <= at <= runs
    &&& forall|r: int| 0 <= r < at ==> #[trigger] run_end(p, r) < bound
    &&& forall|r: int| at <= r < runs ==> bound <= #[trigger] run_start(p, r)
}

/// Every value of run `r` is a value of the payload.
pub(crate) proof fn lemma_run_member(p: Seq<u8>, runs: int, r: int)
    requires
        0 <= r < runs,
    ensures
        forall|i: int| run_start(p, r) <= i <= run_end(p, r) ==> run_set(p, runs).contains(i),
{
}

/// Moving a split past one run adds the values of that run, and no others, to what lies below.
pub(crate) proof fn lemma_run_step(p: Seq<u8>, runs: int, at: int, bound: int, s: Set<int>)
    requires
        runs_sorted(p, runs),
        run_split(p, runs, at, bound),
        at < runs,
        0 <= bound,
    ensures
        run_split(p, runs, at + 1, run_end(p, at) + 1),
        count(run_set(p, runs).intersect(s), 0, run_end(p, at) + 1) == count(
            run_set(p, runs).intersect(s),
            0,
            bound,
        ) + count(s, run_start(p, at), run_end(p, at) + 1),
{
    let first = run_start(p, at);
    let last = run_end(p, at);
    let both = run_set(p, runs).intersect(s);
    lemma_run_member(p, runs, at);
    lemma_count_split(both, 0, bound, last + 1);
    lemma_count_split(both, bound, first, last + 1);
    lemma_count_none(both, bound, first);
    lemma_count_same(both, s, first, last + 1);
}

/// A split past the last run leaves nothing above its bound.
pub(crate) proof fn lemma_run_done(p: Seq<u8>, runs: int, bound: int, s: Set<int>)
    requires
        run_split(p, runs, runs, bound),
        0 <= bound <= 0x1_0000,
    ensures
        count(run_set(p, runs).intersect(s), 0, 0x1_0000) == count(
            run_set(p, runs).intersect(s),
            0,
            bound,
        ),
{
    let both = run_set(p, runs).intersect(s);
    lemma_count_split(both, 0, bound, 0x1_0000);
    lemma_count_none(both, bound, 0x1_0000);
}

/// Each run adds as many values as it is long.
pub(crate) proof fn lemma_run_total(p: Seq<u8>, runs: int)
    requires
        0 <= runs,
        runs_sorted(p, runs + 1),
    ensures
        count(run_set(p, runs + 1), 0, 0x1_0000) == count(run_set(p, runs), 0, 0x1_0000)
            + run_end(p, runs) - run_start(p, runs) + 1,
        count(run_set(p, runs + 1), 0, 0x1_0000) <= run_end(p, runs) + 1,
{
    let first = run_start(p, runs);
    let last = run_end(p, runs);
    let s = run_set(p, runs + 1);
    let t = run_set(p, runs);
    lemma_run_member(p, runs + 1, runs);
    lemma_count_split(s, 0, first, 0x1_0000);
    lemma_count_split(s, first, last + 1, 0x1_0000);
    lemma_count_split(t, 0, first, 0x1_0000);
    lemma_count_same(s, t, 0, first);
    lemma_count_none(t, first, 0x1_0000);
    lemma_count_none(s, last + 1, 0x1_0000);
    lemma_count_all(s, first, last + 1);
    lemma_count_bound(s, 0, first);
}

/// Reads the first and the last value of run `index`.
pub(crate) fn run_bounds(payload: &[u8], index: usize) -> (bounds: (u16, u16))
    requires
        2 + 4 * index + 4 <= payload@.len(),
        run_end(payload@, index as int) < 0x1_0000,
    ensures
        bounds.0 == run_start(payload@, index as int),
        bounds.1 == run_end(payload@, index as int),
        bounds.0 <= bounds.1,
{
    assert(payload@.len() == payload.len());
    let offset: usize = RUN_NUM_BYTES + index * RUN_ELEMENT_BYTES;
    let start: u16 = read_u16_at(payload, offset);
    let end: u16 = start + read_u16_at(payload, offset + 2);
    (start, end)
}

/// Finds the run that holds `index`, or the position at which one would have to be inserted.
pub(crate) fn run_search(payload: &[u8], runs: u16, index: u16) -> (found: Result<usize, usize>)
    requires
        run_payload_ok(payload@, runs as int),
    ensures
        match found {
            Ok(pos) => {
                &&& pos < runs
                &&& run_start(payload@, pos as int) <= index <= run_end(payload@, pos as int)
            },
            Err(pos) => {
                &&& run_split(payload@, runs as int, pos as int, index as int)
                &&& !run_set(payload@, runs as int).contains(index as int)
            },
        },
{
    let mut size: usize = runs as usize;
    let mut left: usize = 0;
    while size > 0
        invariant
            run_payload_ok(payload@, runs as int),
            left + size <= runs,
            forall|r: int| 0 <= r < left ==> #[trigger] run_end(payload@, r) < index,
            forall|r: int| left + size <= r < runs ==> index < #[trigger] run_start(payload@, r),
        decreases size,
    {
        let half: usize = size / 2;
        let mid: usize = left + half;
        let (start, end) = run_bounds(payload, mid);
        if index < start {
            proof {
                assert forall|r: int| mid <= r < runs implies index < #[trigger] run_start(
                    payload@,
                    r,
                ) by {
                    if r > mid {
                        assert(run_end(payload@, mid as int) + 1 < run_start(payload@, r));
                    }
                }
            }
            size = half;
        } else if index > end {
            proof {
                assert forall|r: int| 0 <= r <= mid implies #[trigger] run_end(payload@, r)
                    < index by {
                    if r < mid {
                        assert(run_end(payload@, r) + 1 < run_start(payload@, mid as int));
                    }
                }
            }
            left = mid + 1;
            size = size - (half + 1);
        } else {
            return Ok(mid);
        }
    }
    Err(left)
}

pub(crate) fn run_contains(payload: &[u8], runs: u16, index: u16) -> (found: bool)
    requires
        run_payload_ok(payload@, runs as int),
    ensures
        found == run_set(payload@, runs as int).contains(index as int),
{
    match run_search(payload, runs, index) {
        Ok(pos) => {
            proof {
                lemma_run_member(payload@, runs as int, pos as int);
            }
            true
        },
        Err(_) => false,
    }
}

pub(crate) fn run_rank(payload: &[u8], runs: u16, index: u16) -> (rank: u64)
    requires
        run_payload_ok(payload@, runs as int),
    ensures
        rank == count(run_set(payload@, runs as int), 0, index + 1),
{
    let ghost s = run_set(payload@, runs as int);
    let mut rank: u64 = 0;
    let mut run_index: usize = 0;
    let ghost mut bound: int = 0;
    while run_index < runs as usize
        invariant
            run_payload_ok(payload@, runs as int),
            s == run_set(payload@, runs as int),
            run_split(payload@, runs as int, run_index as int, bound),
            0 <= bound <= index + 1,
            rank == count(s, 0, bound),
            rank <= bound,
        decreases runs - run_index,
    {
        let (start, end) = run_bounds(payload, run_index);
        proof {
            lemma_run_member(payload@, runs as int, run_index as int);
            lemma_run_step(payload@, runs as int, run_index as int, bound, s);
            assert(s.intersect(s) =~= s);
            lemma_count_all(s, start as int, end + 1);
            lemma_count_split(s, 0, bound, index + 1);
        }
        if end <= index {
            rank = rank + (end - start) as u64 + 1;
            proof {
                bound = end + 1;
            }
        } else if start <= index {
            proof {
                lemma_count_split(s, bound, start as int, index + 1);
                lemma_count_none(s, bound, start as int);
                lemma_count_all(s, start as int, index + 1);
            }
            return rank + (index - start) as u64 + 1;
        } else {
            proof {
                lemma_count_none(s, bound, index + 1);
            }
            return rank;
        }
        run_index = run_index + 1;
    }
    proof {
        lemma_count_split(s, 0, bound, index + 1);
        lemma_count_none(s, bound, index + 1);
    }
    rank
}

#[verifier::rlimit(30)]
pub(crate) fn run_intersection_len_run(
    left: &[u8],
    left_runs: u16,
    right: &[u8],
    right_runs: u16,
) -> (total: u64)
    requires
        run_payload_ok(left@, left_runs as int),
        run_payload_ok(right@, right_runs as int),
    ensures
        total == count(
            run_set(left@, left_runs as int).intersect(run_set(right@, right_runs as int)),
            0,
            0x1_0000,
        ),
{
    let ghost ls = run_set(left@, left_runs as int);
    let ghost rs = run_set(right@, right_runs as int);
    let ghost both = ls.intersect(rs);
    let ghost mut bound: int = 0;
    let mut left_index: usize = 0;
    let mut right_index: usize = 0;
    let mut total: u64 = 0;

    while left_index < left_runs as usize && right_index < right_runs as usize
        invariant
            run_payload_ok(left@, left_runs as int),
            run_payload_ok(right@, right_runs as int),
            ls == run_set(left@, left_runs as int),
            rs == run_set(right@, right_runs as int),
            both == ls.intersect(rs),
            left_index <= left_runs,
            right_index <= right_runs,
            0 <= bound <= 0x1_0000,
            forall|r: int| 0 <= r < left_index ==> #[trigger] run_end(left@, r) < bound,
            forall|r: int| left_index <= r < left_runs ==> bound <= #[trigger] run_end(left@, r),
            forall|r: int| 0 <= r < right_index ==> #[trigger] run_end(right@, r) < bound,
            forall|r: int| right_index <= r < right_runs ==> bound <= #[trigger] run_end(right@, r),
            left_index < left_runs && right_index < right_runs ==> bound <= run_start(
                left@,
                left_index as int,
            ) || bound <= run_start(right@, right_index as int),
            total == count(both, 0, bound),
            total <= bound,
        decreases left_runs - left_index + right_runs - right_index,
    {
        let (left_start, left_end) = run_bounds(left, left_index);
        let (right_start, right_end) = run_bounds(right, right_index);
        let start: u16 = if left_start < right_start {
            right_start
        } else {
            left_start
        };
        let end: u16 = if left_end < right_end {
            left_end
        } else {
            right_end
        };
        proof {
            lemma_run_member(left@, left_runs as int, left_index as int);
            lemma_run_member(right@, right_runs as int, right_index as int);
            lemma_count_split(both, 0, bound, end + 1);
            if start <= end {
                lemma_count_split(both, bound, start as int, end + 1);
                lemma_count_none(both, bound, start as int);
                lemma_count_all(both, start as int, end + 1);
            } else {
                lemma_count_none(both, bound, end + 1);
            }
        }
        if start <= end {
            total = total + (end - start) as u64 + 1;
        }
        proof {
            assert forall|r: int| left_index < r < left_runs implies end + 1 < #[trigger] run_end(
                left@,
                r,
            ) by {
                assert(run_end(left@, left_index as int) + 1 < run_start(left@, r));
            }
            assert forall|r: int| right_index < r < right_runs implies end + 1 < #[trigger] run_end(
                right@,
                r,
            ) by {
                assert(run_end(right@, right_index as int) + 1 < run_start(right@, r));
            }
            bound = end + 1;
        }
        if left_end < right_end {
            left_index = left_index + 1;
        } else if left_end > right_end {
            right_index = right_index + 1;
        } else {
            left_index = left_index + 1;
            right_index = right_index + 1;
        }
    }
    proof {
        lemma_count_split(both, 0, bound, 0x1_0000);
        lemma_count_none(both, bound, 0x1_0000);
    }
    total
}

pub(crate) fn run_is_subset_of_run(
    left: &[u8],
    left_runs: u16,
    right: &[u8],
    right_runs: u16,
) -> (subset: bool)
    requires
        run_payload_ok(left@, left_runs as int),
        run_payload_ok(right@, right_runs as int),
    ensures
        subset == run_set(left@, left_runs as int).subset_of(run_set(right@, right_runs as int)),
{
    let ghost ls = run_set(left@, left_runs as int);
    let ghost rs = run_set(right@, right_runs as int);
    let left_count: usize = left_runs as usize;
    let right_count: usize = right_runs as usize;
    let mut li: usize = 0;
    let mut ri: usize = 0;
    while li < left_count
        invariant
            run_payload_ok(left@, left_runs as int),
            run_payload_ok(right@, right_runs as int),
            ls == run_set(left@, left_runs as int),
            rs == run_set(right@, right_runs as int),
            left_count == left_runs,
            right_count == right_runs,
            li <= left_count,
            ri <= right_count,
            li < left_count ==> forall|r: int|
                0 <= r < ri ==> #[trigger] run_end(right@, r) < run_end(left@, li as int),
            forall|r: int, i: int|
                0 <= r < li && #[trigger] run_start(left@, r) <= i && i <= run_end(left@, r)
                    ==> #[trigger] rs.contains(i),
        decreases left_count - li,
    {
        let (ls_first, le) = run_bounds(left, li);
        proof {
            lemma_run_member(left@, left_runs as int, li as int);
        }
        while ri < right_count
            invariant_except_break
                ri <= right_count,
            invariant
                run_payload_ok(right@, right_runs as int),
                right_count == right_runs,
                forall|r: int| 0 <= r < ri ==> #[trigger] run_end(right@, r) < le,
            ensures
                ri <= right_count,
                ri < right_count ==> le <= run_end(right@, ri as int),
            decreases right_count - ri,
        {
            let (_, re) = run_bounds(right, ri);
            if re >= le {
                break;
            }
            ri = ri + 1;
        }
        if ri == right_count {
            proof {
                assert(ls.contains(le as int));
                assert(!rs.contains(le as int));
            }
            return false;
        }
        let (rs_first, re) = run_bounds(right, ri);
        if rs_first > ls_first {
            proof {
                assert(ls.contains(ls_first as int));
                // A run that holds the first value of the left run would have to hold its last
                // one too, and lies before the run at `ri`.
                if rs.contains(ls_first as int) {
                    let r = choose|r: int|
                        0 <= r < right_runs && #[trigger] run_start(right@, r) <= ls_first
                            && ls_first <= run_end(right@, r);
                    if r < ri {
                        assert(run_end(right@, r) < le);
                        assert(ls.contains(run_end(right@, r) + 1));
                        if rs.contains(run_end(right@, r) + 1) {
                            let q = choose|q: int|
                                0 <= q < right_runs && #[trigger] run_start(right@, q) <= run_end(
                                    right@,
                                    r,
                                ) + 1 && run_end(right@, r) + 1 <= run_end(right@, q);
                            if q < r {
                                assert(run_end(right@, q) + 1 < run_start(right@, r));
                            } else if r < q {
                                assert(run_end(right@, r) + 1 < run_start(right@, q));
                            }
                        }
                    } else if r > ri {
                        assert(run_end(right@, ri as int) + 1 < run_start(right@, r));
                    }
                }
            }
            return false;
        }
        proof {
            lemma_run_member(right@, right_runs as int, ri as int);
            if li + 1 < left_count {
                assert(run_end(left@, li as int) + 1 < run_start(left@, li + 1));
            }
        }
        li = li + 1;
    }
    true
}

pub(crate) fn run_intersects_run(
    left: &[u8],
    left_runs: u16,
    right: &[u8],
    right_runs: u16,
) -> (meet: bool)
    requires
        run_payload_ok(left@, left_runs as int),
        run_payload_ok(right@, right_runs as int),
    ensures
        meet == !run_set(left@, left_runs as int).disjoint(run_set(right@, right_runs as int)),
{
    let ghost ls = run_set(left@, left_runs as int);
    let ghost rs = run_set(right@, right_runs as int);
    let left_count: usize = left_runs as usize;
    let right_count: usize = right_runs as usize;
    let mut li: usize = 0;
    let mut ri: usize = 0;
    while li < left_count && ri < right_count
        invariant
            run_payload_ok(left@, left_runs as int),
            run_payload_ok(right@, right_runs as int),
            ls == run_set(left@, left_runs as int),
            rs == run_set(right@, right_runs as int),
            left_count == left_runs,
            right_count == right_runs,
            li <= left_count,
            ri <= right_count,
            forall|r: int, i: int|
                0 <= r < li && #[trigger] run_start(left@, r) <= i && i <= run_end(left@, r)
                    ==> !(#[trigger] rs.contains(i)),
            forall|r: int, i: int|
                0 <= r < ri && #[trigger] run_start(right@, r) <= i && i <= run_end(right@, r)
                    ==> !(#[trigger] ls.contains(i)),
        decreases left_count - li + right_count - ri,
    {
        let (l_first, le) = run_bounds(left, li);
        let (r_first, re) = run_bounds(right, ri);
        proof {
            lemma_run_member(left@, left_runs as int, li as int);
            lemma_run_member(right@, right_runs as int, ri as int);
        }
        if le < r_first {
            proof {
                assert forall|i: int| l_first <= i <= le implies !rs.contains(i) by {
                    if rs.contains(i) {
                        let r = choose|r: int|
                            0 <= r < right_runs && #[trigger] run_start(right@, r) <= i && i
                                <= run_end(right@, r);
                        if r > ri {
                            assert(run_end(right@, ri as int) + 1 < run_start(right@, r));
                        }
                        assert(ls.contains(i));
                    }
                }
            }
            li = li + 1;
        } else if re < l_first {
            proof {
                assert forall|i: int| r_first <= i <= re implies !ls.contains(i) by {
                    if ls.contains(i) {
                        let r = choose|r: int|
                            0 <= r < left_runs && #[trigger] run_start(left@, r) <= i && i
                                <= run_end(left@, r);
                        if r > li {
                            assert(run_end(left@, li as int) + 1 < run_start(left@, r));
                        }
                        assert(rs.contains(i));
                    }
                }
            }
            ri = ri + 1;
        } else {
            proof {
                let i = if l_first < r_first {
                    r_first as int
                } else {
                    l_first as int
                };
                assert(ls.contains(i) && rs.contains(i));
            }
            return true;
        }
    }
    false
}

} // verus!
