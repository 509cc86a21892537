//! Counting the members of a set of integers that lie in a range.

use vstd::prelude::*;

verus! {

/// The number of members of `s` in `lo..hi`.
pub open spec fn count(s: Set<int>, lo: int, hi: int) -> nat
    decreases hi - lo,
{
    if lo >= hi {
        0
    } else {
        count(s, lo, hi - 1) + if s.contains(hi - 1) {
            1nat
        } else {
            0nat
        }
    }
}

/// A range can be counted in two parts.
pub proof fn lemma_count_split(s: Set<int>, lo: int, mid: int, hi: int)
    requires
        lo <= mid <= hi,
    ensures
        count(s, lo, hi) == count(s, lo, mid) + count(s, mid, hi),
    decreases hi - mid,
{
    if mid < hi {
        lemma_count_split(s, lo, mid, hi - 1);
    }
}

/// Sets that agree on a range have the same count there.
pub proof fn lemma_count_same(s: Set<int>, t: Set<int>, lo: int, hi: int)
    requires
        forall|i: int| lo <= i < hi ==> (s.contains(i) <==> t.contains(i)),
    ensures
        count(s, lo, hi) == count(t, lo, hi),
    decreases hi - lo,
{
    if lo < hi {
        lemma_count_same(s, t, lo, hi - 1);
    }
}

/// Sets that agree up to a displacement have the same count on the displaced ranges.
pub proof fn lemma_count_shift(s: Set<int>, t: Set<int>, lo: int, hi: int, by: int)
    requires
        forall|i: int| lo <= i < hi ==> (#[trigger] s.contains(i) <==> t.contains(i + by)),
    ensures
        count(s, lo, hi) == count(t, lo + by, hi + by),
    decreases hi - lo,
{
    if lo < hi {
        lemma_count_shift(s, t, lo, hi - 1, by);
        assert(s.contains(hi - 1) <==> t.contains(hi - 1 + by));
    }
}

/// A range without members counts zero.
pub proof fn lemma_count_none(s: Set<int>, lo: int, hi: int)
    requires
        forall|i: int| lo <= i < hi ==> !s.contains(i),
    ensures
        count(s, lo, hi) == 0,
    decreases hi - lo,
{
    if lo < hi {
        lemma_count_none(s, lo, hi - 1);
    }
}

/// A range of members counts its own length.
pub proof fn lemma_count_all(s: Set<int>, lo: int, hi: int)
    requires
        lo <= hi,
        forall|i: int| lo <= i < hi ==> s.contains(i),
    ensures
        count(s, lo, hi) == hi - lo,
    decreases hi - lo,
{
    if lo < hi {
        lemma_count_all(s, lo, hi - 1);
    }
}

/// No range counts more than its length.
pub proof fn lemma_count_bound(s: Set<int>, lo: int, hi: int)
    requires
        lo <= hi,
    ensures
        count(s, lo, hi) <= hi - lo,
    decreases hi - lo,
{
    if lo < hi {
        lemma_count_bound(s, lo, hi - 1);
    }
}

/// Of two sets, one inside the other on a range, the inner one counts no more.
pub proof fn lemma_count_subset(s: Set<int>, t: Set<int>, lo: int, hi: int)
    requires
        forall|i: int| lo <= i < hi && s.contains(i) ==> t.contains(i),
    ensures
        count(s, lo, hi) <= count(t, lo, hi),
    decreases hi - lo,
{
    if lo < hi {
        lemma_count_subset(s, t, lo, hi - 1);
    }
}

/// Taking one member out lowers the count by one.
pub proof fn lemma_count_remove(s: Set<int>, lo: int, hi: int, i: int)
    requires
        lo <= i < hi,
        s.contains(i),
    ensures
        count(s, lo, hi) == count(s.remove(i), lo, hi) + 1,
{
    let t = s.remove(i);
    lemma_count_split(s, lo, i, hi);
    lemma_count_split(s, i, i + 1, hi);
    lemma_count_split(t, lo, i, hi);
    lemma_count_split(t, i, i + 1, hi);
    lemma_count_same(s, t, lo, i);
    lemma_count_same(s, t, i + 1, hi);
    assert(count(s, i, i) == 0 && count(t, i, i) == 0);
}

} // verus!
