//! What holds between the operations of a view.

use vstd::prelude::*;
use vstd::set_lib::{
    lemma_set_difference_len, lemma_set_intersect_union_lens, lemma_subset_equality,
};
use vstd::std_specs::cmp::PartialEqSpec;

use crate::bitmap::bitset::bitmap_set;
use crate::bitmap::chunk::{lemma_u32_count, lemma_u32_count_below, to_u32};
use crate::bitmap::container::{payload_len, ContainerKind};
use crate::bitmap::count::{
    count, lemma_count_all, lemma_count_bound, lemma_count_none, lemma_count_split,
};
use crate::bitmap::iter::hint_of;
use crate::bitmap::order::{ascending, law_ascending, to_int, up_to};
use crate::bitmap::owned::RoaringBitmap;
use crate::bitmap::view::{lemma_symmetric_difference, symmetric_difference, RoaringBitmapView};

verus! {

/// Every set of 32-bit values is finite, with at most as many members as there are such values.
pub proof fn law_finite(s: Set<u32>)
    ensures
        s.finite(),
        s.len() <= 0x1_0000_0000,
{
    lemma_u32_count(to_int(s));
    assert(to_u32(to_int(s)) =~= s);
    lemma_count_bound(to_int(s), 0, 0x1_0000_0000);
}

/// The lengths of union and intersection add up to the lengths of both sides; the difference is
/// what the intersection leaves of the left side; the symmetric difference is what the
/// intersection leaves of the union, and the union of the two differences.
pub proof fn law_lengths(a: RoaringBitmapView, b: RoaringBitmapView)
    ensures
        a@.union(b@).len() + a@.intersect(b@).len() == a@.len() + b@.len(),
        a@.difference(b@).len() + a@.intersect(b@).len() == a@.len(),
        symmetric_difference(a@, b@).len() + a@.intersect(b@).len() == a@.union(b@).len(),
        symmetric_difference(a@, b@).len() == a@.difference(b@).len() + b@.difference(a@).len(),
{
    law_finite(a@);
    law_finite(b@);
    lemma_set_intersect_union_lens(a@, b@);
    lemma_set_difference_len(a@, b@);
    lemma_set_difference_len(b@, a@);
    assert(a@.intersect(b@) =~= b@.intersect(a@));
    lemma_symmetric_difference(a@, b@);
}

/// Intersection, union and symmetric difference do not depend on the order of the two sides.
pub proof fn law_symmetry(a: RoaringBitmapView, b: RoaringBitmapView)
    ensures
        a@.intersect(b@).len() == b@.intersect(a@).len(),
        a@.union(b@).len() == b@.union(a@).len(),
        symmetric_difference(a@, b@).len() == symmetric_difference(b@, a@).len(),
        a@.disjoint(b@) == b@.disjoint(a@),
{
    assert(a@.intersect(b@) =~= b@.intersect(a@));
    assert(a@.union(b@) =~= b@.union(a@));
    assert(symmetric_difference(a@, b@) =~= symmetric_difference(b@, a@));
}

/// A view is a subset of another exactly when the intersection has all its values, and shares a
/// value with it exactly when the intersection has one.
pub proof fn law_predicates(a: RoaringBitmapView, b: RoaringBitmapView)
    ensures
        a@.subset_of(b@) <==> a@.intersect(b@).len() == a@.len(),
        a@.subset_of(b@) <==> a@.difference(b@).len() == 0,
        a@.disjoint(b@) <==> a@.intersect(b@).len() == 0,
        a@ == b@ <==> symmetric_difference(a@, b@).len() == 0,
{
    law_finite(a@);
    law_finite(b@);
    law_lengths(a, b);
    let both = a@.intersect(b@);
    law_finite(both);
    if a@.subset_of(b@) {
        assert(both =~= a@);
    }
    if both.len() == a@.len() {
        lemma_subset_equality(both, a@);
        assert forall|v: u32| a@.contains(v) implies b@.contains(v) by {
            assert(both.contains(v));
        }
    }
    if both.len() == 0 {
        both.lemma_len0_is_empty();
        assert forall|v: u32| a@.contains(v) implies !b@.contains(v) by {
            assert(!both.contains(v));
        }
    }
    if a@.disjoint(b@) {
        assert(both =~= Set::<u32>::empty());
    }
    let d = symmetric_difference(a@, b@);
    law_finite(d);
    if a@ == b@ {
        assert(d =~= Set::<u32>::empty());
    }
    if d.len() == 0 {
        d.lemma_len0_is_empty();
        assert forall|v: u32| a@.contains(v) <==> b@.contains(v) by {
            assert(!d.contains(v));
        }
        assert(a@ =~= b@);
    }
}

/// Equality of views is an equivalence.
pub proof fn law_equivalence(a: RoaringBitmapView, b: RoaringBitmapView, c: RoaringBitmapView)
    ensures
        a.eq_spec(&a),
        a.eq_spec(&b) == b.eq_spec(&a),
        a.eq_spec(&b) && b.eq_spec(&c) ==> a.eq_spec(&c),
{
}

/// Views are equal exactly when each is a subset of the other, and, where they have the same
/// length, already when one is a subset of the other.
pub proof fn law_equality(a: RoaringBitmapView, b: RoaringBitmapView)
    ensures
        a.eq_spec(&b) <==> a@.subset_of(b@) && b@.subset_of(a@),
        a@.len() == b@.len() ==> (a.eq_spec(&b) <==> a@.subset_of(b@)),
{
    law_finite(a@);
    law_finite(b@);
    if a@.subset_of(b@) && b@.subset_of(a@) {
        assert(a@ =~= b@);
    }
    if a@.len() == b@.len() && a@.subset_of(b@) {
        lemma_subset_equality(a@, b@);
    }
}

proof fn lemma_up_to(s: Set<u32>, v: u32)
    ensures
        up_to(s, v).len() == count(to_int(s), 0, v + 1),
{
    let t = to_int(s);
    lemma_u32_count_below(t, v + 1);
    assert(up_to(s, v) =~= to_u32(t).filter(|x: u32| x < v + 1));
}

/// Owned bitmaps that are read from two views are equal exactly when the views are.
pub proof fn law_owned(
    a: RoaringBitmapView,
    b: RoaringBitmapView,
    x: RoaringBitmap,
    y: RoaringBitmap,
)
    requires
        x@ == a@,
        y@ == b@,
    ensures
        x.eq_spec(&y) == a.eq_spec(&b),
{
}

/// An owned bitmap has the containers of the view that it was read from: the same keys, and
/// values, bits or as many intervals as there are runs, as the kind of the container in the view
/// says.
pub proof fn law_shape(bitmap: RoaringBitmap, view: RoaringBitmapView, i: int)
    requires
        bitmap.shaped_as(view),
        0 <= i < view.container_count(),
    ensures
        bitmap.container_count() == view.container_count(),
        bitmap.key(i) == view.key(i),
        match view.kind(i) {
            ContainerKind::Array => bitmap.is_array(i),
            ContainerKind::Bitmap => bitmap.is_bitmap(i),
            ContainerKind::Run { runs } => bitmap.is_runs(i, runs as int),
        },
{
    assert(bitmap.containers@[i].key == view.key(i));
}

/// The rank never falls, grows by at most one from a value to the next, by one exactly where the
/// next is in the bitmap, and ends at the length.
pub proof fn law_rank(view: RoaringBitmapView, v: u32, w: u32)
    requires
        v <= w,
    ensures
        up_to(view@, v).len() <= up_to(view@, w).len() <= view@.len(),
        up_to(view@, u32::MAX).len() == view@.len(),
        w == v + 1 ==> up_to(view@, w).len() == up_to(view@, v).len() + if view@.contains(w) {
            1nat
        } else {
            0nat
        },
        up_to(view@, 0).len() == if view@.contains(0) {
            1nat
        } else {
            0nat
        },
{
    let s = view@;
    let t = to_int(s);
    lemma_up_to(s, v);
    lemma_up_to(s, w);
    lemma_up_to(s, 0);
    lemma_count_split(t, 0, v + 1, w + 1);
    lemma_count_split(t, 0, w + 1, 0x1_0000_0000);
    lemma_u32_count(t);
    assert(to_u32(t) =~= s);
    assert(up_to(s, u32::MAX) =~= s);
    assert(count(t, v + 1, v + 1) == 0);
    assert(t.contains(w as int) <==> s.contains(w));
    assert(count(t, 0, 0) == 0);
    assert(t.contains(0) <==> s.contains(0));
}

/// The first value that iteration gives is the smallest, the last is the largest, and the rank of
/// each is its position, counted from one.
pub proof fn law_iteration_ranks(view: RoaringBitmapView, i: int)
    requires
        0 <= i < ascending(view@).len(),
    ensures
        view@.contains(ascending(view@)[i]),
        up_to(view@, ascending(view@)[i]).len() == i + 1,
        forall|v: u32|
            view@.contains(v) ==> ascending(view@)[0] <= v <= #[trigger] ascending(view@).last(),
{
    let s = view@;
    let m = ascending(s);
    law_ascending(s);
    assert(m.contains(m[i]));
    lemma_rank_at(s, i);
    assert forall|v: u32| s.contains(v) implies m[0] <= v <= m.last() by {
        assert(m.contains(v));
        let j = choose|j: int| 0 <= j < m.len() && m[j] == v;
        if 0 < j {
            assert(m[0] < m[j]);
        }
        if j < m.len() - 1 {
            assert(m[j] < m[m.len() - 1]);
        }
    }
}

proof fn lemma_rank_at(s: Set<u32>, i: int)
    requires
        0 <= i < ascending(s).len(),
    ensures
        up_to(s, ascending(s)[i]).len() == i + 1,
    decreases i,
{
    let m = ascending(s);
    law_ascending(s);
    law_finite(up_to(s, m[i]));
    assert(m.contains(m[i]));
    if i == 0 {
        assert(up_to(s, m[0]) =~= Set::<u32>::empty().insert(m[0])) by {
            assert forall|v: u32| up_to(s, m[0]).contains(v) implies v == m[0] by {
                assert(m.contains(v));
                let j = choose|j: int| 0 <= j < m.len() && m[j] == v;
                if 0 < j {
                    assert(m[0] < m[j]);
                }
            }
        }
    } else {
        lemma_rank_at(s, i - 1);
        let below = up_to(s, m[i - 1]);
        law_finite(below);
        assert(m[i - 1] < m[i]);
        assert(up_to(s, m[i]) =~= below.insert(m[i])) by {
            assert forall|v: u32| up_to(s, m[i]).contains(v) implies below.insert(m[i]).contains(
                v,
            ) by {
                assert(m.contains(v));
                let j = choose|j: int| 0 <= j < m.len() && m[j] == v;
                if j > i {
                    assert(m[i] < m[j]);
                } else if j < i - 1 {
                    assert(m[j] < m[i - 1]);
                }
            }
        }
    }
}

/// The size hint falls by one with each value that is taken, as long as `usize` can hold it.
pub proof fn law_size_hint(left: Seq<u32>)
    requires
        0 < left.len() <= usize::MAX,
    ensures
        hint_of(left.skip(1)) == hint_of(left) - 1,
{
}

/// The number of values in the first `i` containers of a view.
pub open spec fn cardinality_sum(view: RoaringBitmapView, i: int) -> int
    decreases i,
{
    if i <= 0 {
        0
    } else {
        cardinality_sum(view, i - 1) + view.cardinality(i - 1)
    }
}

/// The container keys of a view are increasing, every container has between 1 and 65536 values,
/// and every payload lies inside the borrowed bytes. There is one prefix sum more than there are
/// containers: sum `i` is the number of values before container `i`, and the last is the length.
pub proof fn law_tables(view: RoaringBitmapView)
    requires
        view.wf(),
    ensures
        forall|i: int, j: int|
            0 <= i < j < view.container_count() ==> #[trigger] view.key(i) < #[trigger] view.key(j),
        forall|i: int|
            0 <= i < view.container_count() ==> 1 <= #[trigger] view.cardinality(i) <= 0x1_0000,
        forall|i: int|
            0 <= i < view.container_count() ==> 0 <= #[trigger] view.payload_start(i)
                && view.payload_start(i) + payload_len(view.kind(i), view.cardinality(i))
                <= view.borrowed().len(),
        view.prefix_sums().len() == view.container_count() + 1,
        forall|i: int|
            0 <= i <= view.container_count() ==> #[trigger] view.prefix_sums()[i]
                == cardinality_sum(view, i),
        view.prefix_sums().last() == view@.len(),
{
    view.lemma_len();
    assert forall|i: int, j: int| 0 <= i < j < view.container_count() implies #[trigger] view.key(i)
        < #[trigger] view.key(j) by {
        assert(view.containers@[i].key < view.containers@[j].key);
    }
    assert forall|i: int| 0 <= i < view.container_count() implies 1 <= #[trigger] view.cardinality(
        i,
    ) <= 0x1_0000 by {
        view.containers@[i].lemma_wf(view.bytes@);
    }
    assert forall|i: int| 0 <= i < view.container_count() implies 0 <= #[trigger] view.payload_start(
        i,
    ) && view.payload_start(i) + payload_len(view.kind(i), view.cardinality(i))
        <= view.borrowed().len() by {
        view.containers@[i].lemma_wf(view.bytes@);
    }
    assert forall|i: int| 0 <= i <= view.container_count() implies #[trigger] view.prefix_sums()[i]
        == cardinality_sum(view, i) by {
        lemma_prefix_sum(view, i);
    }
}

proof fn lemma_prefix_sum(view: RoaringBitmapView, i: int)
    requires
        view.wf(),
        0 <= i <= view.container_count(),
    ensures
        view.prefix_sums()[i] == cardinality_sum(view, i),
    decreases i,
{
    if i > 0 {
        lemma_prefix_sum(view, i - 1);
        assert(view.prefix_cardinalities@[i - 1 + 1] == view.prefix_cardinalities@[i - 1]
            + view.containers@[i - 1].cardinality);
    }
}

/// A range counts no more values of a bitmap payload than its own length, exactly that many when
/// all of it are values, and at least one when one of it is. The count is the difference of the
/// counts up to its ends.
pub proof fn law_range_count(p: Seq<u8>, start: u16, end: u16)
    requires
        start <= end,
    ensures
        count(bitmap_set(p), start as int, end + 1) <= end - start + 1,
        count(bitmap_set(p), start as int, end + 1) == end - start + 1 <==> forall|i: int|
            start <= i <= end ==> bitmap_set(p).contains(i),
        count(bitmap_set(p), start as int, end + 1) > 0 <==> exists|i: int|
            start <= i <= end && bitmap_set(p).contains(i),
        count(bitmap_set(p), start as int, end + 1) == count(bitmap_set(p), 0, end + 1) - count(
            bitmap_set(p),
            0,
            start as int,
        ),
{
    let s = bitmap_set(p);
    let (lo, hi) = (start as int, end + 1);
    lemma_count_bound(s, lo, hi);
    lemma_count_split(s, 0, lo, hi);
    if forall|i: int| start <= i <= end ==> s.contains(i) {
        lemma_count_all(s, lo, hi);
    } else {
        let i = choose|i: int| start <= i <= end && !s.contains(i);
        lemma_count_split(s, lo, i, hi);
        lemma_count_split(s, i, i + 1, hi);
        lemma_count_bound(s, lo, i);
        lemma_count_bound(s, i + 1, hi);
        assert(count(s, i, i) == 0);
    }
    if exists|i: int| start <= i <= end && s.contains(i) {
        let i = choose|i: int| start <= i <= end && s.contains(i);
        lemma_count_split(s, lo, i, hi);
        lemma_count_split(s, i, i + 1, hi);
        assert(count(s, i, i) == 0);
    } else {
        lemma_count_none(s, lo, hi);
    }
}

} // verus!
