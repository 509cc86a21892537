//! The members of a set in ascending order.

use vstd::prelude::*;

use crate::bitmap::chunk::{lemma_u32_count, to_u32};
use crate::bitmap::count::{count, lemma_count_split};

verus! {

/// The members of `s` from `lo` on, in ascending order.
pub open spec fn members_from(s: Set<u32>, lo: int) -> Seq<u32>
    decreases 0x1_0000_0000 - lo,
{
    if lo >= 0x1_0000_0000 {
        Seq::empty()
    } else if s.contains(lo as u32) {
        seq![lo as u32] + members_from(s, lo + 1)
    } else {
        members_from(s, lo + 1)
    }
}

/// The members of `s` in ascending order.
pub open spec fn ascending(s: Set<u32>) -> Seq<u32> {
    members_from(s, 0)
}

/// The members of `s` up to and including `v`.
pub open spec fn up_to(s: Set<u32>, v: u32) -> Set<u32> {
    s.filter(|x: u32| x <= v)
}

/// The members of a set as integers.
pub open spec fn to_int(s: Set<u32>) -> Set<int> {
    Set::new(|i: int| 0 <= i < 0x1_0000_0000 && s.contains(i as u32))
}

/// Members below the starting point do not matter.
proof fn lemma_members_same(s: Set<u32>, t: Set<u32>, lo: int)
    requires
        0 <= lo,
        forall|v: u32| lo <= v ==> (s.contains(v) <==> t.contains(v)),
    ensures
        members_from(s, lo) == members_from(t, lo),
    decreases 0x1_0000_0000 - lo,
{
    if lo < 0x1_0000_0000 {
        let v = lo as u32;
        assert(s.contains(v) <==> t.contains(v));
        lemma_members_same(s, t, lo + 1);
    }
}

/// A range without members can be skipped.
proof fn lemma_members_skip(s: Set<u32>, lo: int, hi: int)
    requires
        0 <= lo <= hi <= 0x1_0000_0000,
        forall|v: u32| lo <= v < hi ==> !s.contains(v),
    ensures
        members_from(s, lo) == members_from(s, hi),
    decreases hi - lo,
{
    if lo < hi {
        let v = lo as u32;
        assert(!s.contains(v));
        lemma_members_skip(s, lo + 1, hi);
    }
}

/// The least member comes first, followed by the others.
pub(crate) proof fn lemma_ascending_least(s: Set<u32>, least: u32)
    requires
        s.contains(least),
        forall|v: u32| s.contains(v) ==> least <= v,
    ensures
        ascending(s) == seq![least] + ascending(s.remove(least)),
{
    lemma_members_skip(s, 0, least as int);
    let t = s.remove(least);
    lemma_members_skip(t, 0, least + 1);
    lemma_members_same(s, t, least + 1);
}

/// A set without members has nothing to list.
pub(crate) proof fn lemma_ascending_empty(s: Set<u32>)
    requires
        forall|v: u32| !s.contains(v),
    ensures
        ascending(s).len() == 0,
{
    lemma_members_skip(s, 0, 0x1_0000_0000);
}

/// What the listing from a starting point holds.
proof fn lemma_members_from(s: Set<u32>, lo: int)
    requires
        0 <= lo <= 0x1_0000_0000,
    ensures
        members_from(s, lo).len() == count(to_int(s), lo, 0x1_0000_0000),
        forall|i: int|
            0 <= i < members_from(s, lo).len() ==> lo <= #[trigger] members_from(s, lo)[i]
                && s.contains(members_from(s, lo)[i]),
        forall|i: int, j: int|
            0 <= i < j < members_from(s, lo).len() ==> #[trigger] members_from(s, lo)[i]
                < #[trigger] members_from(s, lo)[j],
        forall|v: u32| lo <= v && s.contains(v) ==> #[trigger] members_from(s, lo).contains(v),
    decreases 0x1_0000_0000 - lo,
{
    let m = members_from(s, lo);
    if lo < 0x1_0000_0000 {
        let head = lo as u32;
        let rest = members_from(s, lo + 1);
        lemma_members_from(s, lo + 1);
        lemma_count_split(to_int(s), lo, lo + 1, 0x1_0000_0000);
        assert(count(to_int(s), lo, lo) == 0);
        assert(to_int(s).contains(lo) <==> s.contains(head));
        if s.contains(head) {
            assert(m == seq![head] + rest);
            assert forall|i: int| 0 <= i < m.len() implies lo <= #[trigger] m[i] && s.contains(
                m[i],
            ) by {
                if i > 0 {
                    assert(m[i] == rest[i - 1]);
                }
            }
            assert forall|i: int, j: int| 0 <= i < j < m.len() implies #[trigger] m[i]
                < #[trigger] m[j] by {
                assert(m[j] == rest[j - 1]);
                if i > 0 {
                    assert(m[i] == rest[i - 1]);
                }
            }
            assert forall|v: u32| lo <= v && s.contains(v) implies #[trigger] m.contains(v) by {
                if v == head {
                    assert(m[0] == v);
                } else {
                    assert(rest.contains(v));
                    let i = choose|i: int| 0 <= i < rest.len() && rest[i] == v;
                    assert(m[i + 1] == v);
                }
            }
        } else {
            assert(m == rest);
            assert forall|v: u32| lo <= v && s.contains(v) implies #[trigger] m.contains(v) by {
                assert(v != head);
                assert(rest.contains(v));
            }
        }
    }
}

/// The listing of a set is strictly increasing and holds exactly its members, each once.
pub proof fn law_ascending(s: Set<u32>)
    ensures
        s.finite(),
        ascending(s).len() == s.len(),
        forall|i: int, j: int|
            0 <= i < j < ascending(s).len() ==> #[trigger] ascending(s)[i]
                < #[trigger] ascending(s)[j],
        forall|v: u32| #[trigger] ascending(s).contains(v) <==> s.contains(v),
{
    lemma_members_from(s, 0);
    lemma_u32_count(to_int(s));
    assert(to_u32(to_int(s)) =~= s);
    let m = ascending(s);
    assert forall|v: u32| #[trigger] m.contains(v) implies s.contains(v) by {
        let i = choose|i: int| 0 <= i < m.len() && m[i] == v;
        assert(s.contains(m[i]));
    }
}

} // verus!
