//! Sets of 32-bit values, divided by their upper 16 bits.

use vstd::prelude::*;

use crate::bitmap::count::{count, lemma_count_none, lemma_count_shift, lemma_count_split};

verus! {

/// The values that share the upper 16 bits `key`; `values` holds their lower 16 bits.
pub struct Chunk {
    pub key: int,
    pub values: Set<int>,
}

/// A set has a member.
pub open spec fn inhabited(s: Set<int>) -> bool {
    exists|v: int| s.contains(v)
}

/// A set has 16-bit members only.
pub open spec fn within_u16(s: Set<int>) -> bool {
    forall|v: int| s.contains(v) ==> 0 <= v < 0x1_0000
}

/// The keys are increasing 16-bit values, and each chunk holds 16-bit values, at least one.
pub open spec fn chunks_ok(c: Seq<Chunk>) -> bool {
    &&& forall|i: int| 0 <= i < c.len() ==> 0 <= #[trigger] c[i].key < 0x1_0000
    &&& forall|i: int, j: int| 0 <= i < j < c.len() ==> #[trigger] c[i].key < #[trigger] c[j].key
    &&& forall|i: int| 0 <= i < c.len() ==> within_u16(#[trigger] c[i].values)
    &&& forall|i: int| 0 <= i < c.len() ==> inhabited(#[trigger] c[i].values)
}

/// Chunk `i` holds the value `v`.
pub open spec fn chunk_holds(c: Seq<Chunk>, i: int, v: int) -> bool {
    c[i].key == v / 0x1_0000 && c[i].values.contains(v % 0x1_0000)
}

/// The values of all chunks, as integers.
pub open spec fn chunk_values(c: Seq<Chunk>) -> Set<int> {
    Set::new(|v: int| exists|i: int| 0 <= i < c.len() && #[trigger] chunk_holds(c, i, v))
}

/// The 32-bit members of a set of integers.
pub open spec fn to_u32(s: Set<int>) -> Set<u32> {
    Set::new(|v: u32| s.contains(v as int))
}

/// The set that a sequence of chunks stands for.
pub open spec fn chunk_set(c: Seq<Chunk>) -> Set<u32> {
    to_u32(chunk_values(c))
}

/// The lower 16 bits of the members of `s` whose upper bits are `key`.
pub open spec fn block(s: Set<int>, key: int) -> Set<int> {
    Set::new(|k: int| 0 <= k < 0x1_0000 && s.contains(0x1_0000 * key + k))
}

/// The keys before position `at` lie below `bound`, the others do not.
pub open spec fn chunk_split(c: Seq<Chunk>, at: int, bound: int) -> bool {
    &&& 0 <= at <= c.len()
    &&& forall|i: int| 0 <= i < at ==> #[trigger] c[i].key < bound
    &&& forall|i: int| at <= i < c.len() ==> bound <= #[trigger] c[i].key
}

/// The block of a key that a chunk has is what the chunk holds.
pub(crate) proof fn lemma_block_present(c: Seq<Chunk>, i: int)
    requires
        chunks_ok(c),
        0 <= i < c.len(),
    ensures
        block(chunk_values(c), c[i].key) =~= c[i].values,
{
    let b = block(chunk_values(c), c[i].key);
    assert forall|k: int| b.contains(k) <==> c[i].values.contains(k) by {
        let v = 0x1_0000 * c[i].key + k;
        if 0 <= k < 0x1_0000 {
            assert(v / 0x1_0000 == c[i].key && v % 0x1_0000 == k);
            if c[i].values.contains(k) {
                assert(chunk_holds(c, i, v));
            }
            if chunk_values(c).contains(v) {
                let j = choose|j: int| 0 <= j < c.len() && #[trigger] chunk_holds(c, j, v);
                if i < j {
                    assert(c[i].key < c[j].key);
                } else if j < i {
                    assert(c[j].key < c[i].key);
                }
            }
        }
    }
}

/// The block of a key that no chunk has is empty.
pub(crate) proof fn lemma_block_absent(c: Seq<Chunk>, at: int, bound: int, key: int)
    requires
        chunks_ok(c),
        chunk_split(c, at, bound),
        bound <= key,
        at < c.len() ==> key < c[at].key,
    ensures
        block(chunk_values(c), key) =~= Set::<int>::empty(),
{
    let b = block(chunk_values(c), key);
    assert forall|k: int| !b.contains(k) by {
        let v = 0x1_0000 * key + k;
        if 0 <= k < 0x1_0000 && chunk_values(c).contains(v) {
            assert(v / 0x1_0000 == key && v % 0x1_0000 == k);
            let j = choose|j: int| 0 <= j < c.len() && #[trigger] chunk_holds(c, j, v);
            if at < j {
                assert(c[at].key < c[j].key);
            }
        }
    }
}

/// A set is counted block by block.
pub(crate) proof fn lemma_count_block(s: Set<int>, key: int)
    ensures
        count(s, 0x1_0000 * key, 0x1_0000 * (key + 1)) == count(block(s, key), 0, 0x1_0000),
{
    assert forall|k: int| 0 <= k < 0x1_0000 implies (#[trigger] block(s, key).contains(k)
        <==> s.contains(k + 0x1_0000 * key)) by {}
    lemma_count_shift(block(s, key), s, 0, 0x1_0000, 0x1_0000 * key);
}

/// Moving a split past one chunk adds the values of that chunk, and no others, to what lies below.
pub(crate) proof fn lemma_chunk_step(c: Seq<Chunk>, at: int, bound: int, s: Set<int>)
    requires
        chunks_ok(c),
        chunk_split(c, at, bound),
        at < c.len(),
        0 <= bound,
    ensures
        chunk_split(c, at + 1, c[at].key + 1),
        count(chunk_values(c).intersect(s), 0, 0x1_0000 * (c[at].key + 1)) == count(
            chunk_values(c).intersect(s),
            0,
            0x1_0000 * bound,
        ) + count(c[at].values.intersect(block(s, c[at].key)), 0, 0x1_0000),
{
    let key = c[at].key;
    let both = chunk_values(c).intersect(s);
    lemma_count_split(both, 0, 0x1_0000 * bound, 0x1_0000 * (key + 1));
    lemma_count_split(both, 0x1_0000 * bound, 0x1_0000 * key, 0x1_0000 * (key + 1));
    assert forall|v: int| 0x1_0000 * bound <= v < 0x1_0000 * key implies !both.contains(v) by {
        if chunk_values(c).contains(v) {
            let j = choose|j: int| 0 <= j < c.len() && #[trigger] chunk_holds(c, j, v);
            assert(bound <= v / 0x1_0000 < key);
            if at < j {
                assert(c[at].key < c[j].key);
            }
        }
    }
    lemma_count_none(both, 0x1_0000 * bound, 0x1_0000 * key);
    lemma_count_block(both, key);
    lemma_block_present(c, at);
    assert(block(both, key) =~= block(chunk_values(c), key).intersect(block(s, key)));
}

/// A split past the last chunk leaves nothing above its bound.
pub(crate) proof fn lemma_chunk_done(c: Seq<Chunk>, bound: int, s: Set<int>)
    requires
        chunk_split(c, c.len() as int, bound),
        0 <= bound <= 0x1_0000,
    ensures
        count(chunk_values(c).intersect(s), 0, 0x1_0000_0000) == count(
            chunk_values(c).intersect(s),
            0,
            0x1_0000 * bound,
        ),
{
    let both = chunk_values(c).intersect(s);
    lemma_count_split(both, 0, 0x1_0000 * bound, 0x1_0000_0000);
    assert forall|v: int| 0x1_0000 * bound <= v < 0x1_0000_0000 implies !both.contains(v) by {
        if chunk_values(c).contains(v) {
            let j = choose|j: int| 0 <= j < c.len() && #[trigger] chunk_holds(c, j, v);
            assert(c[j].key < bound);
        }
    }
    lemma_count_none(both, 0x1_0000 * bound, 0x1_0000_0000);
}

/// The 32-bit members below `n` are as many as the count below `n`.
pub(crate) proof fn lemma_u32_count_below(s: Set<int>, n: int)
    requires
        0 <= n <= 0x1_0000_0000,
    ensures
        to_u32(s).filter(|v: u32| v < n).finite(),
        to_u32(s).filter(|v: u32| v < n).len() == count(s, 0, n),
    decreases n,
{
    let t = to_u32(s).filter(|v: u32| v < n);
    if n == 0 {
        assert(t =~= Set::<u32>::empty());
    } else {
        let below = to_u32(s).filter(|v: u32| v < n - 1);
        lemma_u32_count_below(s, n - 1);
        if s.contains(n - 1) {
            assert(t =~= below.insert((n - 1) as u32));
        } else {
            assert(t =~= below);
        }
    }
}

/// The 32-bit members are as many as the count.
pub(crate) proof fn lemma_u32_count(s: Set<int>)
    ensures
        to_u32(s).finite(),
        to_u32(s).len() == count(s, 0, 0x1_0000_0000),
{
    lemma_u32_count_below(s, 0x1_0000_0000);
    assert(to_u32(s).filter(|v: u32| v < 0x1_0000_0000) =~= to_u32(s));
}

} // verus!
