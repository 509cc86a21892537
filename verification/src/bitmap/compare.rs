//! Comparing two views.

use vstd::prelude::*;
use vstd::set_lib::lemma_subset_equality;

use crate::bitmap::canonical::{law_chunks_canonical, law_payload_canonical};
use crate::bitmap::chunk::{
    block, chunk_holds, chunk_set, chunk_split, chunk_values, chunks_ok, lemma_block_absent,
    lemma_block_present, Chunk,
};
use crate::bitmap::count::lemma_count_subset;
use crate::bitmap::entry::ContainerEntry;
use crate::bitmap::view::RoaringBitmapView;

verus! {

/// Chunks lie in a set when each of them lies in the block of its key.
proof fn lemma_subset_by_blocks(c: Seq<Chunk>, d: Seq<Chunk>)
    requires
        chunks_ok(c),
        chunks_ok(d),
        forall|i: int|
            0 <= i < c.len() ==> #[trigger] c[i].values.subset_of(
                block(chunk_values(d), c[i].key),
            ),
    ensures
        chunk_set(c).subset_of(chunk_set(d)),
{
    assert forall|v: u32| chunk_set(c).contains(v) implies chunk_set(d).contains(v) by {
        let i = choose|i: int| 0 <= i < c.len() && #[trigger] chunk_holds(c, i, v as int);
        assert(c[i].values.subset_of(block(chunk_values(d), c[i].key)));
        assert(block(chunk_values(d), c[i].key).contains(v as int % 0x1_0000));
    }
}

/// Chunks meet a set when one of them meets the block of its key.
proof fn lemma_disjoint_by_blocks(c: Seq<Chunk>, d: Seq<Chunk>)
    requires
        chunks_ok(c),
        chunks_ok(d),
        forall|i: int|
            0 <= i < c.len() ==> #[trigger] c[i].values.disjoint(block(chunk_values(d), c[i].key)),
    ensures
        chunk_set(c).disjoint(chunk_set(d)),
{
    assert forall|v: u32| chunk_set(c).contains(v) implies !chunk_set(d).contains(v) by {
        let i = choose|i: int| 0 <= i < c.len() && #[trigger] chunk_holds(c, i, v as int);
        assert(c[i].values.disjoint(block(chunk_values(d), c[i].key)));
        assert(!block(chunk_values(d), c[i].key).contains(v as int % 0x1_0000));
    }
}

/// A chunk's value, and whether it belongs to another set.
proof fn lemma_value_of_chunk(c: Seq<Chunk>, d: Seq<Chunk>, i: int, k: int) -> (v: u32)
    requires
        chunks_ok(c),
        0 <= i < c.len(),
        c[i].values.contains(k),
    ensures
        chunk_set(c).contains(v),
        chunk_set(d).contains(v) <==> block(chunk_values(d), c[i].key).contains(k),
{
    let v = 0x1_0000 * c[i].key + k;
    assert(crate::bitmap::chunk::within_u16(c[i].values));
    assert(v / 0x1_0000 == c[i].key && v % 0x1_0000 == k);
    assert(chunk_holds(c, i, v));
    v as u32
}

impl<'a> RoaringBitmapView<'a> {
    /// Returns `true` if every value in this view is also contained in `other`.
    pub fn is_subset(&self, other: &Self) -> (subset: bool)
        ensures
            subset == self@.subset_of(other@),
    {
        let ghost c = self.chunks();
        let ghost d = other.chunks();
        proof {
            use_type_invariant(self);
            use_type_invariant(other);
            self.lemma_chunks();
            other.lemma_chunks();
            self.lemma_len();
            other.lemma_len();
        }
        // A subset never has more values than its superset.
        if self.len > other.len {
            proof {
                if self@.subset_of(other@) {
                    vstd::set_lib::lemma_len_subset(self@, other@);
                }
            }
            return false;
        }
        let mut lhs: usize = 0;
        let mut rhs: usize = 0;
        let ghost mut bound: int = 0;
        while lhs < self.containers.len()
            invariant
                self.wf(),
                other.wf(),
                c == self.chunks(),
                d == other.chunks(),
                chunks_ok(c),
                chunks_ok(d),
                0 <= bound <= 0x1_0000,
                chunk_split(c, lhs as int, bound),
                chunk_split(d, rhs as int, bound),
                forall|i: int|
                    0 <= i < lhs ==> #[trigger] c[i].values.subset_of(
                        block(chunk_values(d), c[i].key),
                    ),
            decreases self.containers@.len() - lhs + other.containers@.len() - rhs,
        {
            let left: &ContainerEntry = &self.containers[lhs];
            let ghost theirs = block(chunk_values(d), left.key as int);
            proof {
                left.lemma_wf(self.bytes@);
                assert(c[lhs as int].key == left.key);
            }
            if rhs >= other.containers.len() {
                proof {
                    lemma_block_absent(d, rhs as int, bound, left.key as int);
                    let k = choose|k: int| c[lhs as int].values.contains(k);
                    let v = lemma_value_of_chunk(c, d, lhs as int, k);
                }
                return false;
            }
            let right: &ContainerEntry = &other.containers[rhs];
            assert(c[lhs as int].key == left.key && d[rhs as int].key == right.key);
            if left.key < right.key {
                proof {
                    lemma_block_absent(d, rhs as int, bound, left.key as int);
                    let k = choose|k: int| c[lhs as int].values.contains(k);
                    let v = lemma_value_of_chunk(c, d, lhs as int, k);
                }
                return false;
            } else if left.key > right.key {
                proof {
                    bound = right.key + 1;
                }
                rhs = rhs + 1;
            } else {
                proof {
                    right.lemma_wf(other.bytes@);
                    lemma_block_present(d, rhs as int);
                    let mine = c[lhs as int].values;
                    if !mine.subset_of(theirs) {
                        let k = choose|k: int| mine.contains(k) && !theirs.contains(k);
                        let v = lemma_value_of_chunk(c, d, lhs as int, k);
                    } else {
                        lemma_count_subset(mine, theirs, 0, 0x1_0000);
                    }
                }
                // The same for two containers.
                if left.cardinality > right.cardinality {
                    return false;
                }
                if !left.is_subset(self.bytes, right, other.bytes) {
                    return false;
                }
                proof {
                    bound = left.key + 1;
                }
                lhs = lhs + 1;
                rhs = rhs + 1;
            }
        }
        proof {
            lemma_subset_by_blocks(c, d);
        }
        true
    }

    /// Returns `true` if this view and `other` share at least one value.
    ///
    /// Stops at the first container pair that overlaps.
    pub fn intersects(&self, other: &Self) -> (meet: bool)
        ensures
            meet == !self@.disjoint(other@),
    {
        let ghost c = self.chunks();
        let ghost d = other.chunks();
        proof {
            use_type_invariant(self);
            use_type_invariant(other);
            self.lemma_chunks();
            other.lemma_chunks();
        }
        if self.containers.len() == 0 || other.containers.len() == 0 {
            return false;
        }
        // Key ranges that do not overlap need no payload reads.
        let self_first: u16 = self.containers[0].key;
        let self_last: u16 = self.containers[self.containers.len() - 1].key;
        let other_first: u16 = other.containers[0].key;
        let other_last: u16 = other.containers[other.containers.len() - 1].key;
        if self_last < other_first || other_last < self_first {
            proof {
                assert forall|i: int| 0 <= i < c.len() implies #[trigger] c[i].values.disjoint(
                    block(chunk_values(d), c[i].key),
                ) by {
                    if i < c.len() - 1 {
                        assert(c[i].key < c[c.len() - 1].key);
                    }
                    if 0 < i {
                        assert(c[0].key < c[i].key);
                    }
                    if self_last < other_first {
                        assert(chunk_split(d, 0, 0));
                        lemma_block_absent(d, 0, 0, c[i].key);
                    } else {
                        assert forall|j: int| 0 <= j < d.len() implies #[trigger] d[j].key
                            < self_first by {
                            if j < d.len() - 1 {
                                assert(d[j].key < d[d.len() - 1].key);
                            }
                        }
                        assert(chunk_split(d, d.len() as int, self_first as int));
                        lemma_block_absent(d, d.len() as int, self_first as int, c[i].key);
                    }
                }
                lemma_disjoint_by_blocks(c, d);
            }
            return false;
        }
        let mut lhs: usize = 0;
        let mut rhs: usize = 0;
        let ghost mut bound: int = 0;
        while lhs < self.containers.len() && rhs < other.containers.len()
            invariant
                self.wf(),
                other.wf(),
                c == self.chunks(),
                d == other.chunks(),
                chunks_ok(c),
                chunks_ok(d),
                0 <= bound <= 0x1_0000,
                chunk_split(c, lhs as int, bound),
                chunk_split(d, rhs as int, bound),
                forall|i: int|
                    0 <= i < lhs ==> #[trigger] c[i].values.disjoint(
                        block(chunk_values(d), c[i].key),
                    ),
            decreases self.containers@.len() - lhs + other.containers@.len() - rhs,
        {
            let left: &ContainerEntry = &self.containers[lhs];
            let right: &ContainerEntry = &other.containers[rhs];
            assert(c[lhs as int].key == left.key && d[rhs as int].key == right.key);
            if left.key < right.key {
                proof {
                    lemma_block_absent(d, rhs as int, bound, left.key as int);
                    bound = left.key + 1;
                }
                lhs = lhs + 1;
            } else if left.key > right.key {
                proof {
                    bound = right.key + 1;
                }
                rhs = rhs + 1;
            } else {
                proof {
                    lemma_block_present(d, rhs as int);
                }
                if left.intersects(self.bytes, right, other.bytes) {
                    proof {
                        let mine = c[lhs as int].values;
                        let theirs = d[rhs as int].values;
                        let k = choose|k: int| mine.contains(k) && theirs.contains(k);
                        let v = lemma_value_of_chunk(c, d, lhs as int, k);
                    }
                    return true;
                }
                proof {
                    bound = left.key + 1;
                }
                lhs = lhs + 1;
                rhs = rhs + 1;
            }
        }
        proof {
            assert forall|i: int| 0 <= i < c.len() implies #[trigger] c[i].values.disjoint(
                block(chunk_values(d), c[i].key),
            ) by {
                if lhs <= i {
                    lemma_block_absent(d, rhs as int, bound, c[i].key);
                }
            }
            lemma_disjoint_by_blocks(c, d);
        }
        false
    }

    /// Whether the containers agree in all but their payloads.
    fn same_layout(&self, other: &Self) -> (same: bool)
        requires
            self.containers@.len() == other.containers@.len(),
        ensures
            same == (forall|i: int|
                0 <= i < self.containers@.len() ==> same_shape(
                    #[trigger] self.containers@[i],
                    other.containers@[i],
                )),
    {
        let mut index: usize = 0;
        while index < self.containers.len()
            invariant
                self.containers@.len() == other.containers@.len(),
                index <= self.containers@.len(),
                forall|i: int|
                    0 <= i < index ==> same_shape(
                        #[trigger] self.containers@[i],
                        other.containers@[i],
                    ),
            decreases self.containers@.len() - index,
        {
            let left: &ContainerEntry = &self.containers[index];
            let right: &ContainerEntry = &other.containers[index];
            if left.key != right.key || left.cardinality != right.cardinality || left.kind
                != right.kind {
                assert(!same_shape(self.containers@[index as int], other.containers@[index as int]));
                return false;
            }
            index = index + 1;
        }
        true
    }
}

/// Two containers agree in all but their payloads.
spec fn same_shape(left: ContainerEntry, right: ContainerEntry) -> bool {
    left.key == right.key && left.cardinality == right.cardinality && left.kind == right.kind
}

/// Whether two slices hold the same bytes.
fn same_bytes(left: &[u8], right: &[u8]) -> (same: bool)
    ensures
        same == (left@ == right@),
{
    if left.len() != right.len() {
        return false;
    }
    let mut index: usize = 0;
    while index < left.len()
        invariant
            left@.len() == right@.len(),
            index <= left@.len(),
            forall|i: int| 0 <= i < index ==> left@[i] == right@[i],
        decreases left@.len() - index,
    {
        if left[index] != right[index] {
            return false;
        }
        index = index + 1;
    }
    assert(left@ =~= right@);
    true
}

impl<'a> vstd::std_specs::cmp::PartialEqSpecImpl for RoaringBitmapView<'a> {
    open spec fn obeys_eq_spec() -> bool {
        true
    }

    /// Views are equal when they hold the same values, whatever their layouts.
    open spec fn eq_spec(&self, other: &Self) -> bool {
        self@ == other@
    }
}

impl<'a> PartialEq for RoaringBitmapView<'a> {
    fn eq(&self, other: &Self) -> (equal: bool) {
        let ghost c = self.chunks();
        let ghost d = other.chunks();
        proof {
            use_type_invariant(self);
            use_type_invariant(other);
            self.lemma_chunks();
            other.lemma_chunks();
            self.lemma_len();
            other.lemma_len();
            if self@ == other@ {
                law_chunks_canonical(c, d);
            }
        }
        if self.len != other.len {
            return false;
        }
        if self.containers.len() != other.containers.len() {
            return false;
        }
        // Where every pair of containers agrees in key, cardinality and kind, the payloads are
        // canonical, and set equality is equality of their bytes.
        if self.same_layout(other) {
            let mut index: usize = 0;
            while index < self.containers.len()
                invariant
                    self.wf(),
                    other.wf(),
                    c == self.chunks(),
                    d == other.chunks(),
                    self@ == other@ ==> c == d,
                    self.containers@.len() == other.containers@.len(),
                    index <= self.containers@.len(),
                    forall|i: int|
                        0 <= i < self.containers@.len() ==> same_shape(
                            #[trigger] self.containers@[i],
                            other.containers@[i],
                        ),
                    forall|i: int| 0 <= i < index ==> c[i] == d[i],
                decreases self.containers@.len() - index,
            {
                let left: &ContainerEntry = &self.containers[index];
                let right: &ContainerEntry = &other.containers[index];
                assert(same_shape(self.containers@[index as int], other.containers@[index as int]));
                proof {
                    left.lemma_wf(self.bytes@);
                    right.lemma_wf(other.bytes@);
                }
                if !same_bytes(left.payload_bytes(self.bytes), right.payload_bytes(other.bytes)) {
                    proof {
                        if self@ == other@ {
                            assert(c[index as int] == d[index as int]);
                            law_payload_canonical(
                                left.kind,
                                left.cardinality as int,
                                left.payload_of(self.bytes@),
                                right.payload_of(other.bytes@),
                            );
                        }
                    }
                    return false;
                }
                index = index + 1;
            }
            assert(c =~= d);
            return true;
        }
        proof {
            if self@.subset_of(other@) {
                lemma_subset_equality(self@, other@);
            }
        }
        self.is_subset(other)
    }
}

impl<'a> Eq for RoaringBitmapView<'a> {

}

impl<'a> Clone for RoaringBitmapView<'a> {
    fn clone(&self) -> (copy: Self)
        ensures
            copy@ == self@,
            copy.borrowed() == self.borrowed(),
            copy.chunks() == self.chunks(),
            copy.prefix_sums() == self.prefix_sums(),
            copy.container_count() == self.container_count(),
            forall|i: int|
                #![trigger copy.key(i)]
                #![trigger copy.kind(i)]
                0 <= i < self.container_count() ==> {
                    &&& copy.key(i) == self.key(i)
                    &&& copy.cardinality(i) == self.cardinality(i)
                    &&& copy.kind(i) == self.kind(i)
                    &&& copy.payload_start(i) == self.payload_start(i)
                },
    {
        proof {
            use_type_invariant(self);
        }
        let containers: Vec<ContainerEntry> = self.containers.clone();
        let prefix_cardinalities: Vec<u64> = self.prefix_cardinalities.clone();
        assert(containers@ =~= self.containers@);
        assert(prefix_cardinalities@ =~= self.prefix_cardinalities@);
        let copy = RoaringBitmapView {
            bytes: self.bytes,
            containers,
            prefix_cardinalities,
            len: self.len,
        };
        assert(copy.chunks() =~= self.chunks());
        copy
    }
}

} // verus!
