//! Bitmaps that own their values.

use vstd::prelude::*;

use crate::bitmap::array::{array_at, array_len, array_set, array_value};
use crate::bitmap::bitset::{bitmap_set, bitmap_word, lemma_bitmap_word, word_at, BITMAP_LENGTH};
use crate::bitmap::canonical::law_chunks_canonical;
use crate::bitmap::chunk::{
    block, chunk_holds, chunk_set, chunk_values, chunks_ok, inhabited, lemma_block_present,
    within_u16, Chunk,
};
use crate::bitmap::container::ContainerKind;
use crate::bitmap::entry::ContainerEntry;
use crate::bitmap::run::{run_bounds, run_end, run_set, run_start};
use crate::bitmap::store::{ArrayStore, BitmapStore, Interval, IntervalStore, Store};
use crate::bitmap::view::{split, RoaringBitmapView};

verus! {

/// The values that share their upper 16 bits.
#[derive(Debug)]
pub(crate) struct Container {
    pub(crate) key: u16,
    pub(crate) store: Store,
}

/// A compressed bitmap using the [Roaring bitmap compression scheme](https://roaringbitmap.org/).
#[derive(Debug)]
pub struct RoaringBitmap {
    pub(crate) containers: Vec<Container>,
}

impl View for RoaringBitmap {
    type V = Set<u32>;

    /// The values of the bitmap.
    open spec fn view(&self) -> Set<u32> {
        chunk_set(self.chunks())
    }
}

impl RoaringBitmap {
    /// What the containers stand for.
    pub open(crate) spec fn chunks(self) -> Seq<Chunk> {
        Seq::new(
            self.containers@.len(),
            |i: int|
                Chunk {
                    key: self.containers@[i].key as int,
                    values: self.containers@[i].store.values(),
                },
        )
    }

    /// The number of containers.
    pub open(crate) spec fn container_count(self) -> int {
        self.containers@.len() as int
    }

    /// The upper 16 bits of the values of container `i`.
    pub open(crate) spec fn key(self, i: int) -> int {
        self.containers@[i].key as int
    }

    /// Container `i` holds increasing values.
    pub open(crate) spec fn is_array(self, i: int) -> bool {
        self.containers@[i].store is Array
    }

    /// Container `i` holds one bit for each value.
    pub open(crate) spec fn is_bitmap(self, i: int) -> bool {
        self.containers@[i].store is Bitmap
    }

    /// Container `i` holds `n` intervals.
    pub open(crate) spec fn is_runs(self, i: int, n: int) -> bool {
        self.containers@[i].store matches Store::Run(store) && store.intervals@.len() == n
    }

    /// There is a container for each one of the view, with the same key and a store of its kind.
    pub open(crate) spec fn shaped_as(self, view: RoaringBitmapView) -> bool {
        &&& self.containers@.len() == view.container_count()
        &&& forall|i: int|
            0 <= i < self.containers@.len() ==> (#[trigger] self.containers@[i]).key == view.key(i)
                && self.containers@[i].store.has_kind(view.kind(i))
    }

    /// The containers are in order.
    #[verifier::type_invariant]
    pub open(crate) spec fn wf(self) -> bool {
        &&& forall|i: int| 0 <= i < self.containers@.len() ==> (#[trigger] self.containers@[i]).store.wf()
        &&& forall|i: int, j: int|
            0 <= i < j < self.containers@.len() ==> (#[trigger] self.containers@[i]).key < (
            #[trigger] self.containers@[j]).key
    }

    /// The containers of a well-formed bitmap stand for chunks in order.
    proof fn lemma_chunks(self)
        requires
            self.wf(),
        ensures
            chunks_ok(self.chunks()),
    {
        let c = self.chunks();
        assert forall|i: int| 0 <= i < c.len() implies within_u16(#[trigger] c[i].values)
            && inhabited(c[i].values) by {
            self.containers@[i].store.lemma_values();
        }
        assert forall|i: int, j: int| 0 <= i < j < c.len() implies #[trigger] c[i].key
            < #[trigger] c[j].key by {
            assert(self.containers@[i].key < self.containers@[j].key);
        }
    }

    /// Returns `true` if the bitmap contains `value`.
    pub fn contains(&self, value: u32) -> (found: bool)
        ensures
            found == self@.contains(value),
    {
        let ghost c = self.chunks();
        proof {
            use_type_invariant(self);
            self.lemma_chunks();
        }
        let (key, index) = split(value);
        let mut pos: usize = 0;
        while pos < self.containers.len()
            invariant
                self.wf(),
                c == self.chunks(),
                chunks_ok(c),
                key == value / 0x1_0000,
                index == value % 0x1_0000,
                pos <= self.containers@.len(),
                forall|i: int| 0 <= i < pos ==> #[trigger] c[i].key != key,
            decreases self.containers@.len() - pos,
        {
            if self.containers[pos].key == key {
                proof {
                    lemma_block_present(c, pos as int);
                    assert(block(chunk_values(c), key as int).contains(index as int)
                        <==> chunk_values(c).contains(value as int));
                }
                return self.containers[pos].store.contains(index);
            }
            assert(c[pos as int].key != key);
            pos = pos + 1;
        }
        proof {
            if self@.contains(value) {
                let i = choose|i: int| 0 <= i < c.len() && #[trigger] chunk_holds(
                    c,
                    i,
                    value as int,
                );
                assert(c[i].key == key);
            }
        }
        false
    }
}

impl vstd::std_specs::cmp::PartialEqSpecImpl for RoaringBitmap {
    open spec fn obeys_eq_spec() -> bool {
        true
    }

    /// Bitmaps are equal when they hold the same values, whatever the shapes of their stores.
    open spec fn eq_spec(&self, other: &Self) -> bool {
        self@ == other@
    }
}

impl PartialEq for RoaringBitmap {
    fn eq(&self, other: &Self) -> (equal: bool) {
        let ghost c = self.chunks();
        let ghost d = other.chunks();
        proof {
            use_type_invariant(self);
            use_type_invariant(other);
            self.lemma_chunks();
            other.lemma_chunks();
            if self@ == other@ {
                law_chunks_canonical(c, d);
            }
        }
        if self.containers.len() != other.containers.len() {
            return false;
        }
        let mut index: usize = 0;
        while index < self.containers.len()
            invariant
                self.wf(),
                other.wf(),
                c == self.chunks(),
                d == other.chunks(),
                self@ == other@ ==> c == d,
                self.containers@.len() == other.containers@.len(),
                index <= self.containers@.len(),
                forall|i: int| 0 <= i < index ==> c[i] == d[i],
            decreases self.containers@.len() - index,
        {
            let left: &Container = &self.containers[index];
            let right: &Container = &other.containers[index];
            assert(c[index as int] == d[index as int] <==> left.key == right.key
                && left.store.values() == right.store.values());
            if left.key != right.key || !left.store.same_values(&right.store) {
                return false;
            }
            index = index + 1;
        }
        assert(c =~= d);
        true
    }
}

impl Eq for RoaringBitmap {

}

impl ContainerEntry {
    /// Copies the values out of the payload.
    pub(crate) fn to_store(self, bytes: &[u8]) -> (store: Store)
        requires
            self.wf(bytes@),
        ensures
            store.wf(),
            store.values() == self.values(bytes@),
            store.has_kind(self.kind),
    {
        let ghost p = self.payload_of(bytes@);
        reveal(ContainerEntry::wf);
        match self.kind {
            ContainerKind::Array => {
                let payload: &[u8] = self.array_payload(bytes);
                let mut vec: Vec<u16> = Vec::with_capacity(self.cardinality as usize);
                let mut index: usize = 0;
                while index < self.cardinality as usize
                    invariant
                        p == payload@,
                        array_len(p) == self.cardinality,
                        index <= self.cardinality,
                        vec@.len() == index,
                        forall|j: int| 0 <= j < index ==> #[trigger] vec@[j] == array_at(p, j),
                    decreases self.cardinality - index,
                {
                    vec.push(array_value(payload, index));
                    index = index + 1;
                }
                let store = ArrayStore { vec };
                proof {
                    assert forall|j: int, k: int| 0 <= j < k < store.vec@.len() implies store.vec@[j]
                        < store.vec@[k] by {
                        assert(array_at(p, j) < array_at(p, k));
                    }
                    assert forall|i: int| store.values().contains(i) <==> array_set(p).contains(
                        i,
                    ) by {
                        if array_set(p).contains(i) {
                            let j = choose|j: int|
                                0 <= j < array_len(p) && #[trigger] array_at(p, j) == i;
                            assert(store.vec@[j] == i);
                        }
                        if store.values().contains(i) {
                            let j = choose|j: int|
                                0 <= j < store.vec@.len() && #[trigger] store.vec@[j] == i;
                            assert(array_at(p, j) == i);
                        }
                    }
                    assert(store.values() =~= array_set(p));
                }
                Store::Array(store)
            },
            ContainerKind::Bitmap => {
                let payload: &[u8] = self.bitmap_payload(bytes);
                let mut bits: Vec<u64> = Vec::with_capacity(BITMAP_LENGTH);
                let mut index: usize = 0;
                while index < BITMAP_LENGTH
                    invariant
                        p == payload@,
                        p.len() == crate::bitmap::bitset::BITMAP_BYTES,
                        index <= BITMAP_LENGTH,
                        bits@.len() == index,
                        forall|w: int| 0 <= w < index ==> #[trigger] bits@[w] == word_at(p, w),
                    decreases BITMAP_LENGTH - index,
                {
                    bits.push(bitmap_word(payload, index));
                    index = index + 1;
                }
                let store = BitmapStore { len: self.cardinality as u64, bits };
                proof {
                    assert forall|i: int| store.values().contains(i) <==> bitmap_set(p).contains(
                        i,
                    ) by {
                        if 0 <= i < 0x1_0000 {
                            lemma_bitmap_word(p, i / 64, i % 64);
                            assert(store.bits@[i / 64] == word_at(p, i / 64));
                        }
                    }
                    assert(store.values() =~= bitmap_set(p));
                }
                Store::Bitmap(store)
            },
            ContainerKind::Run { runs } => {
                let payload: &[u8] = self.run_payload(bytes, runs);
                let mut intervals: Vec<Interval> = Vec::with_capacity(runs as usize);
                let mut index: usize = 0;
                while index < runs as usize
                    invariant
                        p == payload@,
                        crate::bitmap::run::run_payload_ok(p, runs as int),
                        index <= runs,
                        intervals@.len() == index,
                        forall|r: int|
                            0 <= r < index ==> (#[trigger] intervals@[r]).start == run_start(p, r)
                                && intervals@[r].end == run_end(p, r),
                    decreases runs - index,
                {
                    let (start, end) = run_bounds(payload, index);
                    intervals.push(Interval { start, end });
                    index = index + 1;
                }
                let store = IntervalStore { intervals };
                proof {
                    crate::bitmap::container::lemma_payload_values(
                        self.kind,
                        self.cardinality as int,
                        p,
                    );
                    assert forall|q: int, r: int|
                        0 <= q < r < store.intervals@.len() implies (
                    #[trigger] store.intervals@[q]).end + 1 < (#[trigger] store.intervals@[r]).start by {
                        assert(run_end(p, q) + 1 < run_start(p, r));
                    }
                    assert forall|i: int|
                        store.values().contains(i) <==> run_set(p, runs as int).contains(i) by {
                        if store.values().contains(i) {
                            let r = choose|r: int|
                                0 <= r < store.intervals@.len() && #[trigger] store.holds(r, i);
                            assert(run_start(p, r) <= i && i <= run_end(p, r));
                        }
                        if run_set(p, runs as int).contains(i) {
                            let r = choose|r: int|
                                0 <= r < runs && #[trigger] run_start(p, r) <= i && i <= run_end(
                                    p,
                                    r,
                                );
                            assert(store.holds(r, i));
                        }
                    }
                    assert(store.values() =~= run_set(p, runs as int));
                }
                Store::Run(store)
            },
        }
    }
}

impl<'a> RoaringBitmapView<'a> {
    /// Materializes the view into an owned [`RoaringBitmap`].
    pub fn to_owned(&self) -> (bitmap: RoaringBitmap)
        ensures
            bitmap@ == self@,
            bitmap.shaped_as(*self),
    {
        proof {
            use_type_invariant(self);
        }
        let mut containers: Vec<Container> = Vec::with_capacity(self.containers.len());
        let mut index: usize = 0;
        while index < self.containers.len()
            invariant
                self.wf(),
                index <= self.containers@.len(),
                containers@.len() == index,
                forall|i: int|
                    0 <= i < index ==> {
                        let container = #[trigger] containers@[i];
                        &&& container.key == self.containers@[i].key
                        &&& container.store.wf()
                        &&& container.store.has_kind(self.containers@[i].kind)
                        &&& container.store.values() == self.containers@[i].values(self.bytes@)
                    },
            decreases self.containers@.len() - index,
        {
            let entry: ContainerEntry = self.containers[index];
            containers.push(Container { key: entry.key, store: entry.to_store(self.bytes) });
            index = index + 1;
        }
        let bitmap = RoaringBitmap { containers };
        assert(bitmap.chunks() =~= self.chunks());
        bitmap
    }
}

} // verus!
