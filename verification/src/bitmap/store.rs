//! Containers that own their values.

use vstd::prelude::*;

use crate::bitmap::bits::word_bit;
use crate::bitmap::bitset::BITMAP_LENGTH;
use crate::bitmap::chunk::{inhabited, within_u16};
use crate::bitmap::container::{ContainerKind, ARRAY_LIMIT};
use crate::bitmap::count::{count, lemma_count_none};

verus! {

/// Increasing 16-bit values.
#[derive(Debug)]
pub(crate) struct ArrayStore {
    pub(crate) vec: Vec<u16>,
}

impl ArrayStore {
    /// The values.
    pub(crate) open spec fn values(self) -> Set<int> {
        Set::new(|i: int| exists|j: int| 0 <= j < self.vec@.len() && #[trigger] self.vec@[j] == i)
    }

    /// The values are strictly increasing, and not too many for an array.
    pub(crate) open spec fn wf(self) -> bool {
        &&& 0 < self.vec@.len() <= ARRAY_LIMIT
        &&& forall|j: int, k: int| 0 <= j < k < self.vec@.len() ==> self.vec@[j] < self.vec@[k]
    }

    /// Returns `true` if `index` is a value.
    pub(crate) fn contains(&self, index: u16) -> (found: bool)
        requires
            self.wf(),
        ensures
            found == self.values().contains(index as int),
    {
        let total: usize = self.vec.len();
        let mut size: usize = total;
        let mut left: usize = 0;
        while size > 0
            invariant
                self.wf(),
                total == self.vec@.len(),
                left + size <= total,
                forall|j: int| 0 <= j < left ==> #[trigger] self.vec@[j] < index,
                forall|j: int| left + size <= j < total ==> index < #[trigger] self.vec@[j],
            decreases size,
        {
            let half: usize = size / 2;
            let mid: usize = left + half;
            let value: u16 = self.vec[mid];
            if value < index {
                left = mid + 1;
                size = size - (half + 1);
            } else if value == index {
                return true;
            } else {
                size = half;
            }
        }
        false
    }
}

/// One bit for each of the 65536 values.
#[derive(Debug)]
pub(crate) struct BitmapStore {
    pub(crate) len: u64,
    pub(crate) bits: Vec<u64>,
}

impl BitmapStore {
    /// The values.
    pub(crate) open spec fn values(self) -> Set<int> {
        Set::new(|i: int| 0 <= i < 0x1_0000 && word_bit(self.bits@[i / 64], i % 64))
    }

    /// There is a bit for each value, and `len` of them are set, too many for an array.
    pub(crate) open spec fn wf(self) -> bool {
        &&& self.bits@.len() == BITMAP_LENGTH
        &&& self.len == count(self.values(), 0, 0x1_0000)
        &&& self.len > ARRAY_LIMIT
    }

    /// Returns `true` if `index` is a value.
    pub(crate) fn contains(&self, index: u16) -> (found: bool)
        requires
            self.wf(),
        ensures
            found == self.values().contains(index as int),
    {
        let word: u64 = self.bits[(index / 64) as usize];
        (word >> ((index % 64) as u64)) & 1u64 == 1u64
    }
}

/// The values from `start` to `end`, both included.
#[derive(Copy, Clone, Debug, PartialEq, Eq, Structural)]
pub(crate) struct Interval {
    pub(crate) start: u16,
    pub(crate) end: u16,
}

/// Increasing intervals.
#[derive(Debug)]
pub(crate) struct IntervalStore {
    pub(crate) intervals: Vec<Interval>,
}

impl IntervalStore {
    /// Interval `r` holds `i`.
    pub(crate) open spec fn holds(self, r: int, i: int) -> bool {
        self.intervals@[r].start <= i <= self.intervals@[r].end
    }

    /// The values.
    pub(crate) open spec fn values(self) -> Set<int> {
        Set::new(
            |i: int| exists|r: int| 0 <= r < self.intervals@.len() && #[trigger] self.holds(r, i),
        )
    }

    /// The intervals are increasing and have a gap between any two.
    pub(crate) open spec fn wf(self) -> bool {
        &&& 0 < self.intervals@.len()
        &&& forall|r: int|
            0 <= r < self.intervals@.len() ==> (#[trigger] self.intervals@[r]).start
                <= self.intervals@[r].end
        &&& forall|q: int, r: int|
            0 <= q < r < self.intervals@.len() ==> (#[trigger] self.intervals@[q]).end + 1 < (
            #[trigger] self.intervals@[r]).start
    }

    /// Returns `true` if `index` is a value.
    pub(crate) fn contains(&self, index: u16) -> (found: bool)
        requires
            self.wf(),
        ensures
            found == self.values().contains(index as int),
    {
        let total: usize = self.intervals.len();
        let mut size: usize = total;
        let mut left: usize = 0;
        while size > 0
            invariant
                self.wf(),
                total == self.intervals@.len(),
                left + size <= total,
                forall|r: int| 0 <= r < left ==> (#[trigger] self.intervals@[r]).end < index,
                forall|r: int|
                    left + size <= r < total ==> index < (#[trigger] self.intervals@[r]).start,
            decreases size,
        {
            let half: usize = size / 2;
            let mid: usize = left + half;
            let interval: Interval = self.intervals[mid];
            if index < interval.start {
                size = half;
            } else if index > interval.end {
                left = mid + 1;
                size = size - (half + 1);
            } else {
                assert(self.holds(mid as int, index as int));
                return true;
            }
        }
        false
    }
}

/// The values of a container, in one of three shapes.
#[derive(Debug)]
pub(crate) enum Store {
    Array(ArrayStore),
    Bitmap(BitmapStore),
    Run(IntervalStore),
}

impl Store {
    /// The values.
    pub(crate) open spec fn values(self) -> Set<int> {
        match self {
            Store::Array(store) => store.values(),
            Store::Bitmap(store) => store.values(),
            Store::Run(store) => store.values(),
        }
    }

    /// The store has the shape of containers of this kind, with as many intervals as runs.
    pub(crate) open spec fn has_kind(self, kind: ContainerKind) -> bool {
        match kind {
            ContainerKind::Array => self is Array,
            ContainerKind::Bitmap => self is Bitmap,
            ContainerKind::Run { runs } => self matches Store::Run(store)
                && store.intervals@.len() == runs,
        }
    }

    /// The shape is in order.
    pub(crate) open spec fn wf(self) -> bool {
        match self {
            Store::Array(store) => store.wf(),
            Store::Bitmap(store) => store.wf(),
            Store::Run(store) => store.wf(),
        }
    }

    /// A store holds 16-bit values, at least one.
    pub(crate) proof fn lemma_values(self)
        requires
            self.wf(),
        ensures
            within_u16(self.values()),
            inhabited(self.values()),
    {
        match self {
            Store::Array(store) => {
                assert(store.values().contains(store.vec@[0] as int));
            },
            Store::Bitmap(store) => {
                if !inhabited(store.values()) {
                    lemma_count_none(store.values(), 0, 0x1_0000);
                }
            },
            Store::Run(store) => {
                assert(store.holds(0, store.intervals@[0].start as int));
                assert(store.values().contains(store.intervals@[0].start as int));
            },
        }
    }

    /// Returns `true` if `index` is a value.
    pub(crate) fn contains(&self, index: u16) -> (found: bool)
        requires
            self.wf(),
        ensures
            found == self.values().contains(index as int),
    {
        match self {
            Store::Array(store) => store.contains(index),
            Store::Bitmap(store) => store.contains(index),
            Store::Run(store) => store.contains(index),
        }
    }

    /// Returns `true` if both stores hold the same values, whatever their shapes.
    pub(crate) fn same_values(&self, other: &Self) -> (same: bool)
        requires
            self.wf(),
            other.wf(),
        ensures
            same == (self.values() == other.values()),
    {
        let mut index: u32 = 0;
        while index < 0x1_0000
            invariant
                self.wf(),
                other.wf(),
                index <= 0x1_0000,
                forall|i: int|
                    0 <= i < index ==> (self.values().contains(i) <==> other.values().contains(i)),
            decreases 0x1_0000 - index,
        {
            if self.contains(index as u16) != other.contains(index as u16) {
                return false;
            }
            index = index + 1;
        }
        proof {
            self.lemma_values();
            other.lemma_values();
            assert(self.values() =~= other.values());
        }
        true
    }
}

} // verus!
