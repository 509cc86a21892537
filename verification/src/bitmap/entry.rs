//! One container of a parsed bitmap.

use vstd::prelude::*;
use vstd::slice::slice_subrange;

use crate::bitmap::array::{
    array_contains, array_intersection_len_array, array_intersects_array, array_is_subset_of_array,
    array_rank, array_value,
};
use crate::bitmap::bitset::{
    bitmap_contains, bitmap_intersection_len_bitmap, bitmap_intersects_bitmap,
    bitmap_is_subset_of_bitmap, bitmap_max, bitmap_min, bitmap_rank, BITMAP_BYTES,
};
use crate::bitmap::chunk::{inhabited, within_u16};
use crate::bitmap::container::{
    lemma_payload_values, payload_len, payload_ok, payload_set, ContainerKind,
};
use crate::bitmap::count::{count, lemma_count_subset};
use crate::bitmap::mixed::{
    array_intersection_len_bitmap, array_intersection_len_run, array_intersects_bitmap,
    array_intersects_run, array_is_subset_of_bitmap, array_is_subset_of_run, bitmap_intersects_run,
    bitmap_is_subset_of_run, run_intersection_len_bitmap, run_is_subset_of_array,
    run_is_subset_of_bitmap,
};
use crate::bitmap::run::{
    lemma_run_member, run_bounds, run_contains, run_intersection_len_run, run_intersects_run,
    run_is_subset_of_run, run_rank, RUN_ELEMENT_BYTES, RUN_NUM_BYTES,
};

verus! {

/// Where a container lies in the bytes of a bitmap, and what it holds.
#[derive(Copy, Clone, Debug, PartialEq, Eq, Structural)]
pub(crate) struct ContainerEntry {
    pub(crate) key: u16,
    pub(crate) cardinality: u32,
    pub(crate) kind: ContainerKind,
    pub(crate) payload_offset: usize,
}

impl ContainerEntry {
    /// The bytes of the payload.
    pub(crate) open spec fn payload_of(self, bytes: Seq<u8>) -> Seq<u8> {
        bytes.subrange(
            self.payload_offset as int,
            self.payload_offset + payload_len(self.kind, self.cardinality as int),
        )
    }

    /// The values of the container, without its key.
    pub(crate) open spec fn values(self, bytes: Seq<u8>) -> Set<int> {
        payload_set(self.kind, self.payload_of(bytes))
    }

    /// The payload lies within the bytes and is one of this kind and cardinality.
    #[verifier::opaque]
    pub(crate) open spec fn wf(self, bytes: Seq<u8>) -> bool {
        &&& self.payload_offset + payload_len(self.kind, self.cardinality as int) <= bytes.len()
        &&& payload_ok(self.kind, self.cardinality as int, self.payload_of(bytes))
    }

    /// What well-formedness says of the number of values and of the payload.
    pub(crate) proof fn lemma_wf(self, bytes: Seq<u8>)
        requires
            self.wf(bytes),
        ensures
            0 < self.cardinality <= 0x1_0000,
            self.payload_offset + payload_len(self.kind, self.cardinality as int) <= bytes.len(),
            payload_ok(self.kind, self.cardinality as int, self.payload_of(bytes)),
            count(self.values(bytes), 0, 0x1_0000) == self.cardinality,
            within_u16(self.values(bytes)),
            inhabited(self.values(bytes)),
    {
        reveal(ContainerEntry::wf);
        lemma_payload_values(self.kind, self.cardinality as int, self.payload_of(bytes));
    }

    /// The number of bytes in the payload.
    pub(crate) fn payload_size(&self) -> (size: usize)
        requires
            self.cardinality <= 0x1_0000,
        ensures
            size == payload_len(self.kind, self.cardinality as int),
    {
        match self.kind {
            ContainerKind::Array => self.cardinality as usize * 2,
            ContainerKind::Bitmap => BITMAP_BYTES,
            ContainerKind::Run { runs } => RUN_NUM_BYTES + runs as usize * RUN_ELEMENT_BYTES,
        }
    }

    pub(crate) fn payload<'a>(&self, bytes: &'a [u8], len: usize) -> (payload: &'a [u8])
        requires
            self.payload_offset + len <= bytes@.len(),
        ensures
            payload@ == bytes@.subrange(
                self.payload_offset as int,
                self.payload_offset + len as int,
            ),
    {
        assert(bytes@.len() == bytes.len());
        slice_subrange(bytes, self.payload_offset, self.payload_offset + len)
    }

    pub(crate) fn array_payload<'a>(&self, bytes: &'a [u8]) -> (payload: &'a [u8])
        requires
            self.wf(bytes@),
            self.kind is Array,
        ensures
            payload@ == self.payload_of(bytes@),
    {
        reveal(ContainerEntry::wf);
        self.payload(bytes, self.cardinality as usize * 2)
    }

    pub(crate) fn bitmap_payload<'a>(&self, bytes: &'a [u8]) -> (payload: &'a [u8])
        requires
            self.wf(bytes@),
            self.kind is Bitmap,
        ensures
            payload@ == self.payload_of(bytes@),
    {
        reveal(ContainerEntry::wf);
        self.payload(bytes, BITMAP_BYTES)
    }

    pub(crate) fn run_payload<'a>(&self, bytes: &'a [u8], runs: u16) -> (payload: &'a [u8])
        requires
            self.wf(bytes@),
            self.kind == (ContainerKind::Run { runs }),
        ensures
            payload@ == self.payload_of(bytes@),
    {
        reveal(ContainerEntry::wf);
        self.payload(bytes, RUN_NUM_BYTES + runs as usize * RUN_ELEMENT_BYTES)
    }

    pub(crate) fn contains(&self, bytes: &[u8], index: u16) -> (found: bool)
        requires
            self.wf(bytes@),
        ensures
            found == self.values(bytes@).contains(index as int),
    {
        reveal(ContainerEntry::wf);
        match self.kind {
            ContainerKind::Array => array_contains(self.array_payload(bytes), index),
            ContainerKind::Bitmap => bitmap_contains(self.bitmap_payload(bytes), index),
            ContainerKind::Run { runs } => run_contains(self.run_payload(bytes, runs), runs, index),
        }
    }

    pub(crate) fn min(&self, bytes: &[u8]) -> (least: u16)
        requires
            self.wf(bytes@),
        ensures
            self.values(bytes@).contains(least as int),
            forall|i: int| self.values(bytes@).contains(i) ==> least <= i,
    {
        reveal(ContainerEntry::wf);
        proof {
            lemma_payload_values(self.kind, self.cardinality as int, self.payload_of(bytes@));
        }
        match self.kind {
            ContainerKind::Array => array_value(self.array_payload(bytes), 0),
            ContainerKind::Bitmap => bitmap_min(self.bitmap_payload(bytes)),
            ContainerKind::Run { runs } => {
                let payload = self.run_payload(bytes, runs);
                let (start, _) = run_bounds(payload, 0);
                proof {
                    lemma_run_member(payload@, runs as int, 0);
                }
                start
            },
        }
    }

    pub(crate) fn max(&self, bytes: &[u8]) -> (greatest: u16)
        requires
            self.wf(bytes@),
        ensures
            self.values(bytes@).contains(greatest as int),
            forall|i: int| self.values(bytes@).contains(i) ==> i <= greatest,
    {
        reveal(ContainerEntry::wf);
        proof {
            lemma_payload_values(self.kind, self.cardinality as int, self.payload_of(bytes@));
        }
        match self.kind {
            ContainerKind::Array => array_value(
                self.array_payload(bytes),
                self.cardinality as usize - 1,
            ),
            ContainerKind::Bitmap => bitmap_max(self.bitmap_payload(bytes)),
            ContainerKind::Run { runs } => {
                let payload = self.run_payload(bytes, runs);
                let (_, end) = run_bounds(payload, runs as usize - 1);
                proof {
                    lemma_run_member(payload@, runs as int, runs - 1);
                }
                end
            },
        }
    }

    pub(crate) fn rank(&self, bytes: &[u8], index: u16) -> (rank: u64)
        requires
            self.wf(bytes@),
        ensures
            rank == count(self.values(bytes@), 0, index + 1),
    {
        reveal(ContainerEntry::wf);
        match self.kind {
            ContainerKind::Array => array_rank(self.array_payload(bytes), index),
            ContainerKind::Bitmap => bitmap_rank(self.bitmap_payload(bytes), index),
            ContainerKind::Run { runs } => run_rank(self.run_payload(bytes, runs), runs, index),
        }
    }

    pub(crate) fn intersection_len(
        &self,
        bytes: &[u8],
        other: &Self,
        other_bytes: &[u8],
    ) -> (total: u64)
        requires
            self.wf(bytes@),
            other.wf(other_bytes@),
        ensures
            total == count(
                self.values(bytes@).intersect(other.values(other_bytes@)),
                0,
                0x1_0000,
            ),
    {
        reveal(ContainerEntry::wf);
        proof {
            let s = self.values(bytes@);
            let t = other.values(other_bytes@);
            assert(t.intersect(s) =~= s.intersect(t));
        }
        match (self.kind, other.kind) {
            (ContainerKind::Array, ContainerKind::Array) => array_intersection_len_array(
                self.array_payload(bytes),
                other.array_payload(other_bytes),
            ),
            (ContainerKind::Array, ContainerKind::Bitmap) => array_intersection_len_bitmap(
                self.array_payload(bytes),
                other.bitmap_payload(other_bytes),
            ),
            (ContainerKind::Bitmap, ContainerKind::Array) => array_intersection_len_bitmap(
                other.array_payload(other_bytes),
                self.bitmap_payload(bytes),
            ),
            (ContainerKind::Bitmap, ContainerKind::Bitmap) => bitmap_intersection_len_bitmap(
                self.bitmap_payload(bytes),
                other.bitmap_payload(other_bytes),
            ),
            (
                ContainerKind::Run { runs },
                ContainerKind::Run { runs: other_runs },
            ) => run_intersection_len_run(
                self.run_payload(bytes, runs),
                runs,
                other.run_payload(other_bytes, other_runs),
                other_runs,
            ),
            (ContainerKind::Run { runs }, ContainerKind::Array) => array_intersection_len_run(
                other.array_payload(other_bytes),
                self.run_payload(bytes, runs),
                runs,
            ),
            (ContainerKind::Array, ContainerKind::Run { runs }) => array_intersection_len_run(
                self.array_payload(bytes),
                other.run_payload(other_bytes, runs),
                runs,
            ),
            (ContainerKind::Run { runs }, ContainerKind::Bitmap) => run_intersection_len_bitmap(
                self.run_payload(bytes, runs),
                runs,
                other.bitmap_payload(other_bytes),
            ),
            (ContainerKind::Bitmap, ContainerKind::Run { runs }) => run_intersection_len_bitmap(
                other.run_payload(other_bytes, runs),
                runs,
                self.bitmap_payload(bytes),
            ),
        }
    }

    pub(crate) fn is_subset(&self, bytes: &[u8], other: &Self, other_bytes: &[u8]) -> (subset: bool)
        requires
            self.wf(bytes@),
            other.wf(other_bytes@),
        ensures
            subset == self.values(bytes@).subset_of(other.values(other_bytes@)),
    {
        reveal(ContainerEntry::wf);
        match (self.kind, other.kind) {
            (ContainerKind::Array, ContainerKind::Array) => array_is_subset_of_array(
                self.array_payload(bytes),
                other.array_payload(other_bytes),
            ),
            (ContainerKind::Array, ContainerKind::Bitmap) => array_is_subset_of_bitmap(
                self.array_payload(bytes),
                other.bitmap_payload(other_bytes),
            ),
            (ContainerKind::Array, ContainerKind::Run { runs }) => array_is_subset_of_run(
                self.array_payload(bytes),
                other.run_payload(other_bytes, runs),
                runs,
            ),
            // A bitmap container always has more values than an array container.
            (ContainerKind::Bitmap, ContainerKind::Array) => {
                proof {
                    let s = self.values(bytes@);
                    let t = other.values(other_bytes@);
                    if s.subset_of(t) {
                        lemma_count_subset(s, t, 0, 0x1_0000);
                    }
                }
                false
            },
            (ContainerKind::Bitmap, ContainerKind::Bitmap) => bitmap_is_subset_of_bitmap(
                self.bitmap_payload(bytes),
                other.bitmap_payload(other_bytes),
            ),
            (ContainerKind::Bitmap, ContainerKind::Run { runs }) => bitmap_is_subset_of_run(
                self.bitmap_payload(bytes),
                other.run_payload(other_bytes, runs),
                runs,
            ),
            (ContainerKind::Run { runs }, ContainerKind::Array) => run_is_subset_of_array(
                self.run_payload(bytes, runs),
                runs,
                other.array_payload(other_bytes),
            ),
            (ContainerKind::Run { runs }, ContainerKind::Bitmap) => run_is_subset_of_bitmap(
                self.run_payload(bytes, runs),
                runs,
                other.bitmap_payload(other_bytes),
            ),
            (
                ContainerKind::Run { runs: left_runs },
                ContainerKind::Run { runs: right_runs },
            ) => run_is_subset_of_run(
                self.run_payload(bytes, left_runs),
                left_runs,
                other.run_payload(other_bytes, right_runs),
                right_runs,
            ),
        }
    }

    pub(crate) fn intersects(&self, bytes: &[u8], other: &Self, other_bytes: &[u8]) -> (meet: bool)
        requires
            self.wf(bytes@),
            other.wf(other_bytes@),
        ensures
            meet == !self.values(bytes@).disjoint(other.values(other_bytes@)),
    {
        reveal(ContainerEntry::wf);
        proof {
            let s = self.values(bytes@);
            let t = other.values(other_bytes@);
            assert(s.disjoint(t) == t.disjoint(s));
        }
        match (self.kind, other.kind) {
            (ContainerKind::Array, ContainerKind::Array) => array_intersects_array(
                self.array_payload(bytes),
                other.array_payload(other_bytes),
            ),
            (ContainerKind::Array, ContainerKind::Bitmap) => array_intersects_bitmap(
                self.array_payload(bytes),
                other.bitmap_payload(other_bytes),
            ),
            (ContainerKind::Bitmap, ContainerKind::Array) => array_intersects_bitmap(
                other.array_payload(other_bytes),
                self.bitmap_payload(bytes),
            ),
            (ContainerKind::Bitmap, ContainerKind::Bitmap) => bitmap_intersects_bitmap(
                self.bitmap_payload(bytes),
                other.bitmap_payload(other_bytes),
            ),
            (ContainerKind::Array, ContainerKind::Run { runs }) => array_intersects_run(
                self.array_payload(bytes),
                other.run_payload(other_bytes, runs),
                runs,
            ),
            (ContainerKind::Run { runs }, ContainerKind::Array) => array_intersects_run(
                other.array_payload(other_bytes),
                self.run_payload(bytes, runs),
                runs,
            ),
            (ContainerKind::Bitmap, ContainerKind::Run { runs }) => bitmap_intersects_run(
                self.bitmap_payload(bytes),
                other.run_payload(other_bytes, runs),
                runs,
            ),
            (ContainerKind::Run { runs }, ContainerKind::Bitmap) => bitmap_intersects_run(
                other.bitmap_payload(other_bytes),
                self.run_payload(bytes, runs),
                runs,
            ),
            (
                ContainerKind::Run { runs: left_runs },
                ContainerKind::Run { runs: right_runs },
            ) => run_intersects_run(
                self.run_payload(bytes, left_runs),
                left_runs,
                other.run_payload(other_bytes, right_runs),
                right_runs,
            ),
        }
    }

    pub(crate) fn payload_bytes<'a>(&self, bytes: &'a [u8]) -> (payload: &'a [u8])
        requires
            self.wf(bytes@),
        ensures
            payload@ == self.payload_of(bytes@),
    {
        reveal(ContainerEntry::wf);
        match self.kind {
            ContainerKind::Array => self.array_payload(bytes),
            ContainerKind::Bitmap => self.bitmap_payload(bytes),
            ContainerKind::Run { runs } => self.run_payload(bytes, runs),
        }
    }
}

} // verus!
