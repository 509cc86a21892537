//! The three kinds of container and the values that their payloads stand for.

use vstd::prelude::*;

use crate::bitmap::array::{array_set, array_sorted};
use crate::bitmap::bitset::{bitmap_set, BITMAP_BYTES};
use crate::bitmap::bytes::le16;
use crate::bitmap::chunk::{inhabited, within_u16};
use crate::bitmap::count::{count, lemma_count_none};
use crate::bitmap::run::{run_set, runs_sorted, RUN_ELEMENT_BYTES, RUN_NUM_BYTES};

verus! {

/// The largest number of values that an array container holds.
pub const ARRAY_LIMIT: u64 = 4096;

/// How the payload of a container is laid out.
#[derive(Copy, Clone, Debug, PartialEq, Eq, Structural)]
pub enum ContainerKind {
    /// Increasing 16-bit values.
    Array,
    /// One bit for each possible value.
    Bitmap,
    /// Increasing runs of consecutive values.
    Run {
        /// The number of runs.
        runs: u16,
    },
}

/// The number of bytes in the payload of a container with `cardinality` values.
pub open spec fn payload_len(kind: ContainerKind, cardinality: int) -> int {
    match kind {
        ContainerKind::Array => 2 * cardinality,
        ContainerKind::Bitmap => BITMAP_BYTES as int,
        ContainerKind::Run { runs } => RUN_NUM_BYTES + runs * RUN_ELEMENT_BYTES,
    }
}

/// The values, all below 65536, that a payload stands for.
pub open spec fn payload_set(kind: ContainerKind, p: Seq<u8>) -> Set<int> {
    match kind {
        ContainerKind::Array => array_set(p),
        ContainerKind::Bitmap => bitmap_set(p),
        ContainerKind::Run { runs } => run_set(p, runs as int),
    }
}

/// The payload is one of a container of this kind with `cardinality` values.
pub open spec fn payload_ok(kind: ContainerKind, cardinality: int, p: Seq<u8>) -> bool {
    &&& p.len() == payload_len(kind, cardinality)
    &&& 0 < cardinality
    &&& count(payload_set(kind, p), 0, 0x1_0000) == cardinality
    &&& match kind {
        ContainerKind::Array => cardinality <= ARRAY_LIMIT && array_sorted(p),
        ContainerKind::Bitmap => cardinality > ARRAY_LIMIT,
        ContainerKind::Run { runs } => le16(p, 0) == runs && runs_sorted(p, runs as int),
    }
}

/// The values of a container are 16-bit values, and there is at least one.
pub(crate) proof fn lemma_payload_values(kind: ContainerKind, cardinality: int, p: Seq<u8>)
    requires
        payload_ok(kind, cardinality, p),
    ensures
        within_u16(payload_set(kind, p)),
        inhabited(payload_set(kind, p)),
        cardinality <= 0x1_0000,
{
    let s = payload_set(kind, p);
    crate::bitmap::count::lemma_count_bound(s, 0, 0x1_0000);
    if forall|i: int| !s.contains(i) {
        lemma_count_none(s, 0, 0x1_0000);
    }
}

} // verus!
