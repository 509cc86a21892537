//! What payloads stand for, told from the numbers that are written into their bytes.

use vstd::prelude::*;

use crate::bitmap::array::{array_at, array_len, array_set, array_split, lemma_array_count_below};
use crate::bitmap::bits::byte_bit;
use crate::bitmap::bitset::bitmap_set;
use crate::bitmap::bytes::{le16, le32, le64};
use crate::bitmap::container::{payload_ok, payload_set, ContainerKind};
use crate::bitmap::count::{count, lemma_count_none, lemma_count_same};
use crate::bitmap::run::{lemma_run_total, run_end, run_set, run_start, runs_sorted};

verus! {

/// A 16-bit number is read back from its two bytes, the lower one first.
pub proof fn law_u16_bytes(b: Seq<u8>, at: int, n: int)
    requires
        b[at] == n % 256,
        b[at + 1] == n / 256,
    ensures
        le16(b, at) == n,
{
}

/// A 32-bit number is read back from its four bytes, the lowest first.
pub proof fn law_u32_bytes(b: Seq<u8>, at: int, n: int)
    requires
        b[at] == n % 256,
        b[at + 1] == n / 0x100 % 256,
        b[at + 2] == n / 0x1_0000 % 256,
        b[at + 3] == n / 0x100_0000,
    ensures
        le32(b, at) == n,
{
    assert(n == n % 256 + 0x100 * (n / 0x100));
    assert(n / 0x100 == n / 0x100 % 256 + 0x100 * (n / 0x1_0000));
    assert(n / 0x1_0000 == n / 0x1_0000 % 256 + 0x100 * (n / 0x100_0000));
}

/// A 64-bit number is read back from its eight bytes, the lowest first.
pub proof fn law_u64_bytes(b: Seq<u8>, at: int, n: u64)
    requires
        b[at] == n % 256,
        b[at + 1] == n / 0x100 % 256,
        b[at + 2] == n / 0x1_0000 % 256,
        b[at + 3] == n / 0x100_0000 % 256,
        b[at + 4] == n / 0x1_0000_0000 % 256,
        b[at + 5] == n / 0x100_0000_0000 % 256,
        b[at + 6] == n / 0x1_0000_0000_0000 % 256,
        b[at + 7] == n / 0x100_0000_0000_0000,
    ensures
        le64(b, at) == n,
{
    let (b0, b1, b2, b3) = (b[at], b[at + 1], b[at + 2], b[at + 3]);
    let (b4, b5, b6, b7) = (b[at + 4], b[at + 5], b[at + 6], b[at + 7]);
    assert((b0 as u64) | ((b1 as u64) << 8) | ((b2 as u64) << 16) | ((b3 as u64) << 24) | ((
    b4 as u64) << 32) | ((b5 as u64) << 40) | ((b6 as u64) << 48) | ((b7 as u64) << 56) == n)
        by (bit_vector)
        requires
            b0 == n % 256,
            b1 == n / 0x100 % 256,
            b2 == n / 0x1_0000 % 256,
            b3 == n / 0x100_0000 % 256,
            b4 == n / 0x1_0000_0000 % 256,
            b5 == n / 0x100_0000_0000 % 256,
            b6 == n / 0x1_0000_0000_0000 % 256,
            b7 == n / 0x100_0000_0000_0000,
    ;
}

/// An array payload that is written from increasing 16-bit values, each as its two bytes, stands
/// for those values and no others.
pub proof fn law_array_payload(p: Seq<u8>, values: Seq<int>)
    requires
        1 <= values.len() <= 4096,
        forall|j: int| 0 <= j < values.len() ==> 0 <= #[trigger] values[j] < 0x1_0000,
        forall|j: int, k: int|
            0 <= j < k < values.len() ==> #[trigger] values[j] < #[trigger] values[k],
        p.len() == 2 * values.len(),
        forall|j: int|
            0 <= j < values.len() ==> p[2 * j] == (#[trigger] values[j]) % 256 && p[2 * j + 1]
                == values[j] / 256,
    ensures
        payload_ok(ContainerKind::Array, values.len() as int, p),
        forall|v: int|
            payload_set(ContainerKind::Array, p).contains(v) <==> #[trigger] values.contains(v),
{
    assert forall|j: int| 0 <= j < values.len() implies #[trigger] array_at(p, j) == values[j] by {
        law_u16_bytes(p, 2 * j, values[j]);
    }
    assert forall|v: int|
        payload_set(ContainerKind::Array, p).contains(v) <==> #[trigger] values.contains(v) by {
        if values.contains(v) {
            let j = choose|j: int| 0 <= j < values.len() && values[j] == v;
            assert(array_at(p, j) == v);
        }
        if array_set(p).contains(v) {
            let j = choose|j: int| 0 <= j < array_len(p) && #[trigger] array_at(p, j) == v;
            assert(values[j] == v);
        }
    }
    assert(array_split(p, array_len(p), 0x1_0000));
    lemma_array_count_below(p, array_len(p), 0x1_0000);
}

/// The byte with bit `k` set exactly for the values `8 * x + k` of a set.
pub open spec fn byte_of(s: Set<int>, x: int) -> int {
    (if s.contains(8 * x) {
        1int
    } else {
        0
    }) + (if s.contains(8 * x + 1) {
        2int
    } else {
        0
    }) + (if s.contains(8 * x + 2) {
        4int
    } else {
        0
    }) + (if s.contains(8 * x + 3) {
        8int
    } else {
        0
    }) + (if s.contains(8 * x + 4) {
        16int
    } else {
        0
    }) + (if s.contains(8 * x + 5) {
        32int
    } else {
        0
    }) + (if s.contains(8 * x + 6) {
        64int
    } else {
        0
    }) + (if s.contains(8 * x + 7) {
        128int
    } else {
        0
    })
}

/// The bits of a byte are those that were added up.
proof fn lemma_byte_of(b: u8, s: Set<int>, x: int, k: int)
    requires
        b == byte_of(s, x),
        0 <= k < 8,
    ensures
        byte_bit(b, k) <==> s.contains(8 * x + k),
{
    let c0 = s.contains(8 * x);
    let c1 = s.contains(8 * x + 1);
    let c2 = s.contains(8 * x + 2);
    let c3 = s.contains(8 * x + 3);
    let c4 = s.contains(8 * x + 4);
    let c5 = s.contains(8 * x + 5);
    let c6 = s.contains(8 * x + 6);
    let c7 = s.contains(8 * x + 7);
    lemma_sum_of_bits(b, c0, c1, c2, c3, c4, c5, c6, c7);
    assert(k == 0 || k == 1 || k == 2 || k == 3 || k == 4 || k == 5 || k == 6 || k == 7);
}

proof fn lemma_sum_of_bits(
    b: u8,
    c0: bool,
    c1: bool,
    c2: bool,
    c3: bool,
    c4: bool,
    c5: bool,
    c6: bool,
    c7: bool,
)
    by (bit_vector)
    requires
        b == (if c0 {
            1u8
        } else {
            0u8
        }) + (if c1 {
            2u8
        } else {
            0u8
        }) + (if c2 {
            4u8
        } else {
            0u8
        }) + (if c3 {
            8u8
        } else {
            0u8
        }) + (if c4 {
            16u8
        } else {
            0u8
        }) + (if c5 {
            32u8
        } else {
            0u8
        }) + (if c6 {
            64u8
        } else {
            0u8
        }) + (if c7 {
            128u8
        } else {
            0u8
        }),
    ensures
        (b >> 0u8) & 1u8 == 1u8 <==> c0,
        (b >> 1u8) & 1u8 == 1u8 <==> c1,
        (b >> 2u8) & 1u8 == 1u8 <==> c2,
        (b >> 3u8) & 1u8 == 1u8 <==> c3,
        (b >> 4u8) & 1u8 == 1u8 <==> c4,
        (b >> 5u8) & 1u8 == 1u8 <==> c5,
        (b >> 6u8) & 1u8 == 1u8 <==> c6,
        (b >> 7u8) & 1u8 == 1u8 <==> c7,
{
}

/// A set within a range has as many members as are counted there.
pub(crate) proof fn lemma_count_len(s: Set<int>, lo: int, hi: int)
    requires
        lo <= hi,
        forall|i: int| s.contains(i) ==> lo <= i < hi,
    ensures
        s.finite(),
        s.len() == count(s, lo, hi),
    decreases hi - lo,
{
    if lo == hi {
        assert(s =~= Set::<int>::empty());
    } else {
        let t = s.remove(hi - 1);
        lemma_count_len(t, lo, hi - 1);
        lemma_count_same(s, t, lo, hi - 1);
        if s.contains(hi - 1) {
            assert(s =~= t.insert(hi - 1));
        } else {
            assert(s =~= t);
        }
    }
}

/// A bitmap payload that is written from a set of 16-bit values, each byte as the sum of the bits
/// of its eight values, stands for that set.
pub proof fn law_bitmap_payload(p: Seq<u8>, s: Set<int>)
    requires
        forall|v: int| s.contains(v) ==> 0 <= v < 0x1_0000,
        s.len() > 4096,
        p.len() == 8192,
        forall|x: int| 0 <= x < 8192 ==> #[trigger] p[x] == byte_of(s, x),
    ensures
        payload_ok(ContainerKind::Bitmap, s.len() as int, p),
        payload_set(ContainerKind::Bitmap, p) == s,
{
    lemma_bitmap_bits(p, s);
    lemma_count_len(s, 0, 0x1_0000);
}

/// The bits of a bitmap payload are the values that it was written from.
pub(crate) proof fn lemma_bitmap_bits(p: Seq<u8>, s: Set<int>)
    requires
        forall|v: int| s.contains(v) ==> 0 <= v < 0x1_0000,
        p.len() == 8192,
        forall|x: int| 0 <= x < 8192 ==> #[trigger] p[x] == byte_of(s, x),
    ensures
        bitmap_set(p) == s,
{
    assert forall|v: int| bitmap_set(p).contains(v) <==> s.contains(v) by {
        if 0 <= v < 0x1_0000 {
            assert(p[v / 8] == byte_of(s, v / 8));
            lemma_byte_of(p[v / 8], s, v / 8, v % 8);
            assert(8 * (v / 8) + v % 8 == v);
        }
    }
    assert(bitmap_set(p) =~= s);
}

/// The number of values in the first `n` of some intervals, given by their first and last values.
pub open spec fn total(runs: Seq<(int, int)>, n: int) -> int
    decreases n,
{
    if n <= 0 {
        0
    } else {
        total(runs, n - 1) + (runs[n - 1].1 - runs[n - 1].0 + 1)
    }
}

/// One of the intervals holds the value.
pub open spec fn covered(runs: Seq<(int, int)>, v: int) -> bool {
    exists|r: int| 0 <= r < runs.len() && (#[trigger] runs[r]).0 <= v <= runs[r].1
}

/// A run payload that is written from increasing intervals of 16-bit values with gaps between
/// them, as their number and then the first value and the length less one of each, each number as
/// its two bytes, stands for the values of the intervals and no others.
pub proof fn law_run_payload(p: Seq<u8>, runs: Seq<(int, int)>)
    requires
        1 <= runs.len() < 0x1_0000,
        forall|r: int|
            0 <= r < runs.len() ==> 0 <= (#[trigger] runs[r]).0 <= runs[r].1 < 0x1_0000,
        forall|q: int, r: int|
            0 <= q < r < runs.len() ==> (#[trigger] runs[q]).1 + 1 < (#[trigger] runs[r]).0,
        p.len() == 2 + 4 * runs.len(),
        p[0] == runs.len() % 256,
        p[1] == runs.len() / 256,
        forall|r: int|
            0 <= r < runs.len() ==> p[2 + 4 * r] == (#[trigger] runs[r]).0 % 256 && p[3 + 4 * r]
                == runs[r].0 / 256 && p[4 + 4 * r] == (runs[r].1 - runs[r].0) % 256 && p[5 + 4 * r]
                == (runs[r].1 - runs[r].0) / 256,
    ensures
        payload_ok(
            ContainerKind::Run { runs: runs.len() as u16 },
            total(runs, runs.len() as int),
            p,
        ),
        forall|v: int|
            payload_set(ContainerKind::Run { runs: runs.len() as u16 }, p).contains(v)
                <==> #[trigger] covered(runs, v),
{
    let n = runs.len() as int;
    law_u16_bytes(p, 0, n);
    lemma_run_bounds(p, runs);
    assert forall|v: int| run_set(p, n).contains(v) <==> #[trigger] covered(runs, v) by {
        if covered(runs, v) {
            let r = choose|r: int| 0 <= r < runs.len() && (#[trigger] runs[r]).0 <= v <= runs[r].1;
            assert(run_start(p, r) <= v && v <= run_end(p, r));
        }
        if run_set(p, n).contains(v) {
            let r = choose|r: int|
                0 <= r < n && #[trigger] run_start(p, r) <= v && v <= run_end(p, r);
            assert(runs[r].0 <= v <= runs[r].1);
        }
    }
    lemma_total(p, runs, n);
}

/// The runs of a payload are the intervals that it was written from.
pub(crate) proof fn lemma_run_bounds(p: Seq<u8>, runs: Seq<(int, int)>)
    requires
        forall|r: int|
            0 <= r < runs.len() ==> p[2 + 4 * r] == (#[trigger] runs[r]).0 % 256 && p[3 + 4 * r]
                == runs[r].0 / 256 && p[4 + 4 * r] == (runs[r].1 - runs[r].0) % 256 && p[5 + 4 * r]
                == (runs[r].1 - runs[r].0) / 256,
    ensures
        forall|r: int|
            0 <= r < runs.len() ==> #[trigger] run_start(p, r) == runs[r].0 && run_end(p, r)
                == runs[r].1,
        forall|r: int|
            0 <= r < runs.len() ==> run_start(p, r) == runs[r].0 && #[trigger] run_end(p, r)
                == runs[r].1,
{
    assert forall|r: int| 0 <= r < runs.len() implies run_start(p, r) == runs[r].0 && run_end(p, r)
        == runs[r].1 by {
        law_u16_bytes(p, 2 + 4 * r, runs[r].0);
        law_u16_bytes(p, 4 + 4 * r, runs[r].1 - runs[r].0);
    }
}

pub(crate) proof fn lemma_total(p: Seq<u8>, runs: Seq<(int, int)>, n: int)
    requires
        0 <= n <= runs.len(),
        runs_sorted(p, n),
        forall|r: int|
            0 <= r < n ==> #[trigger] run_start(p, r) == runs[r].0 && run_end(p, r) == runs[r].1,
        forall|r: int| 0 <= r < n ==> (#[trigger] runs[r]).0 <= runs[r].1,
    ensures
        total(runs, n) == count(run_set(p, n), 0, 0x1_0000),
        total(runs, n) >= n,
    decreases n,
{
    if n == 0 {
        lemma_count_none(run_set(p, 0), 0, 0x1_0000);
    } else {
        lemma_total(p, runs, n - 1);
        lemma_run_total(p, n - 1);
        assert(run_start(p, n - 1) == runs[n - 1].0);
    }
}

} // verus!
