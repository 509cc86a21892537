//! Each set has one payload of each kind, and one sequence of chunks.

use vstd::prelude::*;

use crate::bitmap::array::{
    array_at, array_len, array_set, array_sorted, array_split, lemma_array_count_below,
};
use crate::bitmap::bits::byte_bit;
use crate::bitmap::bitset::bitmap_set;
use crate::bitmap::bytes::le16;
use crate::bitmap::chunk::{
    chunk_holds, chunk_set, chunk_values, chunks_ok, inhabited, lemma_block_present, within_u16,
    Chunk,
};
use crate::bitmap::container::{payload_ok, payload_set, ContainerKind};
use crate::bitmap::count::lemma_count_subset;
use crate::bitmap::run::{lemma_run_member, run_end, run_set, run_start, runs_sorted};

verus! {

/// Two payloads of one kind and one cardinality that stand for the same values are the same
/// bytes.
pub proof fn law_payload_canonical(kind: ContainerKind, cardinality: int, p: Seq<u8>, q: Seq<u8>)
    requires
        payload_ok(kind, cardinality, p),
        payload_ok(kind, cardinality, q),
        payload_set(kind, p) == payload_set(kind, q),
    ensures
        p == q,
{
    match kind {
        ContainerKind::Array => {
            assert forall|j: int| 0 <= j < cardinality implies #[trigger] array_at(p, j)
                == array_at(q, j) by {
                lemma_array_position(p, q, j);
            }
            assert forall|x: int| 0 <= x < p.len() implies p[x] == q[x] by {
                let j = x / 2;
                assert(array_at(p, j) == array_at(q, j));
                assert(x == 2 * j || x == 2 * j + 1);
            }
        },
        ContainerKind::Bitmap => {
            assert forall|x: int| 0 <= x < p.len() implies p[x] == q[x] by {
                assert forall|k: int| 0 <= k < 8 implies (byte_bit(p[x], k) <==> byte_bit(
                    q[x],
                    k,
                )) by {
                    let i = 8 * x + k;
                    assert(i / 8 == x && i % 8 == k);
                    assert(bitmap_set(p).contains(i) <==> bitmap_set(q).contains(i));
                }
                lemma_byte_from_bits(p[x], q[x]);
            }
        },
        ContainerKind::Run { runs } => {
            assert forall|r: int| 0 <= r < runs implies #[trigger] run_start(p, r) == run_start(
                q,
                r,
            ) && run_end(p, r) == run_end(q, r) by {
                lemma_same_run(p, q, runs as int, r);
            }
            assert forall|x: int| 0 <= x < p.len() implies p[x] == q[x] by {
                if x < 2 {
                    assert(le16(p, 0) == le16(q, 0));
                } else {
                    let r = (x - 2) / 4;
                    assert(run_start(p, r) == run_start(q, r));
                    assert(le16(p, 2 + 4 * r) == le16(q, 2 + 4 * r));
                    assert(le16(p, 4 + 4 * r) == le16(q, 4 + 4 * r));
                    assert(x == 2 + 4 * r || x == 3 + 4 * r || x == 4 + 4 * r || x == 5 + 4 * r);
                }
            }
        },
    }
    assert(p =~= q);
}

/// A bitmap payload never stands for a subset of what an array payload stands for: it has more
/// values than an array holds.
pub proof fn law_bitmap_outgrows_array(m: int, p: Seq<u8>, n: int, q: Seq<u8>)
    requires
        payload_ok(ContainerKind::Bitmap, m, p),
        payload_ok(ContainerKind::Array, n, q),
    ensures
        !bitmap_set(p).subset_of(array_set(q)),
{
    if bitmap_set(p).subset_of(array_set(q)) {
        lemma_count_subset(bitmap_set(p), array_set(q), 0, 0x1_0000);
    }
}

/// A value stands at the same position in two arrays with the same values.
proof fn lemma_array_position(p: Seq<u8>, q: Seq<u8>, j: int)
    requires
        array_sorted(p),
        array_sorted(q),
        array_set(p) == array_set(q),
        0 <= j < array_len(p),
    ensures
        j < array_len(q),
        array_at(p, j) == array_at(q, j),
{
    let v = array_at(p, j);
    assert(array_set(p).contains(v));
    assert(array_set(q).contains(v));
    let m = choose|m: int| 0 <= m < array_len(q) && #[trigger] array_at(q, m) == v;
    assert(array_split(p, j, v));
    assert(array_split(q, m, v));
    lemma_array_count_below(p, j, v);
    lemma_array_count_below(q, m, v);
}

/// Bytes with the same bits are the same.
proof fn lemma_byte_from_bits(a: u8, b: u8)
    requires
        forall|k: int| 0 <= k < 8 ==> (byte_bit(a, k) <==> byte_bit(b, k)),
    ensures
        a == b,
{
    assert(byte_bit(a, 0) <==> byte_bit(b, 0));
    assert(byte_bit(a, 1) <==> byte_bit(b, 1));
    assert(byte_bit(a, 2) <==> byte_bit(b, 2));
    assert(byte_bit(a, 3) <==> byte_bit(b, 3));
    assert(byte_bit(a, 4) <==> byte_bit(b, 4));
    assert(byte_bit(a, 5) <==> byte_bit(b, 5));
    assert(byte_bit(a, 6) <==> byte_bit(b, 6));
    assert(byte_bit(a, 7) <==> byte_bit(b, 7));
    assert(a == b) by (bit_vector)
        requires
            ((a >> 0u8) & 1u8 == 1u8) <==> ((b >> 0u8) & 1u8 == 1u8),
            ((a >> 1u8) & 1u8 == 1u8) <==> ((b >> 1u8) & 1u8 == 1u8),
            ((a >> 2u8) & 1u8 == 1u8) <==> ((b >> 2u8) & 1u8 == 1u8),
            ((a >> 3u8) & 1u8 == 1u8) <==> ((b >> 3u8) & 1u8 == 1u8),
            ((a >> 4u8) & 1u8 == 1u8) <==> ((b >> 4u8) & 1u8 == 1u8),
            ((a >> 5u8) & 1u8 == 1u8) <==> ((b >> 5u8) & 1u8 == 1u8),
            ((a >> 6u8) & 1u8 == 1u8) <==> ((b >> 6u8) & 1u8 == 1u8),
            ((a >> 7u8) & 1u8 == 1u8) <==> ((b >> 7u8) & 1u8 == 1u8),
    ;
}

/// Runs that are the same as far as `r` start alike at `r`, seen from one side.
proof fn lemma_run_starts(p: Seq<u8>, q: Seq<u8>, runs: int, r: int)
    requires
        runs_sorted(p, runs),
        runs_sorted(q, runs),
        run_set(p, runs) == run_set(q, runs),
        0 <= r < runs,
        r > 0 ==> run_end(p, r - 1) == run_end(q, r - 1),
    ensures
        run_start(q, r) <= run_start(p, r),
{
    let v = run_start(p, r);
    lemma_run_member(p, runs, r);
    assert(run_set(q, runs).contains(v));
    let m = choose|m: int| 0 <= m < runs && #[trigger] run_start(q, m) <= v && v <= run_end(q, m);
    if m < r {
        assert(run_end(p, r - 1) + 1 < run_start(p, r));
        if m < r - 1 {
            assert(run_end(q, m) + 1 < run_start(q, r - 1));
        }
    } else if r < m {
        assert(run_end(q, r) + 1 < run_start(q, m));
    }
}

/// Runs that start alike end alike, seen from one side.
proof fn lemma_run_ends(p: Seq<u8>, q: Seq<u8>, runs: int, r: int)
    requires
        runs_sorted(p, runs),
        runs_sorted(q, runs),
        run_set(p, runs) == run_set(q, runs),
        0 <= r < runs,
        run_start(p, r) == run_start(q, r),
    ensures
        run_end(q, r) <= run_end(p, r),
{
    if run_end(p, r) < run_end(q, r) {
        let v = run_end(p, r) + 1;
        lemma_run_member(q, runs, r);
        assert(run_set(p, runs).contains(v));
        let m = choose|m: int|
            0 <= m < runs && #[trigger] run_start(p, m) <= v && v <= run_end(p, m);
        if m < r {
            assert(run_end(p, m) + 1 < run_start(p, r));
        } else if r < m {
            assert(run_end(p, r) + 1 < run_start(p, m));
        }
    }
}

/// Runs with the same values are the same runs.
proof fn lemma_same_run(p: Seq<u8>, q: Seq<u8>, runs: int, r: int)
    requires
        runs_sorted(p, runs),
        runs_sorted(q, runs),
        run_set(p, runs) == run_set(q, runs),
        0 <= r < runs,
    ensures
        run_start(p, r) == run_start(q, r),
        run_end(p, r) == run_end(q, r),
    decreases r,
{
    if r > 0 {
        lemma_same_run(p, q, runs, r - 1);
    }
    lemma_run_starts(p, q, runs, r);
    lemma_run_starts(q, p, runs, r);
    lemma_run_ends(p, q, runs, r);
    lemma_run_ends(q, p, runs, r);
}

/// Chunks with the same values have the same keys as far as `i`, seen from one side.
proof fn lemma_chunk_keys(c: Seq<Chunk>, d: Seq<Chunk>, i: int)
    requires
        chunks_ok(c),
        chunks_ok(d),
        chunk_values(c) == chunk_values(d),
        0 <= i < c.len(),
        forall|j: int| 0 <= j < i ==> j < d.len() && #[trigger] c[j].key == d[j].key,
    ensures
        i < d.len(),
        d[i].key <= c[i].key,
{
    let key = c[i].key;
    assert(inhabited(c[i].values));
    let k = choose|k: int| c[i].values.contains(k);
    let v = 0x1_0000 * key + k;
    assert(within_u16(c[i].values));
    assert(v / 0x1_0000 == key && v % 0x1_0000 == k);
    assert(chunk_holds(c, i, v));
    assert(chunk_values(d).contains(v));
    let m = choose|m: int| 0 <= m < d.len() && #[trigger] chunk_holds(d, m, v);
    if m < i {
        assert(c[m].key == d[m].key);
        assert(c[m].key < c[i].key);
    } else if i < m {
        assert(d[i].key < d[m].key);
    }
}

proof fn lemma_same_key(c: Seq<Chunk>, d: Seq<Chunk>, i: int)
    requires
        chunks_ok(c),
        chunks_ok(d),
        chunk_values(c) == chunk_values(d),
        0 <= i < c.len(),
    ensures
        i < d.len(),
        forall|j: int| 0 <= j <= i ==> #[trigger] c[j].key == d[j].key,
    decreases i,
{
    if i > 0 {
        lemma_same_key(c, d, i - 1);
    }
    lemma_chunk_keys(c, d, i);
    lemma_chunk_keys(d, c, i);
}

/// Chunks that stand for the same set are the same.
pub proof fn law_chunks_canonical(c: Seq<Chunk>, d: Seq<Chunk>)
    requires
        chunks_ok(c),
        chunks_ok(d),
        chunk_set(c) == chunk_set(d),
    ensures
        c == d,
{
    assert forall|v: int| chunk_values(c).contains(v) <==> chunk_values(d).contains(v) by {
        lemma_chunk_bounds(c, v);
        lemma_chunk_bounds(d, v);
        if 0 <= v < 0x1_0000_0000 {
            let u = v as u32;
            assert(u as int == v);
            assert(chunk_set(c).contains(u) <==> chunk_values(c).contains(u as int));
            assert(chunk_set(d).contains(u) <==> chunk_values(d).contains(u as int));
        }
    }
    assert(chunk_values(c) =~= chunk_values(d));
    if c.len() > 0 {
        lemma_same_key(c, d, c.len() - 1);
    }
    if d.len() > 0 {
        lemma_same_key(d, c, d.len() - 1);
    }
    assert forall|i: int| 0 <= i < c.len() implies c[i] == d[i] by {
        assert(c[i].key == d[i].key);
        lemma_block_present(c, i);
        lemma_block_present(d, i);
    }
    assert(c =~= d);
}

/// The values of chunks are 32-bit values.
proof fn lemma_chunk_bounds(c: Seq<Chunk>, v: int)
    requires
        chunks_ok(c),
    ensures
        chunk_values(c).contains(v) ==> 0 <= v < 0x1_0000_0000,
{
    if chunk_values(c).contains(v) {
        let i = choose|i: int| 0 <= i < c.len() && #[trigger] chunk_holds(c, i, v);
        assert(0 <= c[i].key < 0x1_0000);
    }
}

} // verus!
