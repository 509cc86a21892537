//! The format as a writer sees it, and what is read from what was written.
//!
//! The writer puts numbers into bytes by division and remainder. What is said here of a byte
//! speaks of its value alone, so that the laws tie the reader to the numbers that were written.

use vstd::prelude::*;

use crate::bitmap::array::array_at;
use crate::bitmap::bits::byte_bit;
use crate::bitmap::bitset::bitmap_set;
use crate::bitmap::bytes::le32;
use crate::bitmap::chunk::{chunk_holds, chunk_set};
use crate::bitmap::container::{payload_len, payload_ok, payload_set, ContainerKind};
use crate::bitmap::count::lemma_count_none;
use crate::bitmap::error::ParseError;
use crate::bitmap::format::{parse, parse_header, Header};
use crate::bitmap::format_laws::{
    container_ok, header_of, law_accepts, lemma_header, lemma_keys, lemma_payload_at,
};
use crate::bitmap::payload_laws::{
    byte_of, covered, law_array_payload, law_bitmap_payload, law_run_payload, law_u16_bytes,
    law_u32_bytes, lemma_count_len, lemma_total, total,
};
use crate::bitmap::run::{run_end, run_set, run_start};
use crate::bitmap::view::RoaringBitmapView;

verus! {

/// What a writer puts into a container.
pub enum Body {
    /// Increasing values.
    Array { values: Seq<int> },
    /// A set of values.
    Bitmap { set: Set<int> },
    /// Increasing intervals, each by its first and its last value.
    Runs { runs: Seq<(int, int)> },
}

/// A container to be written: the upper 16 bits of its values, and their lower 16 bits.
pub struct Piece {
    pub key: int,
    pub body: Body,
}

/// The body holds the value.
pub open spec fn holds(body: Body, v: int) -> bool {
    match body {
        Body::Array { values } => values.contains(v),
        Body::Bitmap { set } => set.contains(v),
        Body::Runs { runs } => covered(runs, v),
    }
}

/// The number of values of a body.
pub open spec fn members(body: Body) -> int {
    match body {
        Body::Array { values } => values.len() as int,
        Body::Bitmap { set } => set.len() as int,
        Body::Runs { runs } => total(runs, runs.len() as int),
    }
}

/// The number of bytes that a body takes.
pub open spec fn size(body: Body) -> int {
    match body {
        Body::Array { values } => 2 * values.len() as int,
        Body::Bitmap { .. } => 8192,
        Body::Runs { runs } => 2 + 4 * runs.len() as int,
    }
}

/// The values are 16-bit values in order: at most 4096 in an array, more in a bitmap, and a gap
/// between any two runs.
pub open spec fn in_order(body: Body) -> bool {
    match body {
        Body::Array { values } => {
            &&& 1 <= values.len() <= 4096
            &&& forall|j: int| 0 <= j < values.len() ==> 0 <= #[trigger] values[j] < 0x1_0000
            &&& forall|j: int, k: int|
                0 <= j < k < values.len() ==> #[trigger] values[j] < #[trigger] values[k]
        },
        Body::Bitmap { set } => {
            &&& forall|v: int| set.contains(v) ==> 0 <= v < 0x1_0000
            &&& set.len() > 4096
        },
        Body::Runs { runs } => {
            &&& 1 <= runs.len() < 0x1_0000
            &&& forall|r: int|
                0 <= r < runs.len() ==> 0 <= (#[trigger] runs[r]).0 <= runs[r].1 < 0x1_0000
            &&& forall|q: int, r: int|
                0 <= q < r < runs.len() ==> (#[trigger] runs[q]).1 + 1 < (#[trigger] runs[r]).0
        },
    }
}

/// The keys are increasing 16-bit values, and each body is in order.
pub open spec fn pieces_in_order(pieces: Seq<Piece>) -> bool {
    &&& forall|i: int| 0 <= i < pieces.len() ==> 0 <= (#[trigger] pieces[i]).key < 0x1_0000
    &&& forall|i: int, j: int|
        0 <= i < j < pieces.len() ==> (#[trigger] pieces[i]).key < (#[trigger] pieces[j]).key
    &&& forall|i: int| 0 <= i < pieces.len() ==> in_order((#[trigger] pieces[i]).body)
}

/// The two bytes at `at` are those of a 16-bit number.
pub open spec fn two(b: Seq<u8>, at: int, n: int) -> bool {
    &&& b[at] == n % 256
    &&& b[at + 1] == n / 256
}

/// The four bytes at `at` are those of a 32-bit number.
pub open spec fn four(b: Seq<u8>, at: int, n: int) -> bool {
    &&& b[at] == n % 256
    &&& b[at + 1] == n / 0x100 % 256
    &&& b[at + 2] == n / 0x1_0000 % 256
    &&& b[at + 3] == n / 0x100_0000
}

/// Bit `k` of a byte.
pub open spec fn bit(byte: int, k: int) -> bool {
    (if k == 0 {
        byte
    } else if k == 1 {
        byte / 2
    } else if k == 2 {
        byte / 4
    } else if k == 3 {
        byte / 8
    } else if k == 4 {
        byte / 16
    } else if k == 5 {
        byte / 32
    } else if k == 6 {
        byte / 64
    } else {
        byte / 128
    }) % 2 == 1
}

/// The bytes at `at` are those of 16-bit values, one after the other.
pub open spec fn array_written(b: Seq<u8>, at: int, values: Seq<int>) -> bool {
    forall|j: int|
        0 <= j < values.len() ==> b[at + 2 * j] == (#[trigger] values[j]) % 256 && b[at + 2 * j + 1]
            == values[j] / 256
}

/// The bytes at `at` have a bit for each 16-bit value, set for the members of the set.
pub open spec fn bitmap_written(b: Seq<u8>, at: int, set: Set<int>) -> bool {
    forall|x: int| 0 <= x < 8192 ==> b[at + x] == #[trigger] byte_of(set, x)
}

/// The bytes at `at` are those of the number of runs, and then of the first value and of the
/// length less one of each.
pub open spec fn runs_written(b: Seq<u8>, at: int, runs: Seq<(int, int)>) -> bool {
    &&& b[at] == runs.len() % 256
    &&& b[at + 1] == runs.len() / 256
    &&& forall|r: int|
        0 <= r < runs.len() ==> b[at + 2 + 4 * r] == (#[trigger] runs[r]).0 % 256 && b[at + 3 + 4
            * r] == runs[r].0 / 256 && b[at + 4 + 4 * r] == (runs[r].1 - runs[r].0) % 256 && b[at
            + 5 + 4 * r] == (runs[r].1 - runs[r].0) / 256
}

/// The bytes at `at` are those of a body.
pub open spec fn body_written(b: Seq<u8>, at: int, body: Body) -> bool {
    match body {
        Body::Array { values } => array_written(b, at, values),
        Body::Bitmap { set } => bitmap_written(b, at, set),
        Body::Runs { runs } => runs_written(b, at, runs),
    }
}

/// Where the descriptions of `n` containers start.
pub open spec fn descriptions_at(n: int, flags: bool) -> int {
    if flags {
        4 + (n + 7) / 8
    } else {
        8
    }
}

/// Whether the offsets of the payloads are written.
pub open spec fn with_offsets(n: int, flags: bool) -> bool {
    !flags || n >= 4
}

/// Where the offsets of the payloads start.
pub open spec fn offsets_at(n: int, flags: bool) -> int {
    descriptions_at(n, flags) + 4 * n
}

/// Where the payloads start.
pub open spec fn payloads_at(n: int, flags: bool) -> int {
    if with_offsets(n, flags) {
        offsets_at(n, flags) + 4 * n
    } else {
        offsets_at(n, flags)
    }
}

/// The cookie and the number of containers are written, and the tables are all there. With
/// `flags`, there is a bit for each container that tells run containers apart.
pub open spec fn header_written(b: Seq<u8>, n: int, flags: bool) -> bool {
    &&& payloads_at(n, flags) <= b.len()
    &&& if flags {
        &&& 1 <= n <= 0x1_0000
        &&& b[0] == 0x3b
        &&& b[1] == 0x30
        &&& two(b, 2, n - 1)
    } else {
        &&& 0 <= n <= 0x1_0000
        &&& b[0] == 0x3a
        &&& b[1] == 0x30
        &&& b[2] == 0
        &&& b[3] == 0
        &&& four(b, 4, n)
    }
}

/// What is written of container `i` in the tables.
pub open spec fn described(
    b: Seq<u8>,
    n: int,
    flags: bool,
    i: int,
    key: int,
    cardinality: int,
    run: bool,
    offset: int,
) -> bool {
    &&& two(b, descriptions_at(n, flags) + 4 * i, key)
    &&& two(b, descriptions_at(n, flags) + 4 * i + 2, cardinality - 1)
    &&& if flags {
        bit(b[4 + i / 8] as int, i % 8) <==> run
    } else {
        !run
    }
    &&& with_offsets(n, flags) ==> four(b, offsets_at(n, flags) + 4 * i, offset)
}

/// Where payload `i` lies when the first one lies at `base`.
pub open spec fn piece_at(pieces: Seq<Piece>, base: int, i: int) -> int
    decreases i,
{
    if i <= 0 {
        base
    } else {
        piece_at(pieces, base, i - 1) + size(pieces[i - 1].body)
    }
}

/// Container `i` is written.
pub open spec fn piece_written(
    b: Seq<u8>,
    n: int,
    flags: bool,
    pieces: Seq<Piece>,
    i: int,
) -> bool {
    let piece = pieces[i];
    let at = piece_at(pieces, payloads_at(n, flags), i);
    &&& described(b, n, flags, i, piece.key, members(piece.body), piece.body is Runs, at)
    &&& body_written(b, at, piece.body)
}

/// The bytes are the start of a bitmap of `n` containers, of which the first are the pieces.
pub open spec fn begins(b: Seq<u8>, n: int, flags: bool, pieces: Seq<Piece>) -> bool {
    &&& header_written(b, n, flags)
    &&& pieces.len() <= n
    &&& piece_at(pieces, payloads_at(n, flags), pieces.len() as int) <= b.len()
    &&& forall|i: int| 0 <= i < pieces.len() ==> #[trigger] piece_written(b, n, flags, pieces, i)
}

/// The kind of container that a body is written as.
pub(crate) open spec fn kind_of(body: Body) -> ContainerKind {
    match body {
        Body::Array { .. } => ContainerKind::Array,
        Body::Bitmap { .. } => ContainerKind::Bitmap,
        Body::Runs { runs } => ContainerKind::Run { runs: runs.len() as u16 },
    }
}

/// A body that is written is a payload that stands for its values.
proof fn lemma_body(b: Seq<u8>, at: int, body: Body)
    requires
        0 <= at,
        at + size(body) <= b.len(),
        in_order(body),
        body_written(b, at, body),
    ensures
        payload_ok(kind_of(body), members(body), b.subrange(at, at + size(body))),
        forall|v: int|
            payload_set(kind_of(body), b.subrange(at, at + size(body))).contains(v)
                <==> #[trigger] holds(body, v),
        payload_len(kind_of(body), members(body)) == size(body),
{
    let p = b.subrange(at, at + size(body));
    match body {
        Body::Array { values } => {
            law_array_payload(p, values);
        },
        Body::Bitmap { set } => {
            assert forall|x: int| 0 <= x < 8192 implies #[trigger] p[x] == byte_of(set, x) by {}
            law_bitmap_payload(p, set);
        },
        Body::Runs { runs } => {
            law_run_payload(p, runs);
        },
    }
}

/// A flag is the bit of its byte.
proof fn lemma_bit(byte: u8, k: int)
    requires
        0 <= k < 8,
    ensures
        byte_bit(byte, k) <==> bit(byte as int, k),
{
    assert((byte >> 0u8) & 1u8 == byte % 2 && (byte >> 1u8) & 1u8 == byte / 2 % 2 && (byte >> 2u8)
        & 1u8 == byte / 4 % 2 && (byte >> 3u8) & 1u8 == byte / 8 % 2 && (byte >> 4u8) & 1u8 == byte
        / 16 % 2 && (byte >> 5u8) & 1u8 == byte / 32 % 2 && (byte >> 6u8) & 1u8 == byte / 64 % 2
        && (byte >> 7u8) & 1u8 == byte / 128 % 2) by (bit_vector);
    assert(k == 0 || k == 1 || k == 2 || k == 3 || k == 4 || k == 5 || k == 6 || k == 7);
}

/// A header that is written is read.
pub(crate) proof fn lemma_header_written(b: Seq<u8>, n: int, flags: bool)
    requires
        header_written(b, n, flags),
    ensures
        parse_header(b) == Ok::<Header, ParseError>(header_of(n, flags)),
        header_of(n, flags).descriptions == descriptions_at(n, flags),
        header_of(n, flags).has_offsets == with_offsets(n, flags),
        header_of(n, flags).offsets() == offsets_at(n, flags),
        header_of(n, flags).payloads() == payloads_at(n, flags),
{
    if flags {
        law_u16_bytes(b, 2, n - 1);
    } else {
        law_u32_bytes(b, 4, n);
    }
}

/// What is described in the tables is read.
pub(crate) proof fn lemma_described(
    b: Seq<u8>,
    n: int,
    flags: bool,
    i: int,
    key: int,
    cardinality: int,
    run: bool,
    offset: int,
)
    requires
        header_written(b, n, flags),
        described(b, n, flags, i, key, cardinality, run, offset),
        0 <= i < n,
    ensures
        ({
            let h = header_of(n, flags);
            &&& h.key(b, i) == key
            &&& h.cardinality(b, i) == cardinality
            &&& h.is_run(b, i) == run
            &&& h.has_offsets ==> h.offset(b, i) == offset
        }),
{
    let d = descriptions_at(n, flags) + 4 * i;
    lemma_header_written(b, n, flags);
    law_u16_bytes(b, d, key);
    law_u16_bytes(b, d + 2, cardinality - 1);
    if flags {
        lemma_bit(b[4 + i / 8], i % 8);
    }
    if with_offsets(n, flags) {
        law_u32_bytes(b, offsets_at(n, flags) + 4 * i, offset);
    }
}

proof fn lemma_piece_at(pieces: Seq<Piece>, base: int, i: int, j: int)
    requires
        0 <= i <= j,
    ensures
        piece_at(pieces, base, i) <= piece_at(pieces, base, j),
    decreases j,
{
    if i < j {
        lemma_piece_at(pieces, base, i, j - 1);
    }
}

/// Container `j` is in order, and has the key and the values of piece `j`.
pub(crate) open spec fn piece_read(b: Seq<u8>, h: Header, pieces: Seq<Piece>, j: int) -> bool {
    &&& container_ok(h, b, j)
    &&& h.key(b, j) == pieces[j].key
    &&& h.cardinality(b, j) == members(pieces[j].body)
    &&& h.kind(b, j) == kind_of(pieces[j].body)
    &&& forall|v: int| h.chunk(b, j).values.contains(v) <==> #[trigger] holds(pieces[j].body, v)
}

/// The pieces that are written are read.
pub(crate) proof fn lemma_begins(b: Seq<u8>, n: int, flags: bool, pieces: Seq<Piece>, i: int)
    requires
        pieces_in_order(pieces),
        begins(b, n, flags, pieces),
        0 <= i <= pieces.len(),
    ensures
        ({
            let h = header_of(n, flags);
            &&& h.payload_at(b, i) == piece_at(pieces, payloads_at(n, flags), i)
            &&& forall|j: int| 0 <= j < i ==> #[trigger] piece_read(b, h, pieces, j)
        }),
    decreases i,
{
    let h = header_of(n, flags);
    let base = payloads_at(n, flags);
    lemma_header_written(b, n, flags);
    if i > 0 {
        let k = i - 1;
        lemma_begins(b, n, flags, pieces, k);
        let piece = pieces[k];
        let at = piece_at(pieces, base, k);
        assert(piece_written(b, n, flags, pieces, k));
        lemma_piece_at(pieces, base, 0, k);
        lemma_piece_at(pieces, base, i, pieces.len() as int);
        lemma_described(
            b,
            n,
            flags,
            k,
            piece.key,
            members(piece.body),
            piece.body is Runs,
            at,
        );
        lemma_body(b, at, piece.body);
        if let Body::Runs { runs } = piece.body {
            law_u16_bytes(b, at, runs.len() as int);
        }
        assert(h.kind(b, k) == kind_of(piece.body));
        assert(h.payload_at(b, i) == at + size(piece.body));
        if k > 0 {
            assert(pieces[k - 1].key < pieces[k].key);
            assert(piece_read(b, h, pieces, k - 1));
            assert(h.key(b, k - 1) == pieces[k - 1].key);
        }
        assert(piece_read(b, h, pieces, k));
    }
}

/// Piece `i` holds the 32-bit value.
pub open spec fn piece_holds(pieces: Seq<Piece>, i: int, v: int) -> bool {
    pieces[i].key == v / 0x1_0000 && holds(pieces[i].body, v % 0x1_0000)
}

/// What is written is read: bytes that start with the pieces of a bitmap are accepted, and the
/// values of the bitmap are those of the pieces, whatever follows.
pub proof fn law_written_is_read(b: Seq<u8>, flags: bool, pieces: Seq<Piece>)
    requires
        pieces_in_order(pieces),
        begins(b, pieces.len() as int, flags, pieces),
    ensures
        parse(b) is Ok,
        forall|v: u32|
            chunk_set(parse(b).unwrap()).contains(v) <==> exists|i: int|
                0 <= i < pieces.len() && #[trigger] piece_holds(pieces, i, v as int),
{
    let n = pieces.len() as int;
    let h = header_of(n, flags);
    lemma_header_written(b, n, flags);
    lemma_begins(b, n, flags, pieces, n);
    law_accepts(b);
    assert forall|i: int| 0 <= i < n implies #[trigger] container_ok(h, b, i) by {
        assert(piece_read(b, h, pieces, i));
    }
    let c = parse(b).unwrap();
    assert forall|v: u32|
        chunk_set(c).contains(v) <==> exists|i: int|
            0 <= i < pieces.len() && #[trigger] piece_holds(pieces, i, v as int) by {
        assert forall|i: int| 0 <= i < n implies chunk_holds(c, i, v as int)
            == #[trigger] piece_holds(pieces, i, v as int) by {
            assert(piece_read(b, h, pieces, i));
            assert(holds(pieces[i].body, v as int % 0x1_0000) == h.chunk(b, i).values.contains(
                v as int % 0x1_0000,
            ));
        }
        if chunk_set(c).contains(v) {
            let i = choose|i: int| 0 <= i < c.len() && #[trigger] chunk_holds(c, i, v as int);
            assert(piece_holds(pieces, i, v as int));
        }
        if exists|i: int| 0 <= i < pieces.len() && #[trigger] piece_holds(pieces, i, v as int) {
            let i = choose|i: int|
                0 <= i < pieces.len() && #[trigger] piece_holds(pieces, i, v as int);
            assert(chunk_holds(c, i, v as int));
        }
    }
}

/// The containers of a view over what is written are the pieces: each has the key, the number of
/// values and the kind of its piece, and its payload lies where that of the piece was written.
pub proof fn law_layout(
    b: Seq<u8>,
    flags: bool,
    pieces: Seq<Piece>,
    view: RoaringBitmapView,
    i: int,
)
    requires
        pieces_in_order(pieces),
        begins(b, pieces.len() as int, flags, pieces),
        view.borrowed() == b,
        view.laid_out_as(parse_header(b).unwrap()),
        0 <= i < pieces.len(),
    ensures
        view.container_count() == pieces.len(),
        view.key(i) == pieces[i].key,
        view.cardinality(i) == members(pieces[i].body),
        view.payload_start(i) == piece_at(
            pieces,
            payloads_at(pieces.len() as int, flags),
            i,
        ),
        match pieces[i].body {
            Body::Array { .. } => view.kind(i) is Array,
            Body::Bitmap { .. } => view.kind(i) is Bitmap,
            Body::Runs { runs: list } => view.kind(i) matches ContainerKind::Run { runs } && runs
                == list.len(),
        },
{
    let n = pieces.len() as int;
    lemma_header_written(b, n, flags);
    lemma_begins(b, n, flags, pieces, i);
    lemma_begins(b, n, flags, pieces, n);
    assert(piece_read(b, header_of(n, flags), pieces, i));
    assert(in_order(pieces[i].body));
    assert(view.key(i) == pieces[i].key);
}

/// The body that a payload of a kind is read as.
spec fn body_of(kind: ContainerKind, cardinality: int, p: Seq<u8>) -> Body {
    match kind {
        ContainerKind::Array => Body::Array {
            values: Seq::new(cardinality as nat, |j: int| array_at(p, j)),
        },
        ContainerKind::Bitmap => Body::Bitmap { set: bitmap_set(p) },
        ContainerKind::Run { runs } => Body::Runs {
            runs: Seq::new(runs as nat, |r: int| (run_start(p, r), run_end(p, r))),
        },
    }
}

/// A payload is what its body is written as.
proof fn lemma_body_of(kind: ContainerKind, cardinality: int, b: Seq<u8>, at: int, p: Seq<u8>)
    requires
        0 <= at,
        at + payload_len(kind, cardinality) <= b.len(),
        p == b.subrange(at, at + payload_len(kind, cardinality)),
        payload_ok(kind, cardinality, p),
    ensures
        ({
            let body = body_of(kind, cardinality, p);
            &&& in_order(body)
            &&& members(body) == cardinality
            &&& size(body) == payload_len(kind, cardinality)
            &&& body_written(b, at, body)
            &&& body is Runs <==> kind is Run
        }),
{
    match kind {
        ContainerKind::Array => {
            let values = Seq::new(cardinality as nat, |j: int| array_at(p, j));
            assert forall|j: int| 0 <= j < values.len() implies b[at + 2 * j] == (
            #[trigger] values[j]) % 256 && b[at + 2 * j + 1] == values[j] / 256 by {
                assert(p[2 * j] == b[at + 2 * j] && p[2 * j + 1] == b[at + 2 * j + 1]);
            }
            assert forall|j: int, k: int| 0 <= j < k < values.len() implies #[trigger] values[j]
                < #[trigger] values[k] by {
                assert(array_at(p, j) < array_at(p, k));
            }
            assert(array_written(b, at, values));
        },
        ContainerKind::Bitmap => {
            let set = bitmap_set(p);
            lemma_count_len(set, 0, 0x1_0000);
            assert forall|x: int| 0 <= x < 8192 implies b[at + x] == #[trigger] byte_of(
                set,
                x,
            ) by {
                assert(p[x] == b[at + x]);
                assert forall|k: int| 0 <= k < 8 implies (set.contains(8 * x + k) <==> byte_bit(
                    p[x],
                    k,
                )) by {
                    assert((8 * x + k) / 8 == x && (8 * x + k) % 8 == k);
                }
                lemma_byte_sum(p[x], set, x);
            }
            assert(bitmap_written(b, at, set));
        },
        ContainerKind::Run { runs: n } => {
            let runs = Seq::new(n as nat, |r: int| (run_start(p, r), run_end(p, r)));
            if n == 0 {
                lemma_count_none(run_set(p, 0), 0, 0x1_0000);
            }
            assert forall|r: int| 0 <= r < n implies 0 <= (#[trigger] runs[r]).0 <= runs[r].1
                < 0x1_0000 by {
                assert(run_end(p, r) < 0x1_0000);
            }
            assert forall|q: int, r: int| 0 <= q < r < n implies (#[trigger] runs[q]).1 + 1 < (
            #[trigger] runs[r]).0 by {
                assert(run_end(p, q) + 1 < run_start(p, r));
            }
            lemma_total(p, runs, n as int);
            assert(p[0] == b[at] && p[1] == b[at + 1]);
            assert forall|r: int| 0 <= r < runs.len() implies b[at + 2 + 4 * r] == (
            #[trigger] runs[r]).0 % 256 && b[at + 3 + 4 * r] == runs[r].0 / 256 && b[at + 4 + 4 * r]
                == (runs[r].1 - runs[r].0) % 256 && b[at + 5 + 4 * r] == (runs[r].1 - runs[r].0)
                / 256 by {
                assert(p[2 + 4 * r] == b[at + 2 + 4 * r] && p[3 + 4 * r] == b[at + 3 + 4 * r]);
                assert(p[4 + 4 * r] == b[at + 4 + 4 * r] && p[5 + 4 * r] == b[at + 5 + 4 * r]);
            }
            assert(runs_written(b, at, runs));
        },
    }
}

/// A byte is the sum of its bits.
proof fn lemma_byte_sum(byte: u8, set: Set<int>, x: int)
    requires
        forall|k: int| 0 <= k < 8 ==> (set.contains(8 * x + k) <==> byte_bit(byte, k)),
    ensures
        byte == byte_of(set, x),
{
    assert(set.contains(8 * x + 0) <==> byte_bit(byte, 0));
    assert(set.contains(8 * x + 1) <==> byte_bit(byte, 1));
    assert(set.contains(8 * x + 2) <==> byte_bit(byte, 2));
    assert(set.contains(8 * x + 3) <==> byte_bit(byte, 3));
    assert(set.contains(8 * x + 4) <==> byte_bit(byte, 4));
    assert(set.contains(8 * x + 5) <==> byte_bit(byte, 5));
    assert(set.contains(8 * x + 6) <==> byte_bit(byte, 6));
    assert(set.contains(8 * x + 7) <==> byte_bit(byte, 7));
    assert(byte == (byte >> 0u8) % 2 * 1 + (byte >> 1u8) % 2 * 2 + (byte >> 2u8) % 2 * 4 + (byte
        >> 3u8) % 2 * 8 + (byte >> 4u8) % 2 * 16 + (byte >> 5u8) % 2 * 32 + (byte >> 6u8) % 2 * 64
        + (byte >> 7u8) % 2 * 128) by (bit_vector);
    assert(forall|k: u8| 0 <= k < 8 ==> (#[trigger] (byte >> k)) & 1u8 == (byte >> k) % 2)
        by (bit_vector);
}

/// The header, the tables and the payloads of accepted bytes, as a writer sees them: only what is
/// written from pieces in order is accepted.
pub proof fn law_only_written_is_accepted(b: Seq<u8>) -> (source: (bool, Seq<Piece>))
    requires
        parse(b) is Ok,
    ensures
        pieces_in_order(source.1),
        begins(b, source.1.len() as int, source.0, source.1),
{
    let h = parse_header(b).unwrap();
    let n = h.count;
    let flags = h.run_flags is Some;
    let base = payloads_at(n, flags);
    let pieces = Seq::new(
        n as nat,
        |i: int|
            Piece {
                key: h.key(b, i),
                body: body_of(h.kind(b, i), h.cardinality(b, i), h.payload(b, i)),
            },
    );
    lemma_header(b);
    law_accepts(b);
    lemma_cookie_bytes(b);
    assert(h == header_of(n, flags));
    lemma_header_written(b, n, flags);
    lemma_pieces_at(b, h, pieces, base, n);
    assert forall|i: int| 0 <= i < n implies 0 <= (#[trigger] pieces[i]).key < 0x1_0000 && in_order(
        pieces[i].body,
    ) by {
        lemma_pieces_at(b, h, pieces, base, i);
        lemma_pieces_at(b, h, pieces, base, i + 1);
    }
    assert forall|i: int, j: int| 0 <= i < j < n implies (#[trigger] pieces[i]).key < (
    #[trigger] pieces[j]).key by {
        lemma_keys(h, b, i, j);
    }
    assert forall|i: int| 0 <= i < n implies #[trigger] piece_written(b, n, flags, pieces, i) by {
        lemma_pieces_at(b, h, pieces, base, i);
        lemma_pieces_at(b, h, pieces, base, i + 1);
        assert(container_ok(h, b, i));
        if flags {
            lemma_bit(b[4 + i / 8], i % 8);
        }
        if h.has_offsets {
            lemma_four(b, offsets_at(n, flags) + 4 * i);
        }
    }
    if n > 0 {
        assert(container_ok(h, b, n - 1));
    }
    (flags, pieces)
}

/// Four bytes are those of the number that they are read as.
proof fn lemma_four(b: Seq<u8>, at: int)
    ensures
        four(b, at, le32(b, at)),
{
    let n = le32(b, at);
    let (b0, b1, b2, b3) = (b[at] as int, b[at + 1] as int, b[at + 2] as int, b[at + 3] as int);
    assert(n / 0x100 == b1 + 0x100 * b2 + 0x1_0000 * b3);
    assert(n / 0x1_0000 == b2 + 0x100 * b3);
}

proof fn lemma_cookie_bytes(b: Seq<u8>)
    ensures
        match parse_header(b) {
            Ok(h) => header_written(b, h.count, h.run_flags is Some) && h == header_of(
                h.count,
                h.run_flags is Some,
            ),
            Err(_) => true,
        },
{
    lemma_four(b, 0);
    lemma_four(b, 4);
}

/// The payloads of accepted bytes lie where those of the pieces do.
proof fn lemma_pieces_at(b: Seq<u8>, h: Header, pieces: Seq<Piece>, base: int, i: int)
    requires
        forall|j: int| 0 <= j < h.count ==> #[trigger] container_ok(h, b, j),
        base == h.payloads(),
        0 <= base,
        pieces == Seq::new(
            h.count as nat,
            |j: int|
                Piece {
                    key: h.key(b, j),
                    body: body_of(h.kind(b, j), h.cardinality(b, j), h.payload(b, j)),
                },
        ),
        0 <= i <= h.count,
    ensures
        piece_at(pieces, base, i) == h.payload_at(b, i),
        i > 0 ==> in_order(pieces[i - 1].body) && members(pieces[i - 1].body) == h.cardinality(
            b,
            i - 1,
        ) && body_written(b, h.payload_at(b, i - 1), pieces[i - 1].body) && (
        pieces[i - 1].body is Runs <==> h.is_run(b, i - 1)),
    decreases i,
{
    if i > 0 {
        lemma_pieces_at(b, h, pieces, base, i - 1);
        lemma_payload_at(h, b, i - 1);
        assert(container_ok(h, b, i - 1));
        lemma_body_of(
            h.kind(b, i - 1),
            h.cardinality(b, i - 1),
            b,
            h.payload_at(b, i - 1),
            h.payload(b, i - 1),
        );
    }
}

} // verus!
