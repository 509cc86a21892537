//! What is reported of bytes that no writer writes, told from the numbers in them.

use vstd::prelude::*;

use crate::bitmap::array::array_at;
use crate::bitmap::chunk::Chunk;
use crate::bitmap::error::ParseError;
use crate::bitmap::format::{array_faults, parse, run_faults, Header};
use crate::bitmap::format_laws::{header_of, lemma_container, lemma_payload_at};
use crate::bitmap::parse::{lemma_first_is, lemma_first_none};
use crate::bitmap::payload_laws::{
    byte_of, law_u16_bytes, law_u32_bytes, lemma_bitmap_bits, lemma_count_len, lemma_run_bounds,
    lemma_total, total,
};
use crate::bitmap::run::run_start;
use crate::bitmap::wire::{
    array_written, begins, bitmap_written, described, descriptions_at, four, lemma_begins,
    lemma_described, lemma_header_written, offsets_at, payloads_at, piece_at, piece_read,
    pieces_in_order, runs_written, two, with_offsets, Piece,
};

verus! {

/// The bytes are rejected because `needed` bytes at `at` are not all there.
pub open spec fn truncated(b: Seq<u8>, at: int, needed: int) -> bool {
    parse(b) matches Err(ParseError::Truncated { offset, needed: n, got }) && offset == at && n
        == needed && got == b.len() - at && got < needed
}

/// The bytes are rejected because of what is found at `at` in a container or in the tables.
pub open spec fn bad_container(b: Seq<u8>, at: int, text: Seq<char>) -> bool {
    parse(b) matches Err(ParseError::InvalidContainer { offset, detail }) && offset == at && detail@
        == text
}

/// The bytes are rejected because of the run container at `at`.
pub open spec fn bad_run(b: Seq<u8>, at: int, text: Seq<char>) -> bool {
    parse(b) matches Err(ParseError::InvalidRun { offset, detail }) && offset == at && detail@
        == text
}

/// Accepted bytes start with one of the two cookies. Four bytes that are neither are reported as
/// the number that they are, and fewer than four bytes as too short.
pub proof fn law_cookie(b: Seq<u8>)
    requires
        b.len() <= usize::MAX,
    ensures
        parse(b) is Ok ==> b.len() >= 4,
        parse(b) is Ok ==> b[0] == 0x3a && b[1] == 0x30 && b[2] == 0 && b[3] == 0 || b[0] == 0x3b
            && b[1] == 0x30,
        b.len() < 4 ==> truncated(b, 0, 4),
        b.len() >= 4 && !(b[0] == 0x3a && b[1] == 0x30 && b[2] == 0 && b[3] == 0) && !(b[0] == 0x3b
            && b[1] == 0x30) ==> (parse(b) matches Err(ParseError::BadCookie { got }) && b[0] == got
            % 256 && b[1] == got / 0x100 % 256 && b[2] == got / 0x1_0000 % 256 && b[3] == got
            / 0x100_0000),
{
}

/// The number of containers of a bitmap without flags is at most 65536, and the two tables that
/// follow have to be there.
pub proof fn law_plain_header(b: Seq<u8>, n: int)
    requires
        4 <= b.len() <= usize::MAX,
        b[0] == 0x3a,
        b[1] == 0x30,
        b[2] == 0,
        b[3] == 0,
        b.len() >= 8 ==> four(b, 4, n),
    ensures
        b.len() < 8 ==> truncated(b, 4, 4),
        b.len() >= 8 && n > 0x1_0000 ==> (parse(b) matches Err(
            ParseError::TooManyContainers { count, max },
        ) && count == n && max == 0x1_0000),
        8 <= b.len() < 8 + 4 * n && n <= 0x1_0000 ==> truncated(b, 8, 4 * n),
        8 + 4 * n <= b.len() < 8 + 8 * n && n <= 0x1_0000 ==> truncated(b, 8 + 4 * n, 4 * n),
{
    if b.len() >= 8 {
        law_u32_bytes(b, 4, n);
    }
}

/// The flags of a bitmap with flags, the descriptions, and the offsets that are there from four
/// containers on, have to be there.
pub proof fn law_flag_header(b: Seq<u8>, n: int)
    requires
        4 <= b.len() <= usize::MAX,
        b[0] == 0x3b,
        b[1] == 0x30,
        two(b, 2, n - 1),
    ensures
        b.len() < 4 + (n + 7) / 8 ==> truncated(b, 4, (n + 7) / 8),
        4 + (n + 7) / 8 <= b.len() < 4 + (n + 7) / 8 + 4 * n ==> truncated(
            b,
            4 + (n + 7) / 8,
            4 * n,
        ),
        n >= 4 && 4 + (n + 7) / 8 + 4 * n <= b.len() < 4 + (n + 7) / 8 + 8 * n ==> truncated(
            b,
            4 + (n + 7) / 8 + 4 * n,
            4 * n,
        ),
{
    law_u16_bytes(b, 2, n - 1);
}

/// Where the payload after the pieces lies.
pub open spec fn next_at(n: int, flags: bool, pieces: Seq<Piece>) -> int {
    piece_at(pieces, payloads_at(n, flags), pieces.len() as int)
}

/// What is wrong with the first container that is out of order is what is reported.
proof fn lemma_fault(b: Seq<u8>, n: int, flags: bool, pieces: Seq<Piece>)
    requires
        pieces_in_order(pieces),
        begins(b, n, flags, pieces),
        pieces.len() < n,
    ensures
        header_of(n, flags).payload_at(b, pieces.len() as int) == next_at(n, flags, pieces),
        payloads_at(n, flags) <= next_at(n, flags, pieces),
        pieces.len() > 0 ==> header_of(n, flags).key(b, pieces.len() - 1) == pieces.last().key,
        match header_of(n, flags).container_error(b, pieces.len() as int) {
            Some(e) => parse(b) == Err::<Seq<Chunk>, ParseError>(e),
            None => true,
        },
{
    let h = header_of(n, flags);
    let m = pieces.len() as int;
    lemma_header_written(b, n, flags);
    lemma_begins(b, n, flags, pieces, m);
    lemma_payload_at(h, b, m);
    if m > 0 {
        assert(piece_read(b, h, pieces, m - 1));
    }
    if h.container_error(b, m) is Some {
        assert forall|j: int| 0 <= j < m implies !#[trigger] h.faulty(b)(j) by {
            assert(piece_read(b, h, pieces, j));
            lemma_container(h, b, j);
        }
        assert(h.faulty(b)(m));
        lemma_first_is(n, h.faulty(b), m);
    }
}

/// A key that does not exceed the one before is reported at its description.
pub proof fn law_key_out_of_order(
    b: Seq<u8>,
    n: int,
    flags: bool,
    pieces: Seq<Piece>,
    key: int,
)
    requires
        b.len() <= usize::MAX,
        pieces_in_order(pieces),
        begins(b, n, flags, pieces),
        0 < pieces.len() < n,
        two(b, descriptions_at(n, flags) + 4 * pieces.len(), key),
        key <= pieces.last().key,
    ensures
        bad_container(
            b,
            descriptions_at(n, flags) + 4 * pieces.len(),
            "container keys are not sorted"@,
        ),
{
    lemma_header_written(b, n, flags);
    lemma_fault(b, n, flags, pieces);
    law_u16_bytes(b, descriptions_at(n, flags) + 4 * pieces.len(), key);
    reveal(Header::container_error);
}

/// An offset that is not that of the payload is reported where it is stored.
pub proof fn law_offset_mismatch(
    b: Seq<u8>,
    n: int,
    flags: bool,
    pieces: Seq<Piece>,
    key: int,
    stored: int,
)
    requires
        b.len() <= usize::MAX,
        pieces_in_order(pieces),
        begins(b, n, flags, pieces),
        pieces.len() < n,
        two(b, descriptions_at(n, flags) + 4 * pieces.len(), key),
        pieces.len() > 0 ==> pieces.last().key < key,
        with_offsets(n, flags),
        four(b, offsets_at(n, flags) + 4 * pieces.len(), stored),
        stored != next_at(n, flags, pieces),
    ensures
        stored < payloads_at(n, flags) ==> bad_container(
            b,
            offsets_at(n, flags) + 4 * pieces.len(),
            "container offset points into header"@,
        ),
        stored >= payloads_at(n, flags) ==> bad_container(
            b,
            offsets_at(n, flags) + 4 * pieces.len(),
            "container offset does not match payload layout"@,
        ),
{
    lemma_header_written(b, n, flags);
    lemma_fault(b, n, flags, pieces);
    law_u16_bytes(b, descriptions_at(n, flags) + 4 * pieces.len(), key);
    law_u32_bytes(b, offsets_at(n, flags) + 4 * pieces.len(), stored);
    reveal(Header::container_error);
}

/// The bytes start with the pieces, and what the tables say of the container after them is in
/// order.
pub open spec fn reached(
    b: Seq<u8>,
    n: int,
    flags: bool,
    pieces: Seq<Piece>,
    key: int,
    cardinality: int,
    run: bool,
) -> bool {
    &&& b.len() <= usize::MAX
    &&& pieces_in_order(pieces)
    &&& begins(b, n, flags, pieces)
    &&& pieces.len() < n
    &&& pieces.len() > 0 ==> pieces.last().key < key
    &&& described(
        b,
        n,
        flags,
        pieces.len() as int,
        key,
        cardinality,
        run,
        next_at(n, flags, pieces),
    )
}

/// Of a container that is reached, the payload decides.
proof fn lemma_reached(
    b: Seq<u8>,
    n: int,
    flags: bool,
    pieces: Seq<Piece>,
    key: int,
    cardinality: int,
    run: bool,
)
    requires
        reached(b, n, flags, pieces, key, cardinality, run),
    ensures
        ({
            let h = header_of(n, flags);
            let m = pieces.len() as int;
            &&& h.payload_at(b, m) == next_at(n, flags, pieces)
            &&& 0 <= next_at(n, flags, pieces) <= b.len()
            &&& h.cardinality(b, m) == cardinality
            &&& 1 <= cardinality <= 0x1_0000
            &&& h.is_run(b, m) == run
            &&& match h.payload_error(b, m) {
                Some(e) => parse(b) == Err::<Seq<Chunk>, ParseError>(e),
                None => true,
            }
        }),
{
    lemma_header_written(b, n, flags);
    lemma_fault(b, n, flags, pieces);
    lemma_described(
        b,
        n,
        flags,
        pieces.len() as int,
        key,
        cardinality,
        run,
        next_at(n, flags, pieces),
    );
    reveal(Header::container_error);
}

/// A payload that is not all there is reported with the bytes that it would take: two for each
/// value of an array, 8192 for a bitmap, and for runs two for their number and then four for each.
pub proof fn law_payload_cut(
    b: Seq<u8>,
    n: int,
    flags: bool,
    pieces: Seq<Piece>,
    key: int,
    cardinality: int,
    run: bool,
    runs: int,
)
    requires
        reached(b, n, flags, pieces, key, cardinality, run),
    ensures
        ({
            let at = next_at(n, flags, pieces);
            &&& !run && cardinality <= 4096 && b.len() < at + 2 * cardinality ==> truncated(
                b,
                at,
                2 * cardinality,
            )
            &&& !run && cardinality > 4096 && b.len() < at + 8192 ==> truncated(b, at, 8192)
            &&& run && b.len() < at + 2 ==> truncated(b, at, 2)
            &&& run && at + 2 <= b.len() < at + 2 + 4 * runs && two(b, at, runs) && runs > 0
                ==> truncated(b, at, 2 + 4 * runs)
        }),
{
    lemma_reached(b, n, flags, pieces, key, cardinality, run);
    let at = next_at(n, flags, pieces);
    reveal(Header::payload_error);
    if run && at + 2 <= b.len() && two(b, at, runs) {
        law_u16_bytes(b, at, runs);
    }
}

/// The first array value that does not exceed the one before is reported where it is stored.
pub proof fn law_array_out_of_order(
    b: Seq<u8>,
    n: int,
    flags: bool,
    pieces: Seq<Piece>,
    key: int,
    values: Seq<int>,
    j: int,
)
    requires
        reached(b, n, flags, pieces, key, values.len() as int, false),
        values.len() <= 4096,
        next_at(n, flags, pieces) + 2 * values.len() <= b.len(),
        array_written(b, next_at(n, flags, pieces), values),
        0 < j < values.len(),
        forall|k: int, l: int| 0 <= k < l < j ==> #[trigger] values[k] < #[trigger] values[l],
        values[j] <= values[j - 1],
    ensures
        bad_container(
            b,
            next_at(n, flags, pieces) + 2 * j,
            "array container values are not sorted and unique"@,
        ),
{
    let at = next_at(n, flags, pieces);
    let c = values.len() as int;
    lemma_reached(b, n, flags, pieces, key, c, false);
    reveal(Header::payload_error);
    let p = b.subrange(at, at + 2 * c);
    assert forall|k: int| 0 <= k < c implies #[trigger] array_at(p, k) == values[k] by {
        assert(p[2 * k] == b[at + 2 * k] && p[2 * k + 1] == b[at + 2 * k + 1]);
        law_u16_bytes(p, 2 * k, values[k]);
    }
    assert forall|k: int| 0 <= k < j implies !#[trigger] array_faults(p)(k) by {
        if k > 0 {
            assert(values[k - 1] < values[k]);
        }
    }
    assert(array_faults(p)(j));
    lemma_first_is(c, array_faults(p), j);
}

/// A bitmap whose number of values is not the one in its description is reported.
pub proof fn law_bitmap_cardinality(
    b: Seq<u8>,
    n: int,
    flags: bool,
    pieces: Seq<Piece>,
    key: int,
    cardinality: int,
    set: Set<int>,
)
    requires
        reached(b, n, flags, pieces, key, cardinality, false),
        cardinality > 4096,
        next_at(n, flags, pieces) + 8192 <= b.len(),
        forall|v: int| set.contains(v) ==> 0 <= v < 0x1_0000,
        bitmap_written(b, next_at(n, flags, pieces), set),
        set.len() != cardinality,
    ensures
        bad_container(
            b,
            next_at(n, flags, pieces),
            "bitmap container cardinality does not match payload"@,
        ),
{
    let at = next_at(n, flags, pieces);
    lemma_reached(b, n, flags, pieces, key, cardinality, false);
    reveal(Header::payload_error);
    let p = b.subrange(at, at + 8192);
    assert forall|x: int| 0 <= x < 8192 implies #[trigger] p[x] == byte_of(set, x) by {
        assert(b[at + x] == byte_of(set, x));
    }
    lemma_bitmap_bits(p, set);
    lemma_count_len(set, 0, 0x1_0000);
}

/// A run container without runs is reported.
pub proof fn law_no_runs(
    b: Seq<u8>,
    n: int,
    flags: bool,
    pieces: Seq<Piece>,
    key: int,
    cardinality: int,
)
    requires
        reached(b, n, flags, pieces, key, cardinality, true),
        next_at(n, flags, pieces) + 2 <= b.len(),
        two(b, next_at(n, flags, pieces), 0),
    ensures
        bad_run(b, next_at(n, flags, pieces), "run container with zero runs"@),
{
    lemma_reached(b, n, flags, pieces, key, cardinality, true);
    reveal(Header::payload_error);
    law_u16_bytes(b, next_at(n, flags, pieces), 0);
}

/// The first `n` intervals hold 16-bit values and are increasing, with gaps between them.
pub open spec fn runs_in_order(runs: Seq<(int, int)>, n: int) -> bool {
    &&& forall|r: int| 0 <= r < n ==> 0 <= (#[trigger] runs[r]).0 <= runs[r].1 < 0x1_0000
    &&& forall|q: int, r: int|
        0 <= q < r < n ==> (#[trigger] runs[q]).1 + 1 < (#[trigger] runs[r]).0
}

/// Of runs with a first one that goes beyond 65535, or that does not leave a gap after the one
/// before, that one decides what is reported. Runs in order are reported when the number of their
/// values is not the one in the description.
pub proof fn law_runs_out_of_order(
    b: Seq<u8>,
    n: int,
    flags: bool,
    pieces: Seq<Piece>,
    key: int,
    cardinality: int,
    runs: Seq<(int, int)>,
    r: int,
)
    requires
        reached(b, n, flags, pieces, key, cardinality, true),
        runs.len() > 0,
        next_at(n, flags, pieces) + 2 + 4 * runs.len() <= b.len(),
        runs_written(b, next_at(n, flags, pieces), runs),
        0 <= r <= runs.len(),
        runs_in_order(runs, r),
    ensures
        r < runs.len() && runs[r].1 >= 0x1_0000 ==> bad_run(
            b,
            next_at(n, flags, pieces),
            "run length overflows container"@,
        ),
        0 < r < runs.len() && runs[r].1 < 0x1_0000 && runs[r].0 <= runs[r - 1].1 + 1 ==> bad_run(
            b,
            next_at(n, flags, pieces),
            "runs overlap or are contiguous"@,
        ),
        r == runs.len() && total(runs, r) != cardinality ==> bad_run(
            b,
            next_at(n, flags, pieces),
            "run container cardinality does not match payload"@,
        ),
{
    let at = next_at(n, flags, pieces);
    let k = runs.len() as int;
    lemma_reached(b, n, flags, pieces, key, cardinality, true);
    reveal(Header::payload_error);
    law_u16_bytes(b, at, k);
    let p = b.subrange(at, at + 2 + 4 * k);
    lemma_run_bounds(p, runs);
    assert forall|q: int| 0 <= q < r implies !#[trigger] run_faults(p)(q) by {
        assert(run_start(p, q) == runs[q].0);
        if q > 0 {
            assert(run_start(p, q - 1) == runs[q - 1].0);
            assert(runs[q - 1].1 + 1 < runs[q].0);
        }
    }
    if r < k {
        assert(run_start(p, r) == runs[r].0);
        if r > 0 {
            assert(run_start(p, r - 1) == runs[r - 1].0);
        }
        if run_faults(p)(r) {
            lemma_first_is(k, run_faults(p), r);
        }
    } else {
        lemma_first_none(k, run_faults(p));
        lemma_total(p, runs, k);
    }
}

} // verus!
