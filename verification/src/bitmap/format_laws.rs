//! What holds of the portable serialization format.

use vstd::prelude::*;

use crate::bitmap::array::{
    array_at, array_len, array_set, array_sorted, array_split, lemma_array_count_below,
};
use crate::bitmap::bits::byte_bit;
use crate::bitmap::bytes::{le16, le32};
use crate::bitmap::chunk::{chunks_ok, inhabited, within_u16, Chunk};
use crate::bitmap::container::{
    lemma_payload_values, payload_ok, payload_set, ContainerKind, ARRAY_LIMIT,
};
use crate::bitmap::count::{count, lemma_count_none};
use crate::bitmap::error::ParseError;
use crate::bitmap::format::{
    array_error, array_faults, first_from, parse, parse_header, run_error, run_faults, Header,
    DESCRIPTION_BYTES, MAX_CONTAINERS, NO_OFFSET_THRESHOLD, OFFSET_BYTES, SERIAL_COOKIE,
    SERIAL_COOKIE_NO_RUNCONTAINER,
};
use crate::bitmap::parse::lemma_first_is;
use crate::bitmap::run::{
    run_end, run_set, run_start, runs_sorted, RUN_ELEMENT_BYTES, RUN_NUM_BYTES,
};

verus! {

/// Container `i` is in order: its key exceeds the one before, its offset, where offsets are
/// stored, is where its payload lies, and the payload is all there and a payload of its kind.
pub open spec fn container_ok(h: Header, b: Seq<u8>, i: int) -> bool {
    &&& i > 0 ==> h.key(b, i - 1) < h.key(b, i)
    &&& h.has_offsets ==> h.offset(b, i) == h.payload_at(b, i)
    &&& h.payload_at(b, i + 1) <= b.len()
    &&& payload_ok(h.kind(b, i), h.cardinality(b, i), h.payload(b, i))
}

/// The first index is one at which the predicate holds, and it holds at none before.
proof fn lemma_first(from: int, n: int, p: spec_fn(int) -> bool)
    requires
        from <= n,
    ensures
        from <= first_from(from, n, p) <= n,
        first_from(from, n, p) < n ==> p(first_from(from, n, p)),
        forall|j: int| from <= j < first_from(from, n, p) ==> !(#[trigger] p(j)),
    decreases n - from,
{
    if from < n && !p(from) {
        lemma_first(from + 1, n, p);
    }
}

/// Values that each exceed the one before are increasing.
proof fn lemma_array_sorted(p: Seq<u8>, j: int, k: int)
    requires
        forall|m: int| 0 <= m < array_len(p) ==> !#[trigger] array_faults(p)(m),
        0 <= j < k < array_len(p),
    ensures
        array_at(p, j) < array_at(p, k),
    decreases k - j,
{
    assert(!array_faults(p)(k));
    if j < k - 1 {
        lemma_array_sorted(p, j, k - 1);
    }
}

proof fn lemma_array_error(b: Seq<u8>, at: int, cardinality: int)
    requires
        0 <= at,
        0 < cardinality,
    ensures
        array_error(b, at, cardinality) is None <==> {
            let p = b.subrange(at, at + 2 * cardinality);
            at + 2 * cardinality <= b.len() && array_sorted(p) && count(array_set(p), 0, 0x1_0000)
                == cardinality
        },
{
    let p = b.subrange(at, at + 2 * cardinality);
    if at + 2 * cardinality <= b.len() {
        lemma_first(0, cardinality, array_faults(p));
        if array_error(b, at, cardinality) is None {
            assert forall|j: int, k: int| 0 <= j < k < array_len(p) implies #[trigger] array_at(p, j)
                < #[trigger] array_at(p, k) by {
                lemma_array_sorted(p, j, k);
            }
        }
        if array_sorted(p) {
            assert forall|j: int| 0 <= j < cardinality implies !#[trigger] array_faults(p)(j) by {
                if j > 0 {
                    assert(array_at(p, j - 1) < array_at(p, j));
                }
            }
            assert(array_split(p, array_len(p), 0x1_0000));
            lemma_array_count_below(p, array_len(p), 0x1_0000);
        }
    }
}

/// Runs that each leave a gap after the one before are increasing.
proof fn lemma_runs_sorted(p: Seq<u8>, runs: int, q: int, r: int)
    requires
        forall|m: int| 0 <= m < runs ==> !#[trigger] run_faults(p)(m),
        0 <= q < r < runs,
    ensures
        run_end(p, q) + 1 < run_start(p, r),
    decreases r - q,
{
    assert(!run_faults(p)(r));
    if q < r - 1 {
        lemma_runs_sorted(p, runs, q, r - 1);
    }
}

proof fn lemma_run_error(b: Seq<u8>, at: int, cardinality: int)
    requires
        0 <= at,
        0 < cardinality,
    ensures
        run_error(b, at, cardinality) is None <==> {
            let runs = le16(b, at);
            let needed = RUN_NUM_BYTES + runs * RUN_ELEMENT_BYTES;
            let p = b.subrange(at, at + needed);
            at + needed <= b.len() && runs_sorted(p, runs) && count(run_set(p, runs), 0, 0x1_0000)
                == cardinality
        },
{
    let runs = le16(b, at);
    let needed = RUN_NUM_BYTES + runs * RUN_ELEMENT_BYTES;
    let p = b.subrange(at, at + needed);
    if at + needed <= b.len() {
        if runs == 0 {
            lemma_count_none(run_set(p, runs), 0, 0x1_0000);
        }
        lemma_first(0, runs, run_faults(p));
        if run_error(b, at, cardinality) is None {
            assert forall|q: int, r: int| 0 <= q < r < runs implies #[trigger] run_end(p, q) + 1
                < #[trigger] run_start(p, r) by {
                lemma_runs_sorted(p, runs, q, r);
            }
            assert forall|r: int| 0 <= r < runs implies #[trigger] run_end(p, r) < 0x1_0000 by {
                assert(!run_faults(p)(r));
            }
        }
        if runs_sorted(p, runs) {
            assert forall|r: int| 0 <= r < runs implies !#[trigger] run_faults(p)(r) by {
                assert(run_end(p, r) < 0x1_0000);
                if r > 0 {
                    assert(run_end(p, r - 1) + 1 < run_start(p, r));
                }
            }
        }
    }
}

/// The payloads lie one after the other, behind the tables.
pub(crate) proof fn lemma_payload_at(h: Header, b: Seq<u8>, i: int)
    requires
        0 <= i,
    ensures
        h.payloads() <= h.payload_at(b, i),
        h.payload_at(b, i) + 2 <= h.payload_at(b, i + 1),
    decreases i,
{
    if i > 0 {
        lemma_payload_at(h, b, i - 1);
    }
}

/// Nothing is wrong with a container exactly when it is in order.
pub(crate) proof fn lemma_container(h: Header, b: Seq<u8>, i: int)
    requires
        0 <= i,
        0 <= h.payloads(),
    ensures
        h.container_error(b, i) is None <==> container_ok(h, b, i),
{
    reveal(Header::container_error);
    reveal(Header::payload_error);
    let at = h.payload_at(b, i);
    let cardinality = h.cardinality(b, i);
    lemma_payload_at(h, b, i);
    if h.is_run(b, i) {
        lemma_run_error(b, at, cardinality);
        if h.payload_at(b, i + 1) <= b.len() {
            assert(le16(h.payload(b, i), 0) == le16(b, at));
        }
    } else if cardinality <= ARRAY_LIMIT {
        lemma_array_error(b, at, cardinality);
    }
}

/// The tables of a header lie one after the other.
pub open spec fn header_ok(h: Header) -> bool {
    &&& 0 <= h.count <= MAX_CONTAINERS
    &&& 0 <= h.descriptions
    &&& match h.run_flags {
        Some(at) => 0 <= at && at + (h.count + 7) / 8 <= h.descriptions,
        None => true,
    }
}

pub(crate) proof fn lemma_header(b: Seq<u8>)
    ensures
        match parse_header(b) {
            Ok(h) => header_ok(h) && h.payloads() <= b.len(),
            Err(_) => true,
        },
{
}

/// Bytes are accepted exactly when they start with a header and tables that are all there, and
/// every container is in order.
pub proof fn law_accepts(b: Seq<u8>)
    ensures
        parse(b) is Ok <==> match parse_header(b) {
            Ok(h) => forall|i: int| 0 <= i < h.count ==> #[trigger] container_ok(h, b, i),
            Err(_) => false,
        },
{
    if let Ok(h) = parse_header(b) {
        lemma_header(b);
        lemma_first(0, h.count, h.faulty(b));
        assert forall|i: int| 0 <= i < h.count implies (#[trigger] h.faulty(b)(i)
            <==> !container_ok(h, b, i)) by {
            lemma_container(h, b, i);
        }
        if parse(b) is Ok {
            assert forall|i: int| 0 <= i < h.count implies #[trigger] container_ok(h, b, i) by {
                assert(!h.faulty(b)(i));
            }
        }
    }
}

/// The keys of containers in order are increasing.
pub(crate) proof fn lemma_keys(h: Header, b: Seq<u8>, i: int, j: int)
    requires
        forall|k: int| 0 <= k < h.count ==> #[trigger] container_ok(h, b, k),
        0 <= i < j < h.count,
    ensures
        h.key(b, i) < h.key(b, j),
    decreases j - i,
{
    assert(container_ok(h, b, j));
    if i < j - 1 {
        lemma_keys(h, b, i, j - 1);
    }
}

/// The chunks of accepted bytes have increasing 16-bit keys, and each holds 16-bit values, at
/// least one.
pub proof fn law_chunks_in_order(b: Seq<u8>)
    ensures
        match parse(b) {
            Ok(c) => chunks_ok(c),
            Err(_) => true,
        },
{
    if let Ok(c) = parse(b) {
        law_accepts(b);
        lemma_header(b);
        let h = parse_header(b).unwrap();
        assert forall|i: int, j: int| 0 <= i < j < c.len() implies #[trigger] c[i].key
            < #[trigger] c[j].key by {
            lemma_keys(h, b, i, j);
        }
        assert forall|i: int| 0 <= i < c.len() implies within_u16(#[trigger] c[i].values)
            && inhabited(c[i].values) by {
            assert(container_ok(h, b, i));
            lemma_payload_values(h.kind(b, i), h.cardinality(b, i), h.payload(b, i));
        }
    }
}

/// Two byte strings have their first `n` bytes in common.
pub open spec fn agree(b: Seq<u8>, t: Seq<u8>, n: int) -> bool {
    &&& 0 <= n <= b.len()
    &&& n <= t.len()
    &&& forall|x: int| 0 <= x < n ==> b[x] == t[x]
}

/// A header depends on nothing behind its tables.
proof fn lemma_header_agree(b: Seq<u8>, t: Seq<u8>, n: int)
    requires
        agree(b, t, n),
    ensures
        match parse_header(b) {
            Ok(h) => h.payloads() <= n ==> parse_header(t) == Ok::<Header, ParseError>(h),
            Err(_) => true,
        },
{
    lemma_header(b);
    if let Ok(h) = parse_header(b) {
        if h.payloads() <= n {
            assert(b[0] == t[0] && b[1] == t[1] && b[2] == t[2] && b[3] == t[3]);
        }
    }
}

/// The description of a container, its run flag and its offset lie in the tables.
proof fn lemma_tables_agree(h: Header, b: Seq<u8>, t: Seq<u8>, n: int, i: int)
    requires
        agree(b, t, n),
        header_ok(h),
        h.payloads() <= n,
        0 <= i < h.count,
    ensures
        h.key(t, i) == h.key(b, i),
        h.cardinality(t, i) == h.cardinality(b, i),
        h.is_run(t, i) == h.is_run(b, i),
        h.has_offsets ==> h.offset(t, i) == h.offset(b, i),
{
    assert(i / 8 < (h.count + 7) / 8);
    if let Some(at) = h.run_flags {
        assert(b[at + i / 8] == t[at + i / 8]);
    }
}

/// Containers depend on nothing behind their payloads.
proof fn lemma_container_agree(h: Header, b: Seq<u8>, t: Seq<u8>, n: int, i: int)
    requires
        agree(b, t, n),
        header_ok(h),
        0 <= i <= h.count,
        h.payload_at(b, i) <= n,
    ensures
        h.payload_at(t, i) == h.payload_at(b, i),
        forall|j: int|
            0 <= j < i ==> (#[trigger] container_ok(h, b, j) ==> container_ok(h, t, j)
                && h.chunk(t, j) == h.chunk(b, j)),
    decreases i,
{
    lemma_payload_at(h, b, i);
    if i > 0 {
        let k = i - 1;
        lemma_payload_at(h, b, k);
        lemma_container_agree(h, b, t, n, k);
        lemma_tables_agree(h, b, t, n, k);
        if k > 0 {
            lemma_tables_agree(h, b, t, n, k - 1);
        }
        assert(h.payload(t, k) =~= h.payload(b, k));
    }
}

/// Where the last payload ends.
pub open spec fn serialized_len(b: Seq<u8>) -> int {
    match parse_header(b) {
        Ok(h) => h.payload_at(b, h.count),
        Err(_) => 0,
    }
}

/// What accepted bytes stand for depends on nothing behind the last payload: any bytes may
/// follow it, or take the place of those that do.
pub proof fn law_trailing_bytes(b: Seq<u8>, t: Seq<u8>)
    requires
        parse(b) is Ok,
        agree(b, t, serialized_len(b)),
    ensures
        parse(t) == parse(b),
{
    let h = parse_header(b).unwrap();
    let n = serialized_len(b);
    lemma_header(b);
    lemma_payload_at(h, b, h.count);
    lemma_header_agree(b, t, n);
    lemma_container_agree(h, b, t, n, h.count);
    law_accepts(b);
    law_accepts(t);
    assert forall|i: int| 0 <= i < h.count implies #[trigger] container_ok(h, t, i) by {
        assert(container_ok(h, b, i));
    }
    assert(parse(t).unwrap() =~= parse(b).unwrap()) by {
        assert forall|i: int| 0 <= i < h.count implies h.chunk(t, i) == h.chunk(b, i) by {
            assert(container_ok(h, b, i));
        }
    }
}

/// Accepted bytes are rejected as truncated when they are cut anywhere before the end of the last
/// payload.
pub proof fn law_truncation(b: Seq<u8>, n: int)
    requires
        parse(b) is Ok,
        0 <= n < serialized_len(b),
    ensures
        parse(b.take(n)) matches Err(ParseError::Truncated { .. }),
{
    let h = parse_header(b).unwrap();
    let t = b.take(n);
    lemma_header(b);
    law_accepts(b);
    if h.count > 0 {
        assert(container_ok(h, b, h.count - 1));
    }
    if n < h.payloads() {
        lemma_cut_header(b, n);
    } else {
        lemma_cut(h, b, n, 0);
    }
}

proof fn lemma_cut_header(b: Seq<u8>, n: int)
    requires
        0 <= n < b.len(),
    ensures
        match parse_header(b) {
            Ok(h) => n < h.payloads() ==> (parse_header(b.take(n)) matches Err(
                ParseError::Truncated { .. },
            )),
            Err(_) => true,
        },
{
    let t = b.take(n);
    assert(forall|x: int| 0 <= x < n ==> t[x] == b[x]);
    if n >= 4 {
        assert(le32(t, 0) == le32(b, 0));
        assert(le16(t, 0) == le16(b, 0));
        assert(le16(t, 2) == le16(b, 2));
    }
    if n >= 8 {
        assert(le32(t, 4) == le32(b, 4));
    }
}

/// A container whose payload is cut is rejected as truncated.
proof fn lemma_cut_container(h: Header, b: Seq<u8>, n: int, i: int)
    requires
        header_ok(h),
        0 <= i < h.count,
        container_ok(h, b, i),
        h.payload_at(b, i) <= n < h.payload_at(b, i + 1),
    ensures
        h.container_error(b.take(n), i) matches Some(ParseError::Truncated { .. }),
{
    let t = b.take(n);
    let at = h.payload_at(b, i);
    lemma_payload_at(h, b, i);
    lemma_container_agree(h, b, t, n, i);
    lemma_tables_agree(h, b, t, n, i);
    if i > 0 {
        lemma_tables_agree(h, b, t, n, i - 1);
    }
    reveal(Header::container_error);
    reveal(Header::payload_error);
    if h.is_run(b, i) && at + 2 <= n {
        assert(le16(t, at) == le16(b, at));
        if le16(b, at) == 0 {
            lemma_count_none(payload_set(h.kind(b, i), h.payload(b, i)), 0, 0x1_0000);
        }
    }
}

/// The first container whose payload is cut is the one that is reported.
proof fn lemma_cut(h: Header, b: Seq<u8>, n: int, i: int)
    requires
        parse_header(b) == Ok::<Header, ParseError>(h),
        forall|j: int| 0 <= j < h.count ==> #[trigger] container_ok(h, b, j),
        0 <= i < h.count,
        h.payload_at(b, i) <= n < h.payload_at(b, h.count) <= b.len(),
    ensures
        parse(b.take(n)) matches Err(ParseError::Truncated { .. }),
    decreases h.count - i,
{
    let t = b.take(n);
    lemma_header(b);
    lemma_payload_at(h, b, i);
    if h.payload_at(b, i + 1) <= n {
        lemma_cut(h, b, n, i + 1);
    } else {
        lemma_header_agree(b, t, n);
        lemma_container_agree(h, b, t, n, i);
        assert(container_ok(h, b, i));
        lemma_cut_container(h, b, n, i);
        assert forall|j: int| 0 <= j < i implies !#[trigger] h.faulty(t)(j) by {
            assert(container_ok(h, b, j));
            lemma_container(h, t, j);
        }
        assert(h.faulty(t)(i));
        lemma_first_is(h.count, h.faulty(t), i);
    }
}

/// A container to be written.
pub struct Part {
    /// The upper 16 bits of the values.
    pub key: int,
    /// How the payload is laid out.
    pub kind: ContainerKind,
    /// The number of values.
    pub cardinality: int,
    /// The payload.
    pub payload: Seq<u8>,
}

/// The keys are increasing 16-bit values, and each payload is one of its kind.
pub open spec fn parts_ok(parts: Seq<Part>) -> bool {
    &&& forall|i: int| 0 <= i < parts.len() ==> 0 <= #[trigger] parts[i].key < 0x1_0000
    &&& forall|i: int, j: int|
        0 <= i < j < parts.len() ==> #[trigger] parts[i].key < #[trigger] parts[j].key
    &&& forall|i: int|
        0 <= i < parts.len() ==> payload_ok(
            (#[trigger] parts[i]).kind,
            parts[i].cardinality,
            parts[i].payload,
        )
}

/// Where payload `i` lies when the first one lies at `base`.
pub open spec fn part_at(parts: Seq<Part>, base: int, i: int) -> int
    decreases i,
{
    if i <= 0 {
        base
    } else {
        part_at(parts, base, i - 1) + parts[i - 1].payload.len()
    }
}

/// The header of `count` containers, with or without flags that tell run containers apart.
pub open spec fn header_of(count: int, flags: bool) -> Header {
    if flags {
        Header {
            count,
            run_flags: Some(4),
            descriptions: 4 + (count + 7) / 8,
            has_offsets: count >= NO_OFFSET_THRESHOLD,
        }
    } else {
        Header { count, run_flags: None, descriptions: 8, has_offsets: true }
    }
}

/// What is written of part `i`.
pub open spec fn part_written(b: Seq<u8>, parts: Seq<Part>, h: Header, i: int) -> bool {
    let part = parts[i];
    let at = part_at(parts, h.payloads(), i);
    &&& le16(b, h.descriptions + DESCRIPTION_BYTES * i) == part.key
    &&& le16(b, h.descriptions + DESCRIPTION_BYTES * i + 2) == part.cardinality - 1
    &&& match h.run_flags {
        Some(flags) => byte_bit(b[flags + i / 8], i % 8) <==> part.kind is Run,
        None => !(part.kind is Run),
    }
    &&& h.has_offsets ==> le32(b, h.offsets() + OFFSET_BYTES * i) == at
    &&& b.subrange(at, at + part.payload.len()) == part.payload
}

/// The bytes are the parts, written with or without flags that tell run containers apart.
pub open spec fn written(b: Seq<u8>, parts: Seq<Part>, flags: bool) -> bool {
    let n = parts.len() as int;
    let h = header_of(n, flags);
    &&& if flags {
        n > 0 && le16(b, 0) == SERIAL_COOKIE && le16(b, 2) == n - 1
    } else {
        le32(b, 0) == SERIAL_COOKIE_NO_RUNCONTAINER && le32(b, 4) == n
    }
    &&& b.len() == part_at(parts, h.payloads(), n)
    &&& forall|i: int| 0 <= i < n ==> #[trigger] part_written(b, parts, h, i)
}

/// What the parts stand for.
pub open spec fn part_chunks(parts: Seq<Part>) -> Seq<Chunk> {
    Seq::new(
        parts.len(),
        |i: int|
            Chunk { key: parts[i].key, values: payload_set(parts[i].kind, parts[i].payload) },
    )
}

/// What is written is read back: bytes that hold the parts stand for what the parts stand for.
pub proof fn law_read_back(b: Seq<u8>, parts: Seq<Part>, flags: bool)
    requires
        parts_ok(parts),
        written(b, parts, flags),
    ensures
        parse(b) == Ok::<Seq<Chunk>, ParseError>(part_chunks(parts)),
{
    let n = parts.len() as int;
    let h = header_of(n, flags);
    lemma_part_at(parts, h.payloads(), 0, n);
    lemma_part_count(parts);
    assert(parse_header(b) == Ok::<Header, ParseError>(h));
    lemma_read_parts(b, parts, h, n);
    law_accepts(b);
    assert(parse(b).unwrap() =~= part_chunks(parts)) by {
        assert forall|i: int| 0 <= i < n implies h.chunk(b, i) == part_chunks(parts)[i] by {
            assert(part_written(b, parts, h, i));
            assert(container_ok(h, b, i));
        }
    }
}

proof fn lemma_part_at(parts: Seq<Part>, base: int, i: int, j: int)
    requires
        0 <= i <= j,
    ensures
        part_at(parts, base, i) <= part_at(parts, base, j),
    decreases j,
{
    if i < j {
        lemma_part_at(parts, base, i, j - 1);
    }
}

/// There are at most as many parts as there are keys.
proof fn lemma_part_count(parts: Seq<Part>)
    requires
        parts_ok(parts),
    ensures
        parts.len() <= 0x1_0000,
        parts.len() > 0 ==> parts.len() - 1 <= parts.last().key,
    decreases parts.len(),
{
    if parts.len() > 1 {
        let rest = parts.drop_last();
        assert forall|i: int| 0 <= i < rest.len() implies (#[trigger] rest[i]) == parts[i] by {}
        lemma_part_count(rest);
        assert(parts[parts.len() - 2].key < parts[parts.len() - 1].key);
    }
}

proof fn lemma_read_parts(b: Seq<u8>, parts: Seq<Part>, h: Header, i: int)
    requires
        parts_ok(parts),
        h.count == parts.len(),
        0 <= h.payloads(),
        b.len() == part_at(parts, h.payloads(), h.count),
        forall|j: int| 0 <= j < h.count ==> #[trigger] part_written(b, parts, h, j),
        0 <= i <= h.count,
    ensures
        h.payload_at(b, i) == part_at(parts, h.payloads(), i),
        forall|j: int|
            0 <= j < i ==> #[trigger] container_ok(h, b, j) && h.kind(b, j) == parts[j].kind
                && h.payload(b, j) == parts[j].payload,
    decreases i,
{
    if i > 0 {
        let k = i - 1;
        lemma_read_parts(b, parts, h, k);
        let part = parts[k];
        let at = part_at(parts, h.payloads(), k);
        lemma_part_at(parts, h.payloads(), 0, k);
        lemma_part_at(parts, h.payloads(), i, h.count);
        assert(part_written(b, parts, h, k));
        if k > 0 {
            assert(part_written(b, parts, h, k - 1));
            assert(parts[k - 1].key < parts[k].key);
        }
        assert(payload_ok(part.kind, part.cardinality, part.payload));
        if let ContainerKind::Run { runs } = part.kind {
            assert(part.payload.len() >= 2);
            assert(part.payload[0] == b[at] && part.payload[1] == b[at + 1]);
        }
        assert(h.kind(b, k) == part.kind);
        assert(h.payload_at(b, i) == at + part.payload.len());
        assert(h.payload(b, k) == part.payload);
        assert forall|j: int| 0 <= j < i implies #[trigger] container_ok(h, b, j) && h.kind(b, j)
            == parts[j].kind && h.payload(b, j) == parts[j].payload by {
            if j == k {
                assert(container_ok(h, b, k));
            } else {
                assert(container_ok(h, b, j));
                assert(h.kind(b, j) == parts[j].kind);
                assert(h.payload(b, j) == parts[j].payload);
            }
        }
    }
}

} // verus!
