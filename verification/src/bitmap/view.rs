//! Bitmaps that are read from their serialized bytes.

use vstd::prelude::*;
use vstd::set_lib::{
    lemma_set_difference_len, lemma_set_disjoint_lens, lemma_set_intersect_union_lens,
};

use crate::bitmap::chunk::{
    block, chunk_holds, chunk_set, chunk_split, chunk_values, chunks_ok, inhabited,
    lemma_block_absent, lemma_block_present, lemma_chunk_done, lemma_chunk_step, lemma_u32_count,
    lemma_u32_count_below, to_u32, within_u16, Chunk,
};
use crate::bitmap::container::ContainerKind;
use crate::bitmap::count::{
    count, lemma_count_bound, lemma_count_none, lemma_count_shift, lemma_count_split,
    lemma_count_subset,
};
use crate::bitmap::entry::ContainerEntry;
use crate::bitmap::error::ParseError;
use crate::bitmap::format::{parse, parse_header, Header};
use crate::bitmap::layout::Layout;
use crate::bitmap::order::up_to;
use crate::bitmap::parse::{lemma_first_is, lemma_first_none};

verus! {

/// A zero-copy view over the bytes of a bitmap in the portable format.
///
/// The view parses the header and the container metadata up front, but keeps the container
/// payloads borrowed from the byte slice. Read-only operations work directly on those
/// borrowed payloads.
#[derive(Debug)]
pub struct RoaringBitmapView<'a> {
    pub(crate) bytes: &'a [u8],
    pub(crate) containers: Vec<ContainerEntry>,
    /// Prefix sums of container cardinalities: entry `i` is the number of values in the
    /// containers before container `i`, so the last entry equals `len`.
    pub(crate) prefix_cardinalities: Vec<u64>,
    pub(crate) len: u64,
}

impl<'a> View for RoaringBitmapView<'a> {
    type V = Set<u32>;

    /// The values of the bitmap.
    open spec fn view(&self) -> Set<u32> {
        chunk_set(self.chunks())
    }
}

impl<'a> RoaringBitmapView<'a> {
    /// What the containers stand for.
    pub open(crate) spec fn chunks(self) -> Seq<Chunk> {
        Seq::new(
            self.containers@.len(),
            |i: int|
                Chunk {
                    key: self.containers@[i].key as int,
                    values: self.containers@[i].values(self.bytes@),
                },
        )
    }

    /// The bytes that the payloads are borrowed from.
    pub open(crate) spec fn borrowed(self) -> Seq<u8> {
        self.bytes@
    }

    /// The number of containers.
    pub open(crate) spec fn container_count(self) -> int {
        self.containers@.len() as int
    }

    /// The upper 16 bits of the values of container `i`.
    pub open(crate) spec fn key(self, i: int) -> int {
        self.containers@[i].key as int
    }

    /// The number of values of container `i`.
    pub open(crate) spec fn cardinality(self, i: int) -> int {
        self.containers@[i].cardinality as int
    }

    /// The kind of container `i`.
    pub open(crate) spec fn kind(self, i: int) -> ContainerKind {
        self.containers@[i].kind
    }

    /// Where the payload of container `i` starts.
    pub open(crate) spec fn payload_start(self, i: int) -> int {
        self.containers@[i].payload_offset as int
    }

    /// The cached prefix sums of the cardinalities.
    pub open(crate) spec fn prefix_sums(self) -> Seq<u64> {
        self.prefix_cardinalities@
    }

    /// The containers are those that the tables of the borrowed bytes describe.
    pub open spec fn laid_out_as(self, h: Header) -> bool {
        &&& self.container_count() == h.count
        &&& forall|i: int|
            #![trigger self.key(i)]
            #![trigger self.kind(i)]
            0 <= i < h.count ==> {
                &&& self.key(i) == h.key(self.borrowed(), i)
                &&& self.cardinality(i) == h.cardinality(self.borrowed(), i)
                &&& self.kind(i) == h.kind(self.borrowed(), i)
                &&& self.payload_start(i) == h.payload_at(self.borrowed(), i)
            }
    }

    /// The containers are in order, and the cached cardinalities are theirs.
    #[verifier::type_invariant]
    pub open(crate) spec fn wf(self) -> bool {
        &&& forall|i: int|
            0 <= i < self.containers@.len() ==> (#[trigger] self.containers@[i]).wf(self.bytes@)
        &&& forall|i: int, j: int|
            0 <= i < j < self.containers@.len() ==> (#[trigger] self.containers@[i]).key < (
            #[trigger] self.containers@[j]).key
        &&& self.prefix_cardinalities@.len() == self.containers@.len() + 1
        &&& self.prefix_cardinalities@[0] == 0
        &&& forall|i: int|
            0 <= i < self.containers@.len() ==> self.prefix_cardinalities@[i + 1]
                == self.prefix_cardinalities@[i] + (#[trigger] self.containers@[i]).cardinality
        &&& self.len == self.prefix_cardinalities@.last()
    }

    /// The containers of a well-formed view stand for chunks in order.
    pub(crate) proof fn lemma_chunks(self)
        requires
            self.wf(),
        ensures
            chunks_ok(self.chunks()),
            forall|i: int|
                0 <= i < self.containers@.len() ==> count(
                    #[trigger] self.chunks()[i].values,
                    0,
                    0x1_0000,
                ) == self.containers@[i].cardinality,
    {
        let c = self.chunks();
        assert forall|i: int| 0 <= i < c.len() implies {
            let values = #[trigger] c[i].values;
            &&& count(values, 0, 0x1_0000) == self.containers@[i].cardinality
            &&& within_u16(values)
            &&& inhabited(values)
        } by {
            let e = self.containers@[i];
            e.lemma_wf(self.bytes@);
        }
        assert forall|i: int, j: int| 0 <= i < j < c.len() implies #[trigger] c[i].key
            < #[trigger] c[j].key by {
            assert(self.containers@[i].key < self.containers@[j].key);
        }
    }

    /// The prefix sums count the values below the containers they belong to.
    proof fn lemma_prefix(self, at: int, bound: int)
        requires
            self.wf(),
            chunk_split(self.chunks(), at, bound),
            0 <= bound,
        ensures
            self.prefix_cardinalities@[at] == count(
                chunk_values(self.chunks()),
                0,
                0x1_0000 * bound,
            ),
        decreases at,
    {
        self.lemma_chunks();
        let c = self.chunks();
        let s = chunk_values(c);
        assert(s.intersect(s) =~= s);
        if at == 0 {
            assert forall|v: int| 0 <= v < 0x1_0000 * bound implies !s.contains(v) by {
                if s.contains(v) {
                    let j = choose|j: int| 0 <= j < c.len() && #[trigger] chunk_holds(c, j, v);
                    assert(bound <= c[j].key);
                }
            }
            lemma_count_none(s, 0, 0x1_0000 * bound);
        } else {
            let key = c[at - 1].key;
            assert(chunk_split(c, at - 1, key));
            self.lemma_prefix(at - 1, key);
            lemma_chunk_step(c, at - 1, key, s);
            lemma_block_present(c, at - 1);
            assert(c[at - 1].values.intersect(block(s, key)) =~= c[at - 1].values);
            lemma_count_split(s, 0, 0x1_0000 * (key + 1), 0x1_0000 * bound);
            assert forall|v: int| 0x1_0000 * (key + 1) <= v < 0x1_0000 * bound implies !s.contains(
                v,
            ) by {
                if s.contains(v) {
                    let j = choose|j: int| 0 <= j < c.len() && #[trigger] chunk_holds(c, j, v);
                    assert(key + 1 <= v / 0x1_0000 < bound);
                    if j < at - 1 {
                        assert(c[j].key < c[at - 1].key);
                    }
                }
            }
            lemma_count_none(s, 0x1_0000 * (key + 1), 0x1_0000 * bound);
            assert(self.prefix_cardinalities@[at - 1 + 1] == self.prefix_cardinalities@[at - 1]
                + self.containers@[at - 1].cardinality);
        }
    }

    /// The cached length is the number of values.
    pub(crate) proof fn lemma_len(self)
        requires
            self.wf(),
        ensures
            self@.finite(),
            self.len == self@.len(),
            self.len == count(chunk_values(self.chunks()), 0, 0x1_0000_0000),
            self.len <= 0x1_0000_0000,
    {
        self.lemma_chunks();
        let c = self.chunks();
        let s = chunk_values(c);
        assert(chunk_split(c, c.len() as int, 0x1_0000));
        self.lemma_prefix(c.len() as int, 0x1_0000);
        lemma_u32_count(s);
        lemma_count_bound(s, 0, 0x1_0000_0000);
    }

    /// Parse bitmap bytes in the portable format into a zero-copy view.
    ///
    /// This validates container ordering, payload bounds, container shape, and cardinality
    /// consistency without copying the container payloads.
    pub fn try_new(bytes: &'a [u8]) -> (view: Result<Self, ParseError>)
        ensures
            match parse(bytes@) {
                Ok(chunks) => {
                    &&& view matches Ok(v)
                    &&& v@ == chunk_set(chunks)
                    &&& v.chunks() == chunks
                    &&& v.borrowed() == bytes@
                    &&& v.laid_out_as(parse_header(bytes@).unwrap())
                    &&& v.wf()
                },
                Err(e) => view == Err::<Self, ParseError>(e),
            },
    {
        let layout: Layout = match Layout::read(bytes) {
            Ok(layout) => layout,
            Err(e) => {
                return Err(e);
            },
        };
        let ghost b = bytes@;
        let ghost h = layout.header();
        let size: usize = layout.size;
        let mut payload_offset: usize = layout.payloads_offset;
        let mut containers: Vec<ContainerEntry> = Vec::with_capacity(size);
        let mut prefix_cardinalities: Vec<u64> = Vec::with_capacity(size + 1);
        prefix_cardinalities.push(0);
        let mut total_len: u64 = 0;
        let mut last_key: Option<u16> = None;

        let mut index: usize = 0;
        while index < size
            invariant
                b == bytes@,
                h == layout.header(),
                layout.wf(b),
                parse_header(b) == Ok::<Header, ParseError>(h),
                size == layout.size,
                index <= size,
                payload_offset == h.payload_at(b, index as int),
                layout.payloads_offset <= payload_offset <= b.len(),
                match last_key {
                    Some(last) => index > 0 && last == h.key(b, index - 1),
                    None => index == 0,
                },
                total_len <= 0x1_0000 * index,
                containers@.len() == index,
                prefix_cardinalities@.len() == index + 1,
                prefix_cardinalities@[0] == 0,
                prefix_cardinalities@.last() == total_len,
                forall|i: int| 0 <= i < index ==> (#[trigger] containers@[i]).wf(b),
                forall|i: int|
                    0 <= i < index ==> prefix_cardinalities@[i + 1] == prefix_cardinalities@[i] + (
                    #[trigger] containers@[i]).cardinality,
                forall|i: int|
                    0 <= i < index ==> {
                        let e = #[trigger] containers@[i];
                        &&& e.key == h.key(b, i)
                        &&& e.cardinality == h.cardinality(b, i)
                        &&& e.kind == h.kind(b, i)
                        &&& e.payload_offset == h.payload_at(b, i)
                    },
                forall|i: int, j: int|
                    0 <= i < j < index ==> (#[trigger] containers@[i]).key < (
                    #[trigger] containers@[j]).key,
                forall|i: int| 0 <= i < index ==> !(#[trigger] h.faulty(b)(i)),
            decreases size - index,
        {
            let entry: ContainerEntry = match layout.read_container(
                bytes,
                index,
                payload_offset,
                last_key,
            ) {
                Ok(entry) => entry,
                Err(e) => {
                    proof {
                        assert(h.faulty(b)(index as int));
                        lemma_first_is(h.count, h.faulty(b), index as int);
                    }
                    return Err(e);
                },
            };
            assert(!h.faulty(b)(index as int));
            proof {
                entry.lemma_wf(b);
                assert(bytes@.len() == bytes.len());
                assert forall|i: int| 0 <= i < index implies (#[trigger] containers@[i]).key
                    < entry.key by {
                    assert(containers@[index - 1].key == h.key(b, index - 1));
                }
            }
            payload_offset = payload_offset + entry.payload_size();
            total_len = total_len + entry.cardinality as u64;
            prefix_cardinalities.push(total_len);
            containers.push(entry);
            last_key = Some(entry.key);
            index = index + 1;
        }
        let view = RoaringBitmapView {
            bytes,
            containers,
            prefix_cardinalities,
            len: total_len,
        };
        proof {
            lemma_first_none(h.count, h.faulty(b));
            assert(view.chunks() =~= Seq::new(h.count as nat, |i: int| h.chunk(b, i)));
        }
        Ok(view)
    }

    /// Returns the number of values in the bitmap.
    pub fn len(&self) -> (len: u64)
        ensures
            self@.finite(),
            len == self@.len(),
    {
        proof {
            use_type_invariant(self);
            self.lemma_len();
        }
        self.len
    }

    /// Returns `true` if the bitmap contains no values.
    pub fn is_empty(&self) -> (empty: bool)
        ensures
            empty == (self@ == Set::<u32>::empty()),
    {
        proof {
            use_type_invariant(self);
            self.lemma_chunks();
            if self.containers@.len() > 0 {
                let c = self.chunks();
                let k = choose|k: int| c[0].values.contains(k);
                self.lemma_member(0, k);
            } else {
                assert(self@ =~= Set::<u32>::empty());
            }
        }
        self.containers.len() == 0
    }

    /// The values with the key of a container are those of the container.
    pub(crate) proof fn lemma_member(self, i: int, k: int)
        requires
            self.wf(),
            0 <= i < self.chunks().len(),
            0 <= k < 0x1_0000,
        ensures
            0 <= 0x1_0000 * self.chunks()[i].key + k < 0x1_0000_0000,
            self@.contains((0x1_0000 * self.chunks()[i].key + k) as u32)
                <==> self.chunks()[i].values.contains(k),
    {
        self.lemma_chunks();
        lemma_block_present(self.chunks(), i);
        let b = block(chunk_values(self.chunks()), self.chunks()[i].key);
        assert(b.contains(k) <==> self.chunks()[i].values.contains(k));
    }

    /// Every value belongs to a container.
    pub(crate) proof fn lemma_holder(self, v: u32) -> (i: int)
        requires
            self.wf(),
            self@.contains(v),
        ensures
            0 <= i < self.chunks().len(),
            self.chunks()[i].key == v / 0x1_0000,
            self.chunks()[i].values.contains((v % 0x1_0000) as int),
    {
        let c = self.chunks();
        let i = choose|i: int| 0 <= i < c.len() && #[trigger] chunk_holds(c, i, v as int);
        i
    }

    /// Finds the container with the given key, or the position at which it would have to stand.
    fn find(&self, key: u16) -> (found: Result<usize, usize>)
        ensures
            match found {
                Ok(pos) => {
                    &&& pos < self.containers@.len()
                    &&& self.containers@[pos as int].key == key
                },
                Err(pos) => {
                    &&& chunk_split(self.chunks(), pos as int, key as int)
                    &&& chunk_split(self.chunks(), pos as int, key + 1)
                },
            },
    {
        proof {
            use_type_invariant(self);
        }
        let total: usize = self.containers.len();
        let mut size: usize = total;
        let mut left: usize = 0;
        while size > 0
            invariant
                self.wf(),
                total == self.containers@.len(),
                left + size <= total,
                forall|i: int| 0 <= i < left ==> (#[trigger] self.containers@[i]).key < key,
                forall|i: int|
                    left + size <= i < self.containers@.len() ==> key < (
                    #[trigger] self.containers@[i]).key,
            decreases size,
        {
            let half: usize = size / 2;
            let mid: usize = left + half;
            let found: u16 = self.containers[mid].key;
            if found < key {
                left = mid + 1;
                size = size - (half + 1);
            } else if found == key {
                return Ok(mid);
            } else {
                size = half;
            }
        }
        Err(left)
    }

    /// Returns `true` if the bitmap contains `value`.
    pub fn contains(&self, value: u32) -> (found: bool)
        ensures
            found == self@.contains(value),
    {
        proof {
            use_type_invariant(self);
            self.lemma_chunks();
        }
        let (key, index) = split(value);
        match self.find(key) {
            Ok(pos) => {
                proof {
                    self.lemma_member(pos as int, index as int);
                }
                self.containers[pos].contains(self.bytes, index)
            },
            Err(pos) => {
                proof {
                    if self@.contains(value) {
                        let i = self.lemma_holder(value);
                        assert(self.chunks()[i].key == key);
                    }
                }
                false
            },
        }
    }

    /// Returns the smallest value in the bitmap.
    pub fn min(&self) -> (least: Option<u32>)
        ensures
            match least {
                Some(m) => self@.contains(m) && forall|v: u32| self@.contains(v) ==> m <= v,
                None => self@ == Set::<u32>::empty(),
            },
    {
        proof {
            use_type_invariant(self);
            self.lemma_chunks();
        }
        if self.containers.len() == 0 {
            assert(self@ =~= Set::<u32>::empty());
            return None;
        }
        let container: &ContainerEntry = &self.containers[0];
        let index: u16 = container.min(self.bytes);
        let least: u32 = join(container.key, index);
        proof {
            self.lemma_member(0, index as int);
            assert forall|v: u32| self@.contains(v) implies least <= v by {
                let i = self.lemma_holder(v);
                if i > 0 {
                    assert(self.chunks()[0].key < self.chunks()[i].key);
                }
            }
        }
        Some(least)
    }

    /// Returns the largest value in the bitmap.
    pub fn max(&self) -> (greatest: Option<u32>)
        ensures
            match greatest {
                Some(m) => self@.contains(m) && forall|v: u32| self@.contains(v) ==> v <= m,
                None => self@ == Set::<u32>::empty(),
            },
    {
        proof {
            use_type_invariant(self);
            self.lemma_chunks();
        }
        if self.containers.len() == 0 {
            assert(self@ =~= Set::<u32>::empty());
            return None;
        }
        let last: usize = self.containers.len() - 1;
        let container: &ContainerEntry = &self.containers[last];
        let index: u16 = container.max(self.bytes);
        let greatest: u32 = join(container.key, index);
        proof {
            self.lemma_member(last as int, index as int);
            assert forall|v: u32| self@.contains(v) implies v <= greatest by {
                let i = self.lemma_holder(v);
                if i < last {
                    assert(self.chunks()[i].key < self.chunks()[last as int].key);
                }
            }
        }
        Some(greatest)
    }

    /// Returns the number of values less than or equal to `value`.
    pub fn rank(&self, value: u32) -> (rank: u64)
        ensures
            self@.finite(),
            rank == up_to(self@, value).len(),
    {
        let (key, index) = split(value);
        let ghost c = self.chunks();
        let ghost s = chunk_values(c);
        proof {
            use_type_invariant(self);
            self.lemma_chunks();
            self.lemma_len();
            lemma_u32_count_below(s, value + 1);
            assert(up_to(self@, value) =~= to_u32(s).filter(|v: u32| v < value + 1));
            lemma_count_split(s, 0, 0x1_0000 * key, value + 1);
            assert forall|k: int| 0 <= k < index + 1 implies (#[trigger] block(
                s,
                key as int,
            ).contains(k) <==> s.contains(k + 0x1_0000 * key)) by {}
            lemma_count_shift(block(s, key as int), s, 0, index + 1, 0x1_0000 * key);
            lemma_count_bound(s, 0, 0x1_0000 * key);
            lemma_count_bound(block(s, key as int), 0, index + 1);
        }
        match self.find(key) {
            Ok(pos) => {
                proof {
                    lemma_block_present(c, pos as int);
                    assert(chunk_split(c, pos as int, key as int));
                    self.lemma_prefix(pos as int, key as int);
                }
                self.containers[pos].rank(self.bytes, index) + self.prefix_cardinalities[pos]
            },
            Err(pos) => {
                proof {
                    lemma_block_absent(c, pos as int, key as int, key as int);
                    lemma_count_none(block(s, key as int), 0, index + 1);
                    self.lemma_prefix(pos as int, key as int);
                }
                self.prefix_cardinalities[pos]
            },
        }
    }

    /// Computes the len of the intersection with another view without materializing a bitmap.
    pub fn intersection_len(&self, other: &Self) -> (total: u64)
        ensures
            self@.intersect(other@).finite(),
            total == self@.intersect(other@).len(),
            total <= self@.len(),
            total <= other@.len(),
    {
        let ghost c = self.chunks();
        let ghost d = other.chunks();
        let ghost cs = chunk_values(c);
        let ghost ds = chunk_values(d);
        let ghost both = cs.intersect(ds);
        proof {
            use_type_invariant(self);
            use_type_invariant(other);
            self.lemma_chunks();
            other.lemma_chunks();
            assert(both =~= ds.intersect(cs));
        }
        let mut lhs: usize = 0;
        let mut rhs: usize = 0;
        let mut total: u64 = 0;
        let ghost mut bound: int = 0;

        while lhs < self.containers.len() && rhs < other.containers.len()
            invariant
                self.wf(),
                other.wf(),
                c == self.chunks(),
                d == other.chunks(),
                chunks_ok(c),
                chunks_ok(d),
                cs == chunk_values(c),
                ds == chunk_values(d),
                both == cs.intersect(ds),
                both == ds.intersect(cs),
                0 <= bound <= 0x1_0000,
                chunk_split(c, lhs as int, bound),
                chunk_split(d, rhs as int, bound),
                total == count(both, 0, 0x1_0000 * bound),
                total <= 0x1_0000 * bound,
            decreases self.containers@.len() - lhs + other.containers@.len() - rhs,
        {
            let left: &ContainerEntry = &self.containers[lhs];
            let right: &ContainerEntry = &other.containers[rhs];
            proof {
                lemma_count_bound(both, 0, 0x1_0000 * (left.key + 1));
            }
            if left.key < right.key {
                proof {
                    lemma_chunk_step(c, lhs as int, bound, ds);
                    lemma_block_absent(d, rhs as int, bound, left.key as int);
                    let none = c[lhs as int].values.intersect(block(ds, left.key as int));
                    lemma_count_none(none, 0, 0x1_0000);
                    bound = left.key + 1;
                }
                lhs = lhs + 1;
            } else if left.key > right.key {
                proof {
                    lemma_chunk_step(d, rhs as int, bound, cs);
                    lemma_block_absent(c, lhs as int, bound, right.key as int);
                    let none = d[rhs as int].values.intersect(block(cs, right.key as int));
                    lemma_count_none(none, 0, 0x1_0000);
                    bound = right.key + 1;
                }
                rhs = rhs + 1;
            } else {
                proof {
                    lemma_chunk_step(c, lhs as int, bound, ds);
                    lemma_chunk_step(d, rhs as int, bound, cs);
                    lemma_block_present(d, rhs as int);
                    bound = left.key + 1;
                }
                total = total + left.intersection_len(self.bytes, right, other.bytes);
                lhs = lhs + 1;
                rhs = rhs + 1;
            }
        }
        proof {
            if lhs == self.containers@.len() {
                lemma_chunk_done(c, bound, ds);
            } else {
                lemma_chunk_done(d, bound, cs);
            }
            lemma_u32_count(both);
            assert(self@.intersect(other@) =~= to_u32(both));
            self.lemma_len();
            other.lemma_len();
            lemma_count_subset(both, cs, 0, 0x1_0000_0000);
            lemma_count_subset(both, ds, 0, 0x1_0000_0000);
        }
        total
    }

    /// Computes the len of the union with another view without materializing a bitmap.
    pub fn union_len(&self, other: &Self) -> (total: u64)
        ensures
            self@.union(other@).finite(),
            total == self@.union(other@).len(),
    {
        proof {
            use_type_invariant(self);
            use_type_invariant(other);
            self.lemma_len();
            other.lemma_len();
            lemma_set_intersect_union_lens(self@, other@);
        }
        self.len() + other.len() - self.intersection_len(other)
    }

    /// Computes the len of the difference with another view without materializing a bitmap.
    pub fn difference_len(&self, other: &Self) -> (total: u64)
        ensures
            self@.difference(other@).finite(),
            total == self@.difference(other@).len(),
    {
        proof {
            use_type_invariant(self);
            use_type_invariant(other);
            self.lemma_len();
            other.lemma_len();
            lemma_set_difference_len(self@, other@);
        }
        self.len() - self.intersection_len(other)
    }

    /// Computes the len of the symmetric difference with another view without materializing a
    /// bitmap.
    pub fn symmetric_difference_len(&self, other: &Self) -> (total: u64)
        ensures
            symmetric_difference(self@, other@).finite(),
            total == symmetric_difference(self@, other@).len(),
    {
        proof {
            use_type_invariant(self);
            use_type_invariant(other);
            self.lemma_len();
            other.lemma_len();
            lemma_symmetric_difference(self@, other@);
        }
        let intersection_len: u64 = self.intersection_len(other);
        self.len() + other.len() - intersection_len - intersection_len
    }

    /// Computes the len of the symmetric difference with another view without materializing a
    /// bitmap.
    pub fn xor_len(&self, other: &Self) -> (total: u64)
        ensures
            symmetric_difference(self@, other@).finite(),
            total == symmetric_difference(self@, other@).len(),
    {
        self.symmetric_difference_len(other)
    }
}

/// The members of one of two sets, but not of both.
pub open spec fn symmetric_difference(a: Set<u32>, b: Set<u32>) -> Set<u32> {
    a.difference(b).union(b.difference(a))
}

pub(crate) proof fn lemma_symmetric_difference(a: Set<u32>, b: Set<u32>)
    requires
        a.finite(),
        b.finite(),
    ensures
        symmetric_difference(a, b).finite(),
        symmetric_difference(a, b).len() == a.len() + b.len() - 2 * a.intersect(b).len(),
{
    lemma_set_difference_len(a, b);
    lemma_set_difference_len(b, a);
    assert(a.intersect(b) =~= b.intersect(a));
    lemma_set_disjoint_lens(a.difference(b), b.difference(a));
}

/// The upper and the lower 16 bits of a value.
pub(crate) fn split(value: u32) -> (parts: (u16, u16))
    ensures
        parts.0 == value / 0x1_0000,
        parts.1 == value % 0x1_0000,
{
    ((value / 0x1_0000) as u16, (value % 0x1_0000) as u16)
}

/// The value with the given upper and lower 16 bits.
pub(crate) fn join(key: u16, index: u16) -> (value: u32)
    ensures
        value == 0x1_0000 * key + index,
{
    key as u32 * 0x1_0000 + index as u32
}

} // verus!
