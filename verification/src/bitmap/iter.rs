//! Walking through the values of a view.

use vstd::prelude::*;

use crate::bitmap::array::{array_at, array_len, array_sorted, array_value};
use crate::bitmap::bits::{
    lemma_clear_lowest_bit, lemma_lowest_bit, lemma_word_zero, word_bit, word_set,
};
use crate::bitmap::bitset::{bitmap_set, bitmap_word, BITMAP_BYTES, BITMAP_LENGTH};
use crate::bitmap::chunk::{chunk_holds, chunk_values, chunks_ok, to_u32, within_u16};
use crate::bitmap::container::ContainerKind;
use crate::bitmap::entry::ContainerEntry;
use crate::bitmap::order::{ascending, law_ascending, lemma_ascending_empty, lemma_ascending_least};
use crate::bitmap::run::{run_bounds, run_end, run_payload_ok, run_start};
use crate::bitmap::view::{join, RoaringBitmapView};

verus! {

/// A place among the values of one container.
#[derive(Copy, Clone, Debug)]
pub(crate) enum ViewContainerValues<'a> {
    Array { payload: &'a [u8], pos: usize, end: usize },
    Bitmap { payload: &'a [u8], next_word: usize, current_word: u64, current_base: u16 },
    Run { payload: &'a [u8], run_index: usize, run_count: usize, current: Option<(u16, u16)> },
}

impl<'a> ViewContainerValues<'a> {
    /// The place is one in a valid payload.
    pub(crate) open spec fn wf(self) -> bool {
        match self {
            ViewContainerValues::Array { payload, pos, end } => {
                &&& array_sorted(payload@)
                &&& pos <= end
                &&& end == array_len(payload@)
            },
            ViewContainerValues::Bitmap { payload, next_word, current_word, current_base } => {
                &&& payload@.len() >= BITMAP_BYTES
                &&& next_word <= BITMAP_LENGTH
                &&& current_word != 0 ==> next_word > 0 && current_base == 64 * (next_word - 1)
            },
            ViewContainerValues::Run { payload, run_index, run_count, current } => {
                &&& run_count <= u16::MAX
                &&& run_payload_ok(payload@, run_count as int)
                &&& run_index <= run_count
                &&& match current {
                    Some((value, end)) => {
                        &&& run_index > 0
                        &&& value <= end
                        &&& end == run_end(payload@, run_index - 1)
                    },
                    None => true,
                }
            },
        }
    }

    /// The values from the place on.
    pub(crate) open spec fn rest(self) -> Set<int> {
        match self {
            ViewContainerValues::Array { payload, pos, end } => Set::new(
                |i: int| exists|j: int| pos <= j < end && #[trigger] array_at(payload@, j) == i,
            ),
            ViewContainerValues::Bitmap { payload, next_word, current_word, current_base } =>
                bitmap_rest(payload@, next_word, current_word, current_base),
            ViewContainerValues::Run { payload, run_index, run_count, current } => run_rest(
                payload@,
                run_index,
                run_count,
                current,
            ),
        }
    }

    /// Takes the least of the remaining values.
    pub(crate) fn next(&mut self) -> (value: Option<u16>)
        requires
            old(self).wf(),
        ensures
            final(self).wf(),
            match value {
                Some(v) => {
                    &&& old(self).rest().contains(v as int)
                    &&& forall|i: int| old(self).rest().contains(i) ==> v <= i
                    &&& final(self).rest() =~= old(self).rest().remove(v as int)
                },
                None => {
                    &&& old(self).rest() =~= Set::<int>::empty()
                    &&& final(self).rest() =~= Set::<int>::empty()
                },
            },
    {
        match self {
            ViewContainerValues::Array { payload, pos, end } => {
                if *pos == *end {
                    return None;
                }
                let value: u16 = array_value(payload, *pos);
                *pos = *pos + 1;
                Some(value)
            },
            ViewContainerValues::Bitmap { payload, next_word, current_word, current_base } => {
                bitmap_next(payload, next_word, current_word, current_base)
            },
            ViewContainerValues::Run { payload, run_index, run_count, current } => {
                run_next(payload, run_index, *run_count, current)
            },
        }
    }
}

/// The values of a bitmap payload from a place on.
pub(crate) open spec fn bitmap_rest(
    p: Seq<u8>,
    next_word: usize,
    current_word: u64,
    current_base: u16,
) -> Set<int> {
    Set::new(
        |i: int|
            (64 * next_word <= i && bitmap_set(p).contains(i)) || (current_base <= i < current_base
                + 64 && word_bit(current_word, i - current_base)),
    )
}

/// Takes the least of the remaining values of a bitmap payload.
fn bitmap_next(
    payload: &[u8],
    next_word: &mut usize,
    current_word: &mut u64,
    current_base: &mut u16,
) -> (value: Option<u16>)
    requires
        payload@.len() >= BITMAP_BYTES,
        *old(next_word) <= BITMAP_LENGTH,
        *old(current_word) != 0 ==> *old(next_word) > 0 && *old(current_base) == 64 * (*old(
            next_word,
        ) - 1),
    ensures
        *final(next_word) <= BITMAP_LENGTH,
        *final(current_word) != 0 ==> *final(next_word) > 0 && *final(current_base) == 64 * (
        *final(next_word) - 1),
        ({
            let before = bitmap_rest(
                payload@,
                *old(next_word),
                *old(current_word),
                *old(current_base),
            );
            let after = bitmap_rest(
                payload@,
                *final(next_word),
                *final(current_word),
                *final(current_base),
            );
            match value {
                Some(v) => {
                    &&& before.contains(v as int)
                    &&& forall|i: int| before.contains(i) ==> v <= i
                    &&& after =~= before.remove(v as int)
                },
                None => {
                    &&& before =~= Set::<int>::empty()
                    &&& after =~= Set::<int>::empty()
                },
            }
        }),
{
    let ghost before = bitmap_rest(
        payload@,
        *next_word,
        *current_word,
        *current_base,
    );
    loop
        invariant
            payload@.len() >= BITMAP_BYTES,
            *next_word <= BITMAP_LENGTH,
            *current_word != 0 ==> *next_word > 0 && *current_base == 64 * (*next_word - 1),
            before == bitmap_rest(
                payload@,
                *old(next_word),
                *old(current_word),
                *old(current_base),
            ),
            bitmap_rest(payload@, *next_word, *current_word, *current_base) =~= before,
        decreases BITMAP_LENGTH - *next_word,
    {
        proof {
            lemma_word_zero(*current_word);
        }
        if *current_word != 0 {
            let word: u64 = *current_word;
            let base: u16 = *current_base;
            proof {
                lemma_lowest_bit(word);
                lemma_clear_lowest_bit(word);
            }
            let bit: u16 = word.trailing_zeros() as u16;
            *current_word = word & (word - 1);
            proof {
                let v = base + bit;
                assert(word_bit(word, bit as int));
                assert(before.contains(v));
                assert forall|i: int| before.contains(i) implies v <= i by {
                    if i < base + 64 {
                        assert(word_bit(word, i - base));
                    }
                }
                let after = bitmap_rest(payload@, *next_word, *current_word, *current_base);
                assert forall|i: int| after.contains(i) <==> before.remove(v).contains(i) by {
                    if base <= i < base + 64 {
                        assert(word_set(*current_word).contains(i - base) <==> word_set(
                            word,
                        ).remove(bit as int).contains(i - base));
                    }
                }
            }
            return Some(base + bit);
        }
        if *next_word == BITMAP_LENGTH {
            assert(before =~= Set::<int>::empty());
            return None;
        }
        let index: usize = *next_word;
        *current_base = index as u16 * 64;
        *current_word = bitmap_word(payload, index);
        *next_word = index + 1;
        proof {
            let after = bitmap_rest(payload@, *next_word, *current_word, *current_base);
            assert forall|i: int| after.contains(i) <==> before.contains(i) by {
                if 64 * index <= i < 64 * index + 64 {
                    let k = i - 64 * index;
                    assert(word_bit(*current_word, k) <==> bitmap_set(payload@).contains(
                        64 * index + k,
                    ));
                }
            }
        }
    }
}

/// The values of a run payload from a place on.
pub(crate) open spec fn run_rest(
    p: Seq<u8>,
    run_index: usize,
    run_count: usize,
    current: Option<(u16, u16)>,
) -> Set<int> {
    Set::new(
        |i: int|
            (exists|r: int|
                run_index <= r < run_count && #[trigger] run_start(p, r) <= i && i <= run_end(p, r))
                || (current matches Some((value, end)) && value <= i && i <= end),
    )
}

/// Takes the least of the remaining values of a run payload.
fn run_next(
    payload: &[u8],
    run_index: &mut usize,
    run_count: usize,
    current: &mut Option<(u16, u16)>,
) -> (value: Option<u16>)
    requires
        run_count <= u16::MAX,
        run_payload_ok(payload@, run_count as int),
        *old(run_index) <= run_count,
        *old(current) matches Some((v, e)) ==> *old(run_index) > 0 && v <= e && e == run_end(
            payload@,
            *old(run_index) - 1,
        ),
    ensures
        *final(run_index) <= run_count,
        *final(current) matches Some((v, e)) ==> *final(run_index) > 0 && v <= e && e == run_end(
            payload@,
            *final(run_index) - 1,
        ),
        ({
            let before = run_rest(payload@, *old(run_index), run_count, *old(current));
            let after = run_rest(payload@, *final(run_index), run_count, *final(current));
            match value {
                Some(v) => {
                    &&& before.contains(v as int)
                    &&& forall|i: int| before.contains(i) ==> v <= i
                    &&& after =~= before.remove(v as int)
                },
                None => {
                    &&& before =~= Set::<int>::empty()
                    &&& after =~= Set::<int>::empty()
                },
            }
        }),
{
    let ghost p = payload@;
    let ghost before = run_rest(p, *run_index, run_count, *current);
    loop
        invariant
            p == payload@,
            run_count <= u16::MAX,
            run_payload_ok(p, run_count as int),
            *run_index <= run_count,
            *current matches Some((v, e)) ==> *run_index > 0 && v <= e && e == run_end(
                p,
                *run_index - 1,
            ),
            before == run_rest(p, *old(run_index), run_count, *old(current)),
            run_rest(p, *run_index, run_count, *current) =~= before,
        decreases run_count - *run_index,
    {
        match *current {
            Some((value, end)) => {
                proof {
                    let at = *run_index as int;
                    assert forall|r: int| at <= r < run_count implies end + 1 < #[trigger] run_start(
                        p,
                        r,
                    ) by {
                        assert(run_end(p, at - 1) + 1 < run_start(p, r));
                    }
                    assert(before.contains(value as int));
                }
                if value == end {
                    *current = None;
                } else {
                    *current = Some((value + 1, end));
                }
                return Some(value);
            },
            None => {},
        }
        if *run_index == run_count {
            return None;
        }
        let index: usize = *run_index;
        let (start, end) = run_bounds(payload, index);
        *run_index = index + 1;
        *current = Some((start, end));
        proof {
            let after = run_rest(p, *run_index, run_count, *current);
            assert forall|i: int| after.contains(i) <==> before.contains(i) by {
                if before.contains(i) {
                    let r = choose|r: int|
                        index <= r < run_count && #[trigger] run_start(p, r) <= i && i <= run_end(
                            p,
                            r,
                        );
                    if r == index {
                        assert(start <= i && i <= end);
                    }
                }
                if start <= i <= end {
                    assert(run_start(p, index as int) <= i && i <= run_end(p, index as int));
                }
            }
        }
    }
}

/// A place among the values of one container, with the key of the container.
#[derive(Copy, Clone, Debug)]
pub(crate) struct ViewContainerIter<'a> {
    pub(crate) key: u16,
    pub(crate) inner: ViewContainerValues<'a>,
}

impl<'a> ViewContainerIter<'a> {
    /// Takes the least of the remaining values.
    pub(crate) fn next(&mut self) -> (value: Option<u32>)
        requires
            old(self).inner.wf(),
        ensures
            final(self).inner.wf(),
            final(self).key == old(self).key,
            match value {
                Some(v) => {
                    let index = v - 0x1_0000 * old(self).key;
                    &&& 0 <= index < 0x1_0000
                    &&& old(self).inner.rest().contains(index)
                    &&& forall|i: int| old(self).inner.rest().contains(i) ==> index <= i
                    &&& final(self).inner.rest() =~= old(self).inner.rest().remove(index)
                },
                None => {
                    &&& old(self).inner.rest() =~= Set::<int>::empty()
                    &&& final(self).inner.rest() =~= Set::<int>::empty()
                },
            },
    {
        match self.inner.next() {
            Some(index) => Some(join(self.key, index)),
            None => None,
        }
    }
}

impl ContainerEntry {
    /// The place before the first value.
    pub(crate) fn iter<'a>(&self, bytes: &'a [u8]) -> (iter: ViewContainerIter<'a>)
        requires
            self.wf(bytes@),
        ensures
            iter.key == self.key,
            iter.inner.wf(),
            iter.inner.rest() =~= self.values(bytes@),
    {
        reveal(ContainerEntry::wf);
        let inner: ViewContainerValues<'a> = match self.kind {
            ContainerKind::Array => ViewContainerValues::Array {
                payload: self.array_payload(bytes),
                pos: 0,
                end: self.cardinality as usize,
            },
            ContainerKind::Bitmap => {
                proof {
                    lemma_word_zero(0);
                }
                ViewContainerValues::Bitmap {
                    payload: self.bitmap_payload(bytes),
                    next_word: 0,
                    current_word: 0,
                    current_base: 0,
                }
            },
            ContainerKind::Run { runs } => ViewContainerValues::Run {
                payload: self.run_payload(bytes, runs),
                run_index: 0,
                run_count: runs as usize,
                current: None,
            },
        };
        ViewContainerIter { key: self.key, inner }
    }
}

/// A place among the values of a view.
#[derive(Copy, Clone, Debug)]
struct Cursor<'view, 'bytes> {
    view: &'view RoaringBitmapView<'bytes>,
    container_index: usize,
    inner: Option<ViewContainerIter<'bytes>>,
    remaining: u64,
}

impl<'view, 'bytes> Cursor<'view, 'bytes> {
    /// The open container holds `v` among its remaining values.
    spec fn inner_holds(self, v: int) -> bool {
        self.inner matches Some(it) && it.key == v / 0x1_0000 && it.inner.rest().contains(
            v % 0x1_0000,
        )
    }

    /// The values that have not been taken yet.
    spec fn rest(self) -> Set<int> {
        let c = self.view.chunks();
        Set::new(
            |v: int|
                self.inner_holds(v) || exists|i: int|
                    self.container_index <= i < c.len() && #[trigger] chunk_holds(c, i, v),
        )
    }

    /// The values that have not been taken yet, in ascending order.
    spec fn values(self) -> Seq<u32> {
        ascending(to_u32(self.rest()))
    }

    /// The open container is the one before the next, and the cached count is right.
    spec fn wf(self) -> bool {
        &&& self.view.wf()
        &&& self.container_index <= self.view.containers@.len()
        &&& self.remaining == self.values().len()
        &&& match self.inner {
            Some(it) => {
                &&& self.container_index > 0
                &&& it.inner.wf()
                &&& it.key == self.view.containers@[self.container_index - 1].key
                &&& within_u16(it.inner.rest())
            },
            None => true,
        }
    }

    /// Taking the least value of the open container takes the least of all that remain.
    proof fn lemma_taken(at: Self, after: Self, value: u32)
        requires
            at.wf(),
            after.view == at.view,
            after.container_index == at.container_index,
            at.inner matches Some(it) && after.inner matches Some(jt) && it.key == jt.key && ({
                let index = value - 0x1_0000 * it.key;
                &&& 0 <= index < 0x1_0000
                &&& it.inner.rest().contains(index)
                &&& forall|i: int| it.inner.rest().contains(i) ==> index <= i
                &&& jt.inner.rest() == it.inner.rest().remove(index)
            }),
        ensures
            at.values() == seq![value] + after.values(),
            after.rest() =~= at.rest().remove(value as int),
    {
        let c = at.view.chunks();
        at.view.lemma_chunks();
        let it = at.inner.unwrap();
        let jt = after.inner.unwrap();
        let index = value - 0x1_0000 * it.key;
        let s = at.rest();
        assert(value as int / 0x1_0000 == it.key && value as int % 0x1_0000 == index);
        assert(at.inner_holds(value as int));
        assert forall|v: int| s.contains(v) implies value <= v by {
            if at.inner_holds(v) {
                assert(index <= v % 0x1_0000);
            } else {
                let i = choose|i: int|
                    at.container_index <= i < c.len() && #[trigger] chunk_holds(c, i, v);
                assert(c[at.container_index - 1].key < c[i].key);
            }
        }
        assert forall|v: int| after.rest().contains(v) <==> s.remove(value as int).contains(v) by {
            if at.inner_holds(v) && v != value {
                assert(v % 0x1_0000 != index);
                assert(after.inner_holds(v));
            }
            if after.inner_holds(v) {
                assert(at.inner_holds(v));
                assert(v % 0x1_0000 != index);
            }
            if exists|i: int|
                at.container_index <= i < c.len() && #[trigger] chunk_holds(c, i, v) {
                let i = choose|i: int|
                    at.container_index <= i < c.len() && #[trigger] chunk_holds(c, i, v);
                assert(c[at.container_index - 1].key < c[i].key);
                assert(v != value);
            }
        }
        let s32 = to_u32(s);
        assert(s32.contains(value));
        assert forall|v: u32| s32.contains(v) implies value <= v by {
            assert(s.contains(v as int));
        }
        lemma_ascending_least(s32, value);
        assert(after.rest() =~= s.remove(value as int));
        assert(to_u32(after.rest()) =~= s32.remove(value));
    }

    /// Takes the least of the values that have not been taken yet.
    fn next(&mut self) -> (value: Option<u32>)
        requires
            old(self).wf(),
        ensures
            final(self).wf(),
            match value {
                Some(v) => {
                    &&& old(self).values().len() > 0
                    &&& v == old(self).values()[0]
                    &&& final(self).values() == old(self).values().skip(1)
                },
                None => old(self).values().len() == 0 && final(self).values() == old(self).values(),
            },
    {
        let ghost c = self.view.chunks();
        let ghost before = self.rest();
        proof {
            self.view.lemma_chunks();
        }
        loop
            invariant
                self.view == old(self).view,
                self.wf(),
                c == self.view.chunks(),
                chunks_ok(c),
                before == old(self).rest(),
                self.rest() == before,
            decreases self.view.containers@.len() - self.container_index,
        {
            let ghost at = *self;
            if let Some(inner) = &mut self.inner {
                let taken: Option<u32> = inner.next();
                if let Some(value) = taken {
                    proof {
                        Self::lemma_taken(at, *self, value);
                    }
                    let ghost mid = *self;
                    self.remaining = self.remaining - 1;
                    proof {
                        assert(forall|v: int| self.inner_holds(v) == mid.inner_holds(v));
                        assert(self.rest() =~= mid.rest());
                        assert(self.values() =~= at.values().skip(1));
                    }
                    return Some(value);
                }
                self.inner = None;
            }
            proof {
                assert forall|v: int| self.rest().contains(v) <==> before.contains(v) by {
                    assert(at.rest().contains(v) <==> before.contains(v));
                    assert(!at.inner_holds(v));
                    assert(!self.inner_holds(v));
                }
                assert(self.rest() =~= before);
            }
            if self.container_index >= self.view.containers.len() {
                proof {
                    assert forall|v: u32| !to_u32(before).contains(v) by {
                        assert(!self.inner_holds(v as int));
                    }
                    lemma_ascending_empty(to_u32(before));
                }
                return None;
            }
            let entry: &ContainerEntry = &self.view.containers[self.container_index];
            proof {
                entry.lemma_wf(self.view.bytes@);
            }
            let ghost opened = self.container_index as int;
            self.container_index = self.container_index + 1;
            self.inner = Some(entry.iter(self.view.bytes));
            proof {
                assert forall|v: int| self.rest().contains(v) <==> before.contains(v) by {
                    assert(self.inner_holds(v) <==> chunk_holds(c, opened, v));
                    if before.contains(v) {
                        let i = choose|i: int|
                            opened <= i < c.len() && #[trigger] chunk_holds(c, i, v);
                        assert(i == opened || self.container_index <= i);
                    }
                }
                assert(self.rest() =~= before);
            }
        }
    }
}

/// The number of values that are left, as far as `usize` can say.
pub open spec fn hint_of(left: Seq<u32>) -> usize {
    if left.len() <= usize::MAX {
        left.len() as usize
    } else {
        usize::MAX
    }
}

/// An iterator over values in a [`RoaringBitmapView`].
#[derive(Debug)]
pub struct RoaringBitmapViewIter<'view, 'bytes> {
    cursor: Cursor<'view, 'bytes>,
}

impl<'view, 'bytes> View for RoaringBitmapViewIter<'view, 'bytes> {
    type V = Seq<u32>;

    /// The values that have not been taken yet, in the order in which they will be.
    closed spec fn view(&self) -> Seq<u32> {
        self.cursor.values()
    }
}

impl<'view, 'bytes> RoaringBitmapViewIter<'view, 'bytes> {
    #[verifier::type_invariant]
    spec fn wf(self) -> bool {
        self.cursor.wf()
    }

    /// Takes the next value, in ascending order.
    pub fn next(&mut self) -> (value: Option<u32>)
        ensures
            match value {
                Some(v) => {
                    &&& old(self)@.len() > 0
                    &&& v == old(self)@[0]
                    &&& final(self)@ == old(self)@.skip(1)
                },
                None => old(self)@.len() == 0 && final(self)@ == old(self)@,
            },
    {
        proof {
            use_type_invariant(&*self);
        }
        let mut cursor: Cursor<'view, 'bytes> = self.cursor;
        let value: Option<u32> = cursor.next();
        self.cursor = cursor;
        value
    }

    /// The bounds on the number of values that remain: exact, unless it exceeds `usize`.
    pub fn size_hint(&self) -> (hint: (usize, Option<usize>))
        ensures
            hint == (hint_of(self@), Some(hint_of(self@))),
            self@.len() <= usize::MAX ==> hint.0 == self@.len(),
            self@.len() > usize::MAX ==> hint.0 == usize::MAX,
    {
        proof {
            use_type_invariant(self);
        }
        let remaining: usize = if self.cursor.remaining <= usize::MAX as u64 {
            self.cursor.remaining as usize
        } else {
            usize::MAX
        };
        (remaining, Some(remaining))
    }
}

impl<'view, 'bytes> Clone for RoaringBitmapViewIter<'view, 'bytes> {
    fn clone(&self) -> (copy: Self)
        ensures
            copy == *self,
    {
        proof {
            use_type_invariant(self);
        }
        RoaringBitmapViewIter { cursor: self.cursor }
    }
}

impl<'a> RoaringBitmapView<'a> {
    /// Iterates over all values in ascending order.
    pub fn iter(&self) -> (iter: RoaringBitmapViewIter<'_, 'a>)
        ensures
            iter@ == ascending(self@),
    {
        let cursor = Cursor { view: self, container_index: 0, inner: None, remaining: self.len };
        proof {
            use_type_invariant(self);
            self.lemma_len();
            let s = chunk_values(self.chunks());
            assert forall|v: int| cursor.rest().contains(v) <==> s.contains(v) by {
                assert(!cursor.inner_holds(v));
            }
            assert(cursor.rest() =~= s);
            law_ascending(self@);
        }
        RoaringBitmapViewIter { cursor }
    }
}

} // verus!
