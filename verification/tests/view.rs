//! Views over whole bitmaps, compared with sets of the same values.

use std::collections::BTreeSet;

use roaring::{ParseError, RoaringBitmap, RoaringBitmapView};

/// A bitmap to be serialized.
#[derive(Clone)]
struct Bitmap {
    values: BTreeSet<u32>,
    optimized: bool,
}

impl Bitmap {
    fn from_iter(values: impl IntoIterator<Item = u32>) -> Bitmap {
        Bitmap { values: values.into_iter().collect(), optimized: false }
    }

    fn insert_range(&mut self, range: std::ops::Range<u32>) {
        self.values.extend(range);
    }

    /// Stores containers as runs from now on, where that takes fewer bytes.
    fn optimize(&mut self) {
        self.optimized = true;
    }

    fn len(&self) -> u64 {
        self.values.len() as u64
    }

    fn rank(&self, value: u32) -> u64 {
        self.values.range(..=value).count() as u64
    }
}

fn push16(bytes: &mut Vec<u8>, value: u16) {
    bytes.extend_from_slice(&value.to_le_bytes());
}

fn push32(bytes: &mut Vec<u8>, value: u32) {
    bytes.extend_from_slice(&value.to_le_bytes());
}

fn runs_of(lows: &[u16]) -> Vec<(u16, u16)> {
    let mut runs: Vec<(u16, u16)> = Vec::new();
    for &low in lows {
        match runs.last_mut() {
            Some(run) if run.1 as u32 + 1 == low as u32 => run.1 = low,
            _ => runs.push((low, low)),
        }
    }
    runs
}

/// The payload of a container, and whether it is one of runs.
fn payload_of(lows: &[u16], optimized: bool) -> (bool, Vec<u8>) {
    let runs = runs_of(lows);
    let plain = if lows.len() <= 4096 { 2 * lows.len() } else { 8192 };
    let mut payload = Vec::new();
    if optimized && 2 + 4 * runs.len() < plain {
        push16(&mut payload, runs.len() as u16);
        for (start, end) in runs {
            push16(&mut payload, start);
            push16(&mut payload, end - start);
        }
        (true, payload)
    } else if lows.len() <= 4096 {
        for &low in lows {
            push16(&mut payload, low);
        }
        (false, payload)
    } else {
        payload.resize(8192, 0);
        for &low in lows {
            payload[low as usize / 8] |= 1 << (low % 8);
        }
        (false, payload)
    }
}

/// The bytes of a bitmap. With `flags`, run containers are told apart even if there are none.
fn serialize(bitmap: &Bitmap, flags: bool) -> Vec<u8> {
    let mut containers: Vec<(u16, Vec<u16>)> = Vec::new();
    for &value in &bitmap.values {
        let (key, low) = ((value >> 16) as u16, value as u16);
        match containers.last_mut() {
            Some(last) if last.0 == key => last.1.push(low),
            _ => containers.push((key, vec![low])),
        }
    }
    let payloads: Vec<(bool, Vec<u8>)> =
        containers.iter().map(|(_, lows)| payload_of(lows, bitmap.optimized)).collect();
    let flags = (flags && !containers.is_empty()) || payloads.iter().any(|(run, _)| *run);

    let mut bytes = Vec::new();
    let has_offsets = !flags || containers.len() >= 4;
    if flags {
        push16(&mut bytes, 12347);
        push16(&mut bytes, (containers.len() - 1) as u16);
        let mut bits = vec![0u8; (containers.len() + 7) / 8];
        for (i, (run, _)) in payloads.iter().enumerate() {
            if *run {
                bits[i / 8] |= 1 << (i % 8);
            }
        }
        bytes.extend_from_slice(&bits);
    } else {
        push32(&mut bytes, 12346);
        push32(&mut bytes, containers.len() as u32);
    }
    for (key, lows) in &containers {
        push16(&mut bytes, *key);
        push16(&mut bytes, (lows.len() - 1) as u16);
    }
    if has_offsets {
        let mut at = bytes.len() + 4 * containers.len();
        for (_, payload) in &payloads {
            push32(&mut bytes, at as u32);
            at += payload.len();
        }
    }
    for (_, payload) in &payloads {
        bytes.extend_from_slice(payload);
    }
    bytes
}

fn view_bytes(bitmap: &Bitmap) -> Vec<u8> {
    serialize(bitmap, false)
}

fn collect(view: &RoaringBitmapView<'_>) -> Vec<u32> {
    let mut iter = view.iter();
    let mut values = Vec::new();
    while let Some(value) = iter.next() {
        values.push(value);
    }
    values
}

/// The owned bitmap holds the given values, as far as the values and their neighbours show, and
/// equals the one that is read from the same values in another layout.
fn assert_owned(owned: &RoaringBitmap, bitmap: &Bitmap) {
    for &value in &bitmap.values {
        assert!(owned.contains(value));
        for near in [value.saturating_sub(1), value.saturating_add(1), value ^ 0x1_0000] {
            assert_eq!(owned.contains(near), bitmap.values.contains(&near));
        }
    }
    let again = Bitmap { values: bitmap.values.clone(), optimized: !bitmap.optimized };
    let bytes = view_bytes(&again);
    assert_eq!(owned, &RoaringBitmapView::try_new(&bytes).unwrap().to_owned());
}

fn assert_cardinality_ops(left: &Bitmap, right: &Bitmap) {
    let left_bytes = view_bytes(left);
    let right_bytes = view_bytes(right);
    let left_view = RoaringBitmapView::try_new(&left_bytes).unwrap();
    let right_view = RoaringBitmapView::try_new(&right_bytes).unwrap();

    let (l, r) = (&left.values, &right.values);
    assert_eq!(left_view.intersection_len(&right_view), (l & r).len() as u64);
    assert_eq!(left_view.union_len(&right_view), (l | r).len() as u64);
    assert_eq!(left_view.difference_len(&right_view), (l - r).len() as u64);
    assert_eq!(left_view.symmetric_difference_len(&right_view), (l ^ r).len() as u64);
    assert_eq!(left_view.xor_len(&right_view), (l ^ r).len() as u64);
}

fn assert_predicate_ops(left: &Bitmap, right: &Bitmap) {
    let left_bytes = view_bytes(left);
    let right_bytes = view_bytes(right);
    let left_view = RoaringBitmapView::try_new(&left_bytes).unwrap();
    let right_view = RoaringBitmapView::try_new(&right_bytes).unwrap();

    let (l, r) = (&left.values, &right.values);
    assert_eq!(left_view.is_subset(&right_view), l.is_subset(r));
    assert_eq!(right_view.is_subset(&left_view), r.is_subset(l));
    assert_eq!(left_view.intersects(&right_view), !l.is_disjoint(r));
    assert_eq!(right_view.intersects(&left_view), !r.is_disjoint(l));
    assert_eq!(left_view == right_view, l == r);
}

#[test]
fn reads_array_bitmap_and_run_containers() {
    let mut bitmap = Bitmap::from_iter([1, 3, 7, 65_535, 70_000]);
    bitmap.insert_range(200_000..210_000);
    bitmap.insert_range(300_000..301_000);
    bitmap.optimize();

    let bytes = view_bytes(&bitmap);
    let view = RoaringBitmapView::try_new(&bytes).unwrap();

    assert_eq!(view.len(), bitmap.len());
    assert_eq!(view.is_empty(), bitmap.values.is_empty());
    assert_eq!(view.min(), bitmap.values.first().copied());
    assert_eq!(view.max(), bitmap.values.last().copied());
    assert_owned(&view.to_owned(), &bitmap);
    assert_eq!(collect(&view), bitmap.values.iter().copied().collect::<Vec<_>>());

    for value in [0, 1, 7, 65_535, 70_000, 200_000, 209_999, 210_000, u32::MAX] {
        assert_eq!(view.contains(value), bitmap.values.contains(&value));
        assert_eq!(view.rank(value), bitmap.rank(value));
    }
}

#[test]
fn cardinality_ops_match_owned_bitmap_container_pairs() {
    let array = Bitmap::from_iter([1, 3, 7, 65, 4_095, 70_001, 70_003]);
    let mut bitmap = Bitmap::from_iter(2_000..7_500);
    bitmap.insert_range(70_000..75_000);

    let mut run = Bitmap::from_iter([]);
    run.insert_range(3_000..8_000);
    run.insert_range(70_002..70_010);
    run.optimize();

    let mut disjoint_key = Bitmap::from_iter([]);
    disjoint_key.insert_range(200_000..205_000);

    for (left, right) in [
        (&array, &array),
        (&array, &bitmap),
        (&bitmap, &array),
        (&bitmap, &bitmap),
        (&array, &run),
        (&run, &array),
        (&bitmap, &run),
        (&run, &bitmap),
        (&run, &run),
        (&run, &disjoint_key),
    ] {
        assert_cardinality_ops(left, right);
        assert_predicate_ops(left, right);
    }
}

#[test]
fn eq_is_set_equality_across_layouts() {
    // The same set in two shapes: a bitmap container and, optimized, a run container.
    let canonical = Bitmap::from_iter(2_000..6_500);
    let mut runs = canonical.clone();
    runs.optimize();

    let canonical_bytes = view_bytes(&canonical);
    let runs_bytes = view_bytes(&runs);
    let canonical_view = RoaringBitmapView::try_new(&canonical_bytes).unwrap();
    let runs_view = RoaringBitmapView::try_new(&runs_bytes).unwrap();

    assert_ne!(canonical_bytes, runs_bytes);
    assert_eq!(canonical_view, runs_view);

    // Identical bytes are compared as bytes.
    let canonical_view_again = RoaringBitmapView::try_new(&canonical_bytes).unwrap();
    assert_eq!(canonical_view, canonical_view_again);

    // One value less.
    let smaller = Bitmap::from_iter(2_001..6_500);
    let smaller_bytes = view_bytes(&smaller);
    let smaller_view = RoaringBitmapView::try_new(&smaller_bytes).unwrap();
    assert_ne!(canonical_view, smaller_view);
}

#[test]
fn rejects_bad_cookie() {
    assert!(matches!(
        RoaringBitmapView::try_new(&[1, 2, 3, 4]),
        Err(ParseError::BadCookie { got: 0x0403_0201 })
    ));
}

#[test]
fn rejects_truncated_payload() {
    let bitmap = Bitmap::from_iter(0..5000);
    let mut bytes = view_bytes(&bitmap);
    bytes.truncate(bytes.len() - 1);
    assert!(matches!(RoaringBitmapView::try_new(&bytes), Err(ParseError::Truncated { .. })));
}

/// A generator of numbers that look random.
struct Numbers(u64);

impl Numbers {
    fn next(&mut self) -> u64 {
        self.0 ^= self.0 << 13;
        self.0 ^= self.0 >> 7;
        self.0 ^= self.0 << 17;
        self.0
    }

    fn below(&mut self, n: u64) -> u64 {
        self.next() % n
    }

    /// A bitmap below 300001 of single values and of ranges.
    fn bitmap(&mut self) -> Bitmap {
        let singles = if self.below(2) == 0 { self.below(100) } else { self.below(20_000) };
        let mut bitmap = Bitmap::from_iter([]);
        for _ in 0..singles {
            bitmap.values.insert(self.below(300_001) as u32);
        }
        for _ in 0..self.below(6) {
            let start = self.below(290_000) as u32;
            bitmap.insert_range(start..start + self.below(10_000) as u32);
        }
        bitmap.optimized = self.below(2) == 0;
        bitmap
    }
}

#[test]
fn matches_owned_bitmap() {
    let mut numbers = Numbers(0x9e37_79b9_7f4a_7c15);
    for _ in 0..24 {
        let bitmap = numbers.bitmap();
        let mut other = numbers.bitmap();
        match numbers.below(4) {
            0 => other.values = bitmap.values.clone(),
            1 => other.values.extend(bitmap.values.iter().copied()),
            _ => {}
        }
        let flags = numbers.below(2) == 0;
        let bytes = serialize(&bitmap, flags);
        let view = RoaringBitmapView::try_new(&bytes).unwrap();

        assert_eq!(view.len(), bitmap.len());
        assert_eq!(view.is_empty(), bitmap.values.is_empty());
        assert_eq!(view.min(), bitmap.values.first().copied());
        assert_eq!(view.max(), bitmap.values.last().copied());
        assert_eq!(collect(&view), bitmap.values.iter().copied().collect::<Vec<_>>());
        assert_owned(&view.to_owned(), &bitmap);

        for _ in 0..256 {
            let value = numbers.below(300_001) as u32;
            assert_eq!(view.contains(value), bitmap.values.contains(&value));
            assert_eq!(view.rank(value), bitmap.rank(value));
        }
        assert_cardinality_ops(&bitmap, &other);
        assert_predicate_ops(&bitmap, &other);
    }
}

#[test]
fn container_pairs_meet_at_their_edges() {
    let mut shapes: Vec<Bitmap> = Vec::new();
    for (values, optimized) in [
        (BTreeSet::from([0u32, 63, 64, 127, 65_535]), false),
        ((0..=65_535).collect(), true),
        ((0..=65_535).collect(), false),
        ((0..=65_535).filter(|v| v % 3 == 0).collect(), false),
        ((0..=65_535).filter(|v| v % 128 < 64).collect(), true),
        ((0..=65_535).filter(|v| v % 128 < 64).collect(), false),
        ((65_535..=65_535).collect(), false),
        ((60_000..=65_535).collect(), true),
        ((0..=4_095).collect(), false),
        ((0..=4_096).collect(), false),
        ((0..=4_096).collect(), true),
        ((64..=127).collect(), true),
        ((65..=126).collect(), true),
    ] {
        shapes.push(Bitmap { values, optimized });
    }
    for left in &shapes {
        for right in &shapes {
            assert_cardinality_ops(left, right);
            assert_predicate_ops(left, right);
        }
    }
}

#[test]
fn empty_bitmap() {
    let bytes = view_bytes(&Bitmap::from_iter([]));
    assert_eq!(bytes.len(), 8);
    let view = RoaringBitmapView::try_new(&bytes).unwrap();
    assert_eq!(view.len(), 0);
    assert!(view.is_empty());
    assert_eq!(view.min(), None);
    assert_eq!(view.max(), None);
    assert_eq!(view.rank(u32::MAX), 0);
    assert!(!view.contains(0));
    assert_eq!(view.iter().next(), None);
    assert_eq!(view.iter().size_hint(), (0, Some(0)));
    assert!(view.is_subset(&view));
    assert!(!view.intersects(&view));
    assert_eq!(view, view.clone());
    assert!(!view.to_owned().contains(0));
}

#[test]
fn largest_key_and_value() {
    let bitmap = Bitmap::from_iter([0, u32::MAX - 1, u32::MAX]);
    let bytes = view_bytes(&bitmap);
    let view = RoaringBitmapView::try_new(&bytes).unwrap();
    assert_eq!(view.max(), Some(u32::MAX));
    assert_eq!(view.min(), Some(0));
    assert_eq!(view.rank(u32::MAX), 3);
    assert_eq!(view.rank(u32::MAX - 1), 2);
    assert_eq!(view.rank(u32::MAX - 2), 1);
    assert_eq!(collect(&view), vec![0, u32::MAX - 1, u32::MAX]);
    assert_owned(&view.to_owned(), &bitmap);
}

#[test]
fn every_key() {
    let bitmap = Bitmap::from_iter((0..=0xffffu32).map(|key| key << 16 | (key ^ 0x5555)));
    for flags in [false, true] {
        let bytes = serialize(&bitmap, flags);
        let view = RoaringBitmapView::try_new(&bytes).unwrap();
        assert_eq!(view.len(), 65_536);
        assert_eq!(view.rank(0x8000_0000), 0x8000);
        assert!(view.contains(0x1234_4761));
        assert!(!view.contains(0x1234_4760));
        assert_eq!(collect(&view), bitmap.values.iter().copied().collect::<Vec<_>>());
    }
}

#[test]
fn size_hint_counts_down() {
    let mut bitmap = Bitmap::from_iter([5, 9, 70_000]);
    bitmap.insert_range(140_000..140_020);
    bitmap.optimize();
    let bytes = view_bytes(&bitmap);
    let view = RoaringBitmapView::try_new(&bytes).unwrap();
    let mut iter = view.iter();
    for left in (0..23usize).rev() {
        assert_eq!(iter.size_hint(), (left + 1, Some(left + 1)));
        assert!(iter.next().is_some());
    }
    assert_eq!(iter.size_hint(), (0, Some(0)));
    assert_eq!(iter.next(), None);
    assert_eq!(iter.next(), None);
}

#[test]
fn cloned_iterator_goes_its_own_way() {
    let bytes = view_bytes(&Bitmap::from_iter(0..5_000));
    let view = RoaringBitmapView::try_new(&bytes).unwrap();
    let mut iter = view.iter();
    assert_eq!(iter.next(), Some(0));
    assert_eq!(iter.next(), Some(1));
    let mut copy = iter.clone();
    assert_eq!(iter.next(), Some(2));
    assert_eq!(iter.next(), Some(3));
    assert_eq!(copy.next(), Some(2));
    assert_eq!(copy.size_hint(), (4_997, Some(4_997)));
}

#[test]
fn owned_bitmaps_compare_by_values() {
    let mut optimized = Bitmap::from_iter(2_000..6_500);
    let plain_bytes = view_bytes(&optimized);
    optimized.optimize();
    let run_bytes = view_bytes(&optimized);
    let other_bytes = view_bytes(&Bitmap::from_iter(2_000..6_501));
    let shifted_bytes = view_bytes(&Bitmap::from_iter(67_536..72_036));
    let plain = RoaringBitmapView::try_new(&plain_bytes).unwrap().to_owned();
    let run = RoaringBitmapView::try_new(&run_bytes).unwrap().to_owned();
    let other = RoaringBitmapView::try_new(&other_bytes).unwrap().to_owned();
    let shifted = RoaringBitmapView::try_new(&shifted_bytes).unwrap().to_owned();
    assert_eq!(plain, run);
    assert_eq!(run, plain);
    assert_ne!(plain, other);
    assert_ne!(run, other);
    assert_ne!(plain, shifted);
}

#[test]
fn lengths_of_set_operations_add_up() {
    let mut left = Bitmap::from_iter((0..50_000).filter(|v| v % 7 == 0));
    left.insert_range(100_000..120_000);
    let mut right = Bitmap::from_iter((0..50_000).filter(|v| v % 5 == 0));
    right.insert_range(110_000..130_000);
    right.optimize();
    let left_bytes = view_bytes(&left);
    let right_bytes = view_bytes(&right);
    let l = RoaringBitmapView::try_new(&left_bytes).unwrap();
    let r = RoaringBitmapView::try_new(&right_bytes).unwrap();

    let both = l.intersection_len(&r);
    assert_eq!(both, 1_429 + 10_000);
    assert_eq!(l.union_len(&r) + both, l.len() + r.len());
    assert_eq!(l.difference_len(&r) + both, l.len());
    assert_eq!(l.xor_len(&r), l.difference_len(&r) + r.difference_len(&l));
    assert_eq!(l.xor_len(&r) + both, l.union_len(&r));
    assert_eq!(l.intersection_len(&r), r.intersection_len(&l));
    assert_eq!(l.union_len(&r), r.union_len(&l));
    assert_eq!(l.xor_len(&l), 0);
}

#[test]
fn rank_is_the_position_in_the_iteration() {
    let mut bitmap = Bitmap::from_iter([3, 17, 64, 65_536, 70_001]);
    bitmap.insert_range(200_000..200_100);
    bitmap.insert_range(262_140..270_000);
    bitmap.optimize();
    let bytes = view_bytes(&bitmap);
    let view = RoaringBitmapView::try_new(&bytes).unwrap();
    let values = collect(&view);
    for (i, &value) in values.iter().enumerate() {
        assert_eq!(view.rank(value), i as u64 + 1);
        if !view.contains(value - 1) {
            assert_eq!(view.rank(value - 1), i as u64);
        }
    }
    assert_eq!(view.min(), values.first().copied());
    assert_eq!(view.max(), values.last().copied());
    assert_eq!(view.rank(u32::MAX), view.len());
}

#[test]
fn bytes_behind_the_last_payload_do_not_matter() {
    let mut bitmap = Bitmap::from_iter([1, 2, 70_000]);
    bitmap.insert_range(140_000..150_000);
    bitmap.insert_range(210_000..211_000);
    for optimized in [false, true] {
        bitmap.optimized = optimized;
        let bytes = view_bytes(&bitmap);
        let mut longer = bytes.clone();
        longer.extend_from_slice(&[0xff, 0, 7, 0x3a, 0x30]);
        let view = RoaringBitmapView::try_new(&bytes).unwrap();
        let longer_view = RoaringBitmapView::try_new(&longer).unwrap();
        assert_eq!(view, longer_view);
        assert_eq!(longer_view.len(), bitmap.len());
    }
}

#[test]
fn every_cut_is_noticed() {
    let mut bitmap = Bitmap::from_iter([1, 2, 70_000]);
    bitmap.insert_range(140_000..145_000);
    bitmap.insert_range(210_000..211_000);
    for optimized in [false, true] {
        bitmap.optimized = optimized;
        for flags in [false, true] {
            let bytes = serialize(&bitmap, flags);
            for n in 0..bytes.len() {
                assert!(matches!(
                    RoaringBitmapView::try_new(&bytes[..n]),
                    Err(ParseError::Truncated { .. })
                ));
            }
            assert!(RoaringBitmapView::try_new(&bytes).is_ok());
        }
    }
}

#[test]
fn ranges_of_a_bitmap_container() {
    let bitmap = Bitmap::from_iter((0..65_536).filter(|v| v % 200 < 130 || v / 64 == 40));
    let bytes = view_bytes(&bitmap);
    let view = RoaringBitmapView::try_new(&bytes).unwrap();
    for (start, end) in [
        (0u32, 0u32),
        (0, 129),
        (0, 130),
        (130, 199),
        (131, 191),
        (64, 127),
        (200, 329),
        (190, 400),
        (2_560, 2_623),
        (2_559, 2_624),
        (0, 65_535),
        (65_535, 65_535),
    ] {
        let mut range = Bitmap::from_iter(start..=end);
        range.optimize();
        let range_bytes = view_bytes(&range);
        let range_view = RoaringBitmapView::try_new(&range_bytes).unwrap();
        let below = if start == 0 { 0 } else { view.rank(start - 1) };
        let shared = range_view.intersection_len(&view);
        assert_eq!(shared, view.rank(end) - below);
        assert!(shared <= u64::from(end - start) + 1);
        assert_eq!(range_view.is_subset(&view), shared == u64::from(end - start) + 1);
        assert_eq!(range_view.intersects(&view), shared > 0);
    }
}

#[test]
fn owned_bitmap_keeps_the_kind_of_each_container() {
    let mut bitmap = Bitmap::from_iter([1, 3, 7]);
    bitmap.values.extend((70_000..90_000).filter(|v| v % 3 == 0));
    bitmap.insert_range(200_000..210_000);
    for (optimized, expected) in
        [(false, ["Array(", "Bitmap(", "Bitmap("]), (true, ["Array(", "Bitmap(", "Run("])]
    {
        bitmap.optimized = optimized;
        let bytes = view_bytes(&bitmap);
        let view = RoaringBitmapView::try_new(&bytes).unwrap();
        let text = format!("{:?}", view.to_owned());
        let kinds: Vec<&str> = text.split("store: ").skip(1).collect();
        assert_eq!(kinds.len(), 3);
        for (kind, start) in kinds.iter().zip(expected) {
            assert!(kind.starts_with(start));
        }
    }
}
