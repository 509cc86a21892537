# roaring

Read-only views over bitmaps in the portable Roaring format, verified with Verus.

`RoaringBitmapView::try_new` checks a byte slice once: the cookie, the tables, the order of the
container keys, and each container payload. After that every operation works on the borrowed
bytes: `len`, `contains`, `min`, `max`, `rank`, the lengths of set operations, `is_subset`,
`intersects`, `==` and `iter`. `to_owned` copies the values out.

The contracts speak of the set of 32-bit values that a view stands for (`view@`).

- `src/bitmap/format.rs` says which bytes stand for which set, and which error comes for which
  bytes.
- `src/bitmap/parse.rs` and `layout.rs` read and check the bytes.
- `src/bitmap/array.rs`, `bitset.rs`, `run.rs` and `mixed.rs` are the operations on payloads.
- `src/bitmap/entry.rs` is one container, `view.rs`, `compare.rs` and `iter.rs` the views, and
  `owned.rs` and `store.rs` the bitmaps that own their values.
- `src/bitmap/laws.rs`, `format_laws.rs`, `canonical.rs` and `order.rs` hold what was proved
  beyond the single functions.
- `app/` adds `Display`, `Error` and `Iterator`.
