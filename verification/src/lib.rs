//! Read-only views over bitmaps in the portable Roaring format.

pub mod bitmap;

pub use bitmap::{ParseError, RoaringBitmap, RoaringBitmapView, RoaringBitmapViewIter};
