//! Bitmaps in the portable format, from the bytes up to the views.

pub mod array;
pub mod bits;
pub mod bitset;
pub mod bytes;
pub mod canonical;
pub mod chunk;
mod compare;
pub mod container;
pub mod count;
mod entry;
pub mod error;
pub mod format;
pub mod format_laws;
pub mod iter;
pub mod laws;
mod layout;
pub mod message_laws;
pub mod mixed;
pub mod order;
pub mod owned;
mod parse;
pub mod payload_laws;
pub mod run;
mod store;
pub mod view;
pub mod wire;
pub mod wire_errors;

pub use self::error::ParseError;
pub use self::iter::RoaringBitmapViewIter;
pub use self::owned::RoaringBitmap;
pub use self::view::RoaringBitmapView;
