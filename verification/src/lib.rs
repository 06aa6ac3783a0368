//! A sequence CRDT for collaborative text: every character carries an
//! immutable, densely ordered position, so that concurrent inserts and
//! removes on different replicas commute.
//!
//! A position is a path of 32-bit digits with the site and clock that made
//! it (`path`, `position`, `order`). New paths are allocated between two
//! neighbours at the first level that leaves room (`gap`), by a strategy that
//! narrows the free digits (`allocator`, `algorithm`), or many at once in
//! equal shares (`batch`). A store keeps the characters in the order of
//! their positions between two sentinels (`entries`, `storage`, `bulk`),
//! takes in the changes of other replicas in any order (`operations`), and
//! shows its characters by spans of positions: characters, text, lines and
//! grapheme clusters (`ranges`, `graphemes`).
//!
//! The random numbers come from `fastrand` (`random`), paths are put
//! together in a `tinyvec::TinyVec` (`builder`), levels are compared with
//! `itertools`, and clusters are found by `unicode_segmentation`. What is
//! taken from them on trust is stated where they are called.

pub mod algorithm;
pub mod allocator;
pub mod batch;
pub mod builder;
pub mod bulk;
pub mod entries;
pub mod gap;
pub mod graphemes;
pub mod operations;
pub mod order;
pub mod path;
pub mod payload;
pub mod position;
pub mod random;
pub mod ranges;
pub mod storage;
pub mod text;

pub use algorithm::Algorithm;
pub use allocator::{Allocator, Strategy};
pub use builder::Builder;
pub use bulk::StringTooLarge;
pub use position::{PathTooLong, Position};
pub use operations::Operation;
pub use ranges::{Bound, Span};
pub use storage::Storage;
