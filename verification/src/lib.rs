//! Range sets and range maps over a bounded, discrete index domain.
//!
//! An [`InversionMap`] keeps disjoint half-open ranges `[start, end)` in
//! ascending order, each with a value; an [`InversionList`] is the same
//! structure without values, a set of points. Ranges may touch without being
//! merged. Every operation keeps the ranges non-empty, ascending and free of
//! overlap, and states what it leaves behind over the sequence of entries.

pub mod index;
pub mod laws;
pub mod list;
pub mod map;
pub mod util;

pub use index::OrderedIndex;
pub use list::InversionList;
pub use map::InversionMap;
