//! Adaptive radix tree: an ordered map from byte strings to values, with lookups, updates,
//! in-order iteration and inclusive range scans, each proved against a map model.
pub mod lex;
pub mod prefix;
pub mod raw;
pub mod model;
pub mod inner;
pub mod map;
pub mod iter;
pub mod laws;

pub use crate::iter::{Iter, RangeIter};
pub use crate::map::ARTMap;
