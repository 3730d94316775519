//! Persistent ordered maps and sets built on weight-balanced binary search
//! trees.
//!
//! Every mutating operation leaves the original collection untouched and
//! returns a new collection value; unchanged subtrees are shared between the
//! old and the new version through reference-counted pointers.

use vstd::prelude::*;

pub mod map;
pub mod order;
pub mod set;
pub mod tree;

pub use map::TreeMap;
pub use set::TreeSet;

verus! {

/// An endpoint of a range of keys.
#[derive(Clone, Copy, Debug, Hash, PartialEq, Eq)]
pub enum Bound<T> {
    /// An infinite endpoint: no bound in this direction.
    Unbounded,
    /// An inclusive bound.
    Included(T),
    /// An exclusive bound.
    Excluded(T),
}

} // verus!
