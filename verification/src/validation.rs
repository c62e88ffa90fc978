//! Values that were checked while being read, and the errors that the
//! validation of a document reports.

use vstd::prelude::*;

verus! {

/// A value read from a document, which may have turned out to be invalid.
#[derive(Clone, Copy, Debug, PartialEq, Eq, Hash)]
pub enum Checked<T> {
    /// The item is valid.
    Valid(T),
    /// The item is invalid.
    Invalid,
}

/// The kinds of error that validation reports.
#[derive(Clone, Copy, Debug, PartialEq, Eq, Hash, Structural)]
pub enum Error {
    /// An index was found to be out of bounds.
    IndexOutOfBounds,
    /// An invalid value was identified.
    Invalid,
    /// Some required data has been omitted.
    Missing,
    /// A memory size or offset exceeds the system limits.
    Unsupported,
}

/// The index of an item in one of the top-level arrays of a document.
#[derive(Clone, Copy, Debug, PartialEq, Eq, Hash, Structural)]
pub struct Index {
    /// The position in the array.
    pub index: u32,
}

impl Index {
    /// Creates an index to the item at position `value`.
    pub fn new(value: u32) -> (r: Index)
        ensures
            r.index == value,
    {
        Index { index: value }
    }

    /// Returns the position that this index refers to.
    pub fn value(&self) -> (r: usize)
        ensures
            r == self.index,
    {
        self.index as usize
    }
}

} // verus!
