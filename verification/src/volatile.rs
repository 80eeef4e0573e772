//! A single-word cell with explicit read and write operations.
//!
//! The solver keeps its mutable per-action parameters and the tree's
//! `first_child` links in these cells, so every access to them is a visible,
//! whole-word operation.  The solver itself is single-threaded, so the cell
//! is a plain value; the explicit operations keep each access distinct.

use vstd::prelude::*;

verus! {

/// A single mutable word.
#[derive(Clone, Copy, Debug, PartialEq, Eq, Structural)]
pub struct Volatile<T> {
    pub value: T,
}

impl<T> Volatile<T> {
    pub open spec fn spec_value(&self) -> T {
        self.value
    }

    pub fn new(value: T) -> (cell: Volatile<T>)
        ensures
            cell.spec_value() == value,
    {
        Volatile { value }
    }
}

impl<T: Copy> Volatile<T> {
    /// Reads the whole word.
    pub fn read(&self) -> (v: T)
        ensures
            v == self.spec_value(),
    {
        self.value
    }

    /// Overwrites the whole word.
    pub fn write(&mut self, value: T)
        ensures
            final(self).spec_value() == value,
    {
        self.value = value;
    }
}

} // verus!
