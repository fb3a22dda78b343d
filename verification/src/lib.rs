//! Bitonic sorting of sequences whose length is a power of two.

use vstd::prelude::*;

pub mod relation;
pub mod bitonic;
pub mod length;
pub mod network;
pub mod slices;
pub mod first;
pub mod natural;
pub mod second;
pub mod third;
pub mod comparator;
pub mod fourth;

verus! {

/// The direction in which a whole sequence is to be ordered.
#[derive(Clone, Copy, Debug, PartialEq, Eq, Structural)]
pub enum SortOrder {
    /// Smallest element first.
    Ascending,
    /// Largest element first.
    Descending,
}

impl SortOrder {
    /// Whether this order puts the smallest element first.
    pub open spec fn is_ascending(&self) -> bool {
        *self == SortOrder::Ascending
    }
}

} // verus!
