//! The selectors of a slicing operation.

use vstd::prelude::*;
use vstd::std_specs::convert::FromSpecImpl;
use core::ops::Range;
use crate::slice::{Bound, Slice};

verus! {

/// The selector that inserts an axis of size 1.
#[derive(Clone, Copy, Debug, PartialEq, Eq, Hash, Structural)]
pub struct NewAxis;

/// One selector: a single index, which removes its axis; a slice, which
/// keeps it; or a new axis.
#[derive(Clone, Copy, Debug, PartialEq, Eq, Hash, Structural)]
pub enum ArrayIndex {
    Index(isize),
    Slice(Slice),
    NewAxis,
}

impl ArrayIndex {
    /// Whether the selector is a single index.
    pub fn is_index(&self) -> (b: bool)
        ensures
            b == (*self is Index),
    {
        matches!(self, ArrayIndex::Index(_))
    }

    /// Whether the selector inserts an axis.
    pub fn is_new_axis(&self) -> (b: bool)
        ensures
            b == (*self is NewAxis),
    {
        matches!(self, ArrayIndex::NewAxis)
    }

    /// Whether the selector is a slice.
    pub fn is_slice(&self) -> (b: bool)
        ensures
            b == (*self is Slice),
    {
        matches!(self, ArrayIndex::Slice(_))
    }
}

impl From<isize> for ArrayIndex {
    fn from(v: isize) -> (r: Self) {
        ArrayIndex::Index(v)
    }
}

impl FromSpecImpl<isize> for ArrayIndex {
    open spec fn obeys_from_spec() -> bool {
        true
    }

    open spec fn from_spec(v: isize) -> Self {
        ArrayIndex::Index(v)
    }
}

impl From<NewAxis> for ArrayIndex {
    fn from(v: NewAxis) -> (r: Self) {
        ArrayIndex::NewAxis
    }
}

impl FromSpecImpl<NewAxis> for ArrayIndex {
    open spec fn obeys_from_spec() -> bool {
        true
    }

    open spec fn from_spec(v: NewAxis) -> Self {
        ArrayIndex::NewAxis
    }
}

impl From<Slice> for ArrayIndex {
    fn from(v: Slice) -> (r: Self) {
        ArrayIndex::Slice(v)
    }
}

impl FromSpecImpl<Slice> for ArrayIndex {
    open spec fn obeys_from_spec() -> bool {
        true
    }

    open spec fn from_spec(v: Slice) -> Self {
        ArrayIndex::Slice(v)
    }
}

impl From<Range<isize>> for ArrayIndex {
    fn from(v: Range<isize>) -> (r: Self) {
        ArrayIndex::Slice(Slice::range(v.start, v.end))
    }
}

impl FromSpecImpl<Range<isize>> for ArrayIndex {
    open spec fn obeys_from_spec() -> bool {
        true
    }

    open spec fn from_spec(v: Range<isize>) -> Self {
        ArrayIndex::Slice(Slice::with_parts(Bound::Included(v.start), Bound::Excluded(v.end), 1))
    }
}

} // verus!
