//! A strided, multi-dimensional array engine.
//!
//! An array is a descriptor (shape, per-axis strides, element offset) over a
//! storage handle. Slicing, broadcasting, transposing, permuting and reshaping
//! derive new descriptors over the same buffer; only iteration and the
//! explicit materialising operations read or copy elements.

pub mod arith;
pub mod array;
pub mod array_index;
pub mod canonical;
pub mod dimension;
pub mod error;
pub mod format;
pub mod iter;
pub mod layout;
mod message;
pub mod order;
pub mod permutation;
pub mod routine;
pub mod shape;
pub mod slice;
pub mod slice_info;
pub mod storage;

pub use array::{Array, ArrayBase};
pub use array_index::{ArrayIndex, NewAxis};
pub use dimension::{Dimensionality, DynDim, NDims};
pub use error::{Error, ShapeError};
pub use iter::{ElementIterator, Iter, IterMut, SequenceIter};
pub use order::{ColumnMajor, Order, RowMajor};
pub use routine::{broadcast_shape, normalize_axis};
pub use shape::{Shape, SignedShape};
pub use slice::{Bound, Slice};
pub use slice_info::SliceInfo;
