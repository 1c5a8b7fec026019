//! Recoverable errors of shape and axis handling.

use vstd::prelude::*;

verus! {

/// Why two shapes, or a shape and an axis, do not fit together.
#[derive(Clone, Debug)]
pub enum ShapeError {
    IncompatibleAxis(String),
    IncompatibleDimension(String),
    IncompatibleShape(String),
}

/// The error type of every fallible operation of the library.
#[derive(Debug)]
pub enum Error {
    Shape(ShapeError),
    TryFromInt(core::num::TryFromIntError),
    Value(String),
}

impl Error {
    /// The error is an axis error.
    pub open spec fn is_axis(self) -> bool {
        self matches Error::Shape(ShapeError::IncompatibleAxis(_))
    }

    /// The error is a rank or dimension error.
    pub open spec fn is_dimension(self) -> bool {
        self matches Error::Shape(ShapeError::IncompatibleDimension(_))
    }

    /// The error is a shape error.
    pub open spec fn is_shape(self) -> bool {
        self matches Error::Shape(ShapeError::IncompatibleShape(_))
    }

    /// The error is a value error.
    pub open spec fn is_value(self) -> bool {
        self is Value
    }
}

impl From<ShapeError> for Error {
    fn from(e: ShapeError) -> (r: Self) {
        Error::Shape(e)
    }
}

impl vstd::std_specs::convert::FromSpecImpl<ShapeError> for Error {
    open spec fn obeys_from_spec() -> bool {
        true
    }

    open spec fn from_spec(e: ShapeError) -> Self {
        Error::Shape(e)
    }
}

impl From<core::num::TryFromIntError> for Error {
    fn from(e: core::num::TryFromIntError) -> (r: Self) {
        Error::TryFromInt(e)
    }
}

impl vstd::std_specs::convert::FromSpecImpl<core::num::TryFromIntError> for Error {
    open spec fn obeys_from_spec() -> bool {
        true
    }

    open spec fn from_spec(e: core::num::TryFromIntError) -> Self {
        Error::TryFromInt(e)
    }
}

} // verus!
