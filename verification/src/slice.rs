//! One-axis slices: an optional start, an optional end and a non-zero step,
//! resolved against the size of the axis they select from.

use vstd::prelude::*;
use vstd::std_specs::convert::FromSpecImpl;
use core::ops::Range;

verus! {

/// One end of a slice.
#[derive(Clone, Copy, Debug, PartialEq, Eq, Hash, Structural)]
pub enum Bound {
    Included(isize),
    Excluded(isize),
    Unbounded,
}

/// A selection of every `step`-th index of an axis between two bounds.
/// Negative bounds count from the end of the axis, a negative step walks
/// backwards.
#[derive(Clone, Copy, Debug, PartialEq, Eq, Hash, Structural)]
pub struct Slice {
    pub(crate) start: Bound,
    pub(crate) end: Bound,
    pub(crate) step: isize,
}

/// The first index a slice selects from an axis of size `dim`, clamped into
/// the axis: `dim` (forward) or `-1` (backward) when it lies beyond.
pub open spec fn resolved_start(start: Bound, step: int, dim: int) -> int {
    match start {
        Bound::Included(x) => {
            let first: int = if step > 0 { 0 } else { -1 };
            if x < 0 {
                if x + dim < first { first } else { x + dim }
            } else {
                if x < dim + first { x as int } else { dim + first }
            }
        },
        Bound::Excluded(_) => 0,
        Bound::Unbounded => if step > 0 { 0 } else { dim - 1 },
    }
}

/// The index at which a slice of an axis of size `dim` stops, exclusive,
/// clamped to `-1 ..= dim`.
pub open spec fn resolved_end(end: Bound, step: int, dim: int) -> int {
    match end {
        Bound::Excluded(x) => {
            if x < 0 {
                if x + dim < -1 { -1 } else { x + dim }
            } else {
                if x < dim { x as int } else { dim }
            }
        },
        Bound::Included(x) => {
            let c: int = if step > 0 { 1 } else { -1 };
            if x < 0 {
                if x + c + dim < -1 { -1 } else { x + c + dim }
            } else {
                if x + c < dim { x + c } else { dim }
            }
        },
        Bound::Unbounded => if step > 0 { dim } else { -1 },
    }
}

/// The number of indices that a walk from `start` towards `end` in steps of
/// `step` visits: the distance divided by the step width, rounded up.
pub open spec fn stepped_len(start: int, end: int, step: int) -> int {
    if step > 0 {
        if end <= start { 0 } else { (end - start + step - 1) / step }
    } else if step < 0 {
        if start <= end { 0 } else { (start - end + (-step) - 1) / (-step) }
    } else {
        0
    }
}

impl Slice {
    #[verifier::type_invariant]
    pub(crate) closed spec fn inv(self) -> bool {
        self.step != 0 && !(self.start is Excluded)
    }

    /// The start bound.
    pub closed spec fn start_bound(self) -> Bound {
        self.start
    }

    /// The end bound.
    pub closed spec fn end_bound(self) -> Bound {
        self.end
    }

    /// The step.
    pub closed spec fn step_value(self) -> int {
        self.step as int
    }

    /// The slice is one that the constructors can make: its step is not zero
    /// and its start is not exclusive.
    pub closed spec fn well_formed(self) -> bool {
        self.inv()
    }

    /// The slice with the given parts.
    pub closed spec fn with_parts(start: Bound, end: Bound, step: isize) -> Slice {
        Slice { start, end, step }
    }

    /// A slice is determined by its three parts.
    pub proof fn lemma_parts(self)
        ensures
            self == Slice::with_parts(self.start_bound(), self.end_bound(), self.step_value() as isize),
            self.well_formed() <==> self.step_value() != 0 && !(self.start_bound() is Excluded),
    {
    }

    /// The parts of a slice made of parts.
    pub proof fn lemma_with_parts(start: Bound, end: Bound, step: isize)
        ensures
            Slice::with_parts(start, end, step).start_bound() == start,
            Slice::with_parts(start, end, step).end_bound() == end,
            Slice::with_parts(start, end, step).step_value() == step,
    {
    }

    /// The first index selected from an axis of size `dim`.
    pub open spec fn start_at(self, dim: int) -> int {
        resolved_start(self.start_bound(), self.step_value(), dim)
    }

    /// The index, exclusive, at which the selection from an axis of size
    /// `dim` stops.
    pub open spec fn end_at(self, dim: int) -> int {
        resolved_end(self.end_bound(), self.step_value(), dim)
    }

    /// The number of indices selected from an axis of size `dim`.
    pub open spec fn len_at(self, dim: int) -> int {
        stepped_len(self.start_at(dim), self.end_at(dim), self.step_value())
    }

    /// `start..end` with step 1.
    pub fn range(start: isize, end: isize) -> (s: Self)
        ensures
            s == Slice::with_parts(Bound::Included(start), Bound::Excluded(end), 1),
            s.well_formed(),
    {
        Slice { start: Bound::Included(start), end: Bound::Excluded(end), step: 1 }
    }

    /// `start..` with step 1.
    pub fn range_from(start: isize) -> (s: Self)
        ensures
            s == Slice::with_parts(Bound::Included(start), Bound::Unbounded, 1),
            s.well_formed(),
    {
        Slice { start: Bound::Included(start), end: Bound::Unbounded, step: 1 }
    }

    /// `..` with step 1: the whole axis.
    pub fn range_full() -> (s: Self)
        ensures
            s == Slice::with_parts(Bound::Unbounded, Bound::Unbounded, 1),
            s.well_formed(),
    {
        Slice { start: Bound::Unbounded, end: Bound::Unbounded, step: 1 }
    }

    /// `start..=end` with step 1.
    pub fn range_inclusive(start: isize, end: isize) -> (s: Self)
        ensures
            s == Slice::with_parts(Bound::Included(start), Bound::Included(end), 1),
            s.well_formed(),
    {
        Slice { start: Bound::Included(start), end: Bound::Included(end), step: 1 }
    }

    /// `..end` with step 1.
    pub fn range_to(end: isize) -> (s: Self)
        ensures
            s == Slice::with_parts(Bound::Unbounded, Bound::Excluded(end), 1),
            s.well_formed(),
    {
        Slice { start: Bound::Unbounded, end: Bound::Excluded(end), step: 1 }
    }

    /// `..=end` with step 1.
    pub fn range_to_inclusive(end: isize) -> (s: Self)
        ensures
            s == Slice::with_parts(Bound::Unbounded, Bound::Included(end), 1),
            s.well_formed(),
    {
        Slice { start: Bound::Unbounded, end: Bound::Included(end), step: 1 }
    }

    /// The same bounds walked in steps of `step`.
    pub fn step_by(self, step: isize) -> (s: Self)
        requires
            step != 0,
        ensures
            s == Slice::with_parts(self.start_bound(), self.end_bound(), step),
            s.well_formed(),
    {
        proof {
            use_type_invariant(&self);
        }
        Slice { start: self.start, end: self.end, step }
    }

    /// The start bound.
    pub fn start(&self) -> (b: Bound)
        ensures
            b == self.start_bound(),
    {
        self.start
    }

    /// The end bound.
    pub fn end(&self) -> (b: Bound)
        ensures
            b == self.end_bound(),
    {
        self.end
    }

    /// The step, which is never zero.
    pub fn step(&self) -> (s: isize)
        ensures
            s == self.step_value(),
            s != 0,
            self.well_formed(),
    {
        proof {
            use_type_invariant(self);
        }
        self.step
    }

    /// The index, exclusive, at which the selection from an axis of size
    /// `dim` stops.
    pub fn end_with_dim(&self, dim: usize) -> (r: isize)
        requires
            dim <= isize::MAX,
        ensures
            r == self.end_at(dim as int),
            -1 <= r <= dim,
    {
        let d: i128 = dim as i128;
        match self.end {
            Bound::Excluded(x) => {
                let x: i128 = x as i128;
                if x < 0 {
                    if x + d < -1 {
                        -1
                    } else {
                        (x + d) as isize
                    }
                } else {
                    if x < d {
                        x as isize
                    } else {
                        dim as isize
                    }
                }
            },
            Bound::Included(x) => {
                let x: i128 = x as i128;
                let c: i128 = if self.step > 0 {
                    1
                } else {
                    -1
                };
                if x < 0 {
                    if x + c + d < -1 {
                        -1
                    } else {
                        (x + c + d) as isize
                    }
                } else {
                    if x + c < d {
                        (x + c) as isize
                    } else {
                        dim as isize
                    }
                }
            },
            Bound::Unbounded => {
                if self.step > 0 {
                    dim as isize
                } else {
                    -1
                }
            },
        }
    }

    /// The first index selected from an axis of size `dim`.
    pub fn start_with_dim(&self, dim: usize) -> (r: isize)
        requires
            dim <= isize::MAX,
        ensures
            r == self.start_at(dim as int),
            -1 <= r <= dim,
            self.step_value() > 0 ==> 0 <= r,
            self.step_value() < 0 ==> r < dim,
    {
        proof {
            use_type_invariant(self);
        }
        let d: i128 = dim as i128;
        match self.start {
            Bound::Included(x) => {
                let x: i128 = x as i128;
                let first: i128 = if self.step > 0 {
                    0
                } else {
                    -1
                };
                if x < 0 {
                    if x + d < first {
                        first as isize
                    } else {
                        (x + d) as isize
                    }
                } else {
                    if x < d + first {
                        x as isize
                    } else {
                        (d + first) as isize
                    }
                }
            },
            Bound::Excluded(_) => 0,
            Bound::Unbounded => {
                if self.step > 0 {
                    0
                } else {
                    (d - 1) as isize
                }
            },
        }
    }

    /// The number of indices selected from an axis of size `dim`.
    pub fn len_with_dim(&self, dim: usize) -> (r: usize)
        requires
            dim <= isize::MAX,
        ensures
            r == self.len_at(dim as int),
            r <= dim,
    {
        proof {
            use_type_invariant(self);
        }
        let end: i128 = self.end_with_dim(dim) as i128;
        let start: i128 = self.start_with_dim(dim) as i128;
        let step: i128 = self.step as i128;
        if step > 0 {
            if end <= start {
                0
            } else {
                let r: i128 = (end - start + step - 1) / step;
                proof {
                    lemma_stepped_len_bounds(start as int, end as int, step as int);
                }
                r as usize
            }
        } else {
            if start <= end {
                0
            } else {
                let width: i128 = -step;
                let r: i128 = (start - end + width - 1) / width;
                proof {
                    lemma_stepped_len_bounds(start as int, end as int, step as int);
                }
                r as usize
            }
        }
    }
}

/// A walk visits at least one index when there is any distance to cover, and
/// no more indices than the distance. Its last index lies before the end.
pub proof fn lemma_stepped_len_bounds(start: int, end: int, step: int)
    requires
        step != 0,
    ensures
        0 <= stepped_len(start, end, step),
        step > 0 ==> stepped_len(start, end, step) <= (if end > start { end - start } else { 0 }),
        step < 0 ==> stepped_len(start, end, step) <= (if start > end { start - end } else { 0 }),
        step > 0 && end > start ==> stepped_len(start, end, step) >= 1 && start + (stepped_len(
            start,
            end,
            step,
        ) - 1) * step < end,
        step < 0 && start > end ==> stepped_len(start, end, step) >= 1 && start + (stepped_len(
            start,
            end,
            step,
        ) - 1) * step > end,
{
    if step > 0 && end > start {
        lemma_ceil_div(end - start, step);
    }
    if step < 0 && start > end {
        lemma_ceil_div(start - end, -step);
        let n = stepped_len(start, end, step);
        assert((n - 1) * step == -((n - 1) * (-step))) by (nonlinear_arith);
    }
}

/// Rounding a positive distance up to whole steps gives between one step and
/// as many steps as the distance, and one step less falls short of it.
pub proof fn lemma_ceil_div(distance: int, width: int)
    requires
        distance > 0,
        width > 0,
    ensures
        1 <= (distance + width - 1) / width <= distance,
        ((distance + width - 1) / width - 1) * width < distance,
        ((distance + width - 1) / width) * width >= distance,
{
    let n = distance + width - 1;
    let q = n / width;
    vstd::arithmetic::div_mod::lemma_fundamental_div_mod(n, width);
    vstd::arithmetic::div_mod::lemma_mod_bound(n, width);
    assert(n == width * q + n % width);
    assert(q >= 1 && q <= distance && (q - 1) * width < distance && q * width >= distance)
        by (nonlinear_arith)
        requires
            n == width * q + n % width,
            0 <= n % width < width,
            n == distance + width - 1,
            distance > 0,
            width > 0,
    ;
}

impl From<Range<isize>> for Slice {
    fn from(v: Range<isize>) -> (s: Self) {
        Slice { start: Bound::Included(v.start), end: Bound::Excluded(v.end), step: 1 }
    }
}

impl FromSpecImpl<Range<isize>> for Slice {
    open spec fn obeys_from_spec() -> bool {
        true
    }

    open spec fn from_spec(v: Range<isize>) -> Self {
        Slice::with_parts(Bound::Included(v.start), Bound::Excluded(v.end), 1)
    }
}

} // verus!
