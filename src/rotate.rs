use vstd::prelude::*;

verus! {

/// A coordinate axis to rotate about.
#[derive(Clone, Copy, Debug, PartialEq, Eq, Structural)]
pub enum Axis {
    X,
    Y,
    Z,
}

/// The index of the rotation axis, then the indices of the two coordinates it turns, in
/// the order `(r, a, b)` that makes the turn from `a` towards `b` positive.
pub open spec fn axis_indices(axis: Axis) -> (usize, usize, usize) {
    match axis {
        Axis::X => (0, 1, 2),
        Axis::Y => (1, 2, 0),
        Axis::Z => (2, 0, 1),
    }
}

/// The coordinate indices `(r, a, b)` of a rotation about `axis`.
pub fn get_axis(axis: &Axis) -> (r: (usize, usize, usize))
    ensures
        r == axis_indices(*axis),
        r.0 < 3 && r.1 < 3 && r.2 < 3,
        r.0 != r.1 && r.1 != r.2 && r.0 != r.2,
{
    match axis {
        Axis::X => (0, 1, 2),
        Axis::Y => (1, 2, 0),
        Axis::Z => (2, 0, 1),
    }
}

} // verus!
