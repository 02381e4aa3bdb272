use vstd::prelude::*;

verus! {

/// The coordinate plane an axis-aligned rectangle lies in.
#[derive(Clone, Copy, Debug, PartialEq, Eq, Structural)]
pub enum Plane {
    YZ,
    ZX,
    XY,
}

/// The index of the coordinate that is constant on the plane, then the indices of its two
/// in-plane coordinates, as `(k, a, b)`.
pub open spec fn plane_indices(plane: Plane) -> (usize, usize, usize) {
    match plane {
        Plane::YZ => (0, 1, 2),
        Plane::ZX => (1, 2, 0),
        Plane::XY => (2, 0, 1),
    }
}

/// The coordinate indices `(k, a, b)` of a rectangle in `plane`.
pub fn plane_axes(plane: &Plane) -> (r: (usize, usize, usize))
    ensures
        r == plane_indices(*plane),
        r.0 < 3 && r.1 < 3 && r.2 < 3,
        r.0 != r.1 && r.1 != r.2 && r.0 != r.2,
{
    match plane {
        Plane::YZ => (0, 1, 2),
        Plane::ZX => (1, 2, 0),
        Plane::XY => (2, 0, 1),
    }
}

} // verus!
