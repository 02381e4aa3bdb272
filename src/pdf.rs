use vstd::prelude::*;

verus! {

/// The uniform density over all directions of the sphere, used by isotropic scattering.
/// It carries no state: its density is the same constant everywhere.
#[derive(Clone, Copy, Debug, PartialEq, Eq, Structural)]
pub struct SpherePdf;

impl SpherePdf {
    pub fn new() -> (r: SpherePdf)
        ensures
            r == SpherePdf,
    {
        SpherePdf
    }
}

} // verus!
