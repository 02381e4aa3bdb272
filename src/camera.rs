use vstd::prelude::*;

verus! {

/// The side of the square grid of sub-cells that stratifies the samples of one pixel: the
/// ceiling of the square root of the sample count.
pub fn strata_per_axis(samples_per_pixel: u32) -> (r: u32)
    ensures
        samples_per_pixel <= r * r,
        r == 0 || (r - 1) * (r - 1) < samples_per_pixel,
{
    let mut r: u64 = 0;
    while r * r < samples_per_pixel as u64
        invariant
            r <= 65536,
            r * r <= 0x1_0000_0000,
            r == 0 || (r - 1) * (r - 1) < samples_per_pixel,
        decreases 65536 - r,
    {
        proof {
            assert(r < 65536) by (nonlinear_arith)
                requires
                    r * r < 0x1_0000_0000,
            ;
            assert((r + 1) * (r + 1) <= 0x1_0000_0000) by (nonlinear_arith)
                requires
                    r < 65536,
            ;
        }
        r = r + 1;
    }
    r as u32
}

} // verus!
