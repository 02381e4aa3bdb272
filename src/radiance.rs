use vstd::prelude::*;

verus! {

/// What a ray met in the scene, as far as the radiance estimator's next step depends on it.
#[derive(Clone, Copy, Debug, PartialEq, Eq, Structural)]
pub enum SurfaceEvent {
    /// The ray left the scene.
    Miss,
    /// The ray hit a surface whose material does not scatter (an emitter).
    Absorbed,
    /// The ray hit a surface that scatters along one ray of its own choosing (metal, glass).
    Specular,
    /// The ray hit a surface that scatters with a density (diffuse, isotropic).
    Diffuse,
}

/// The estimator's next step for one ray.
#[derive(Clone, Copy, Debug, PartialEq, Eq, Structural)]
pub enum Bounce {
    /// The depth is spent: the ray carries no light.
    Black,
    /// The ray carries the background color.
    Background,
    /// The ray carries the emission of the surface it hit, and nothing else.
    Emission,
    /// Emission plus attenuation times the light along the material's own ray, traced
    /// with `depth` bounces left.
    Specular { depth: u32 },
    /// Emission plus the mixture-sampled estimate of the scattered light, traced with
    /// `depth` bounces left.
    Mixture { depth: u32 },
}

/// The step of the recursive radiance estimator for a ray traced with `depth` bounces
/// left that met `event`. The cutoff at depth zero is hard: no path continues past it.
pub fn next_bounce(depth: u32, event: SurfaceEvent) -> (r: Bounce)
    ensures
        depth == 0 ==> r == Bounce::Black,
        depth > 0 && event == SurfaceEvent::Miss ==> r == Bounce::Background,
        depth > 0 && event == SurfaceEvent::Absorbed ==> r == Bounce::Emission,
        depth > 0 && event == SurfaceEvent::Specular ==> r == (Bounce::Specular {
            depth: (depth - 1) as u32,
        }),
        depth > 0 && event == SurfaceEvent::Diffuse ==> r == (Bounce::Mixture {
            depth: (depth - 1) as u32,
        }),
{
    if depth == 0 {
        return Bounce::Black;
    }
    match event {
        SurfaceEvent::Miss => Bounce::Background,
        SurfaceEvent::Absorbed => Bounce::Emission,
        SurfaceEvent::Specular => Bounce::Specular { depth: depth - 1 },
        SurfaceEvent::Diffuse => Bounce::Mixture { depth: depth - 1 },
    }
}

} // verus!
