//! The decisions of the path-tracing integrator, apart from its
//! floating-point color arithmetic.
use vstd::prelude::*;

verus! {

/// What the integrator does with a ray.
#[derive(Clone, Copy, Debug, PartialEq, Eq, Structural)]
pub enum Step {
    /// The recursion depth is used up: the ray carries no light.
    Black,
    /// The ray leaves the scene: it carries the background color.
    Background,
    /// The surface does not scatter: the ray carries its emission alone.
    Emit,
    /// Emission plus attenuated light along the one reflected or refracted ray.
    Specular,
    /// Emission plus attenuated light along a direction drawn from the
    /// mixture density, weighted by the material's density over the mixture's.
    Diffuse,
}

pub open spec fn step_spec(depth: i64, hit: bool, scatter: Option<bool>) -> Step {
    if depth <= 0 {
        Step::Black
    } else if !hit {
        Step::Background
    } else {
        match scatter {
            None => Step::Emit,
            Some(specular) => if specular {
                Step::Specular
            } else {
                Step::Diffuse
            },
        }
    }
}

/// The step for a ray with `depth` bounces left, given whether it hit the
/// scene and, if the surface scatters, whether it scatters specularly.
pub fn next_step(depth: i64, hit: bool, scatter: Option<bool>) -> (s: Step)
    ensures
        s == step_spec(depth, hit, scatter),
{
    if depth <= 0 {
        Step::Black
    } else if !hit {
        Step::Background
    } else {
        match scatter {
            None => Step::Emit,
            Some(specular) => if specular {
                Step::Specular
            } else {
                Step::Diffuse
            },
        }
    }
}

} // verus!
