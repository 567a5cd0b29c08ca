//! The integrator's decisions for one camera ray: when to stop, and what the
//! radiance of each bounce is made of. The caller queries the scene and the
//! materials and does the colour arithmetic: the radiance of a bounce that
//! continues is its attenuation times the radiance of the next bounce.
use vstd::prelude::*;

verus! {

/// What the scene query of one bounce found.
#[derive(Clone, Copy, Debug, PartialEq, Eq, Structural)]
pub enum Surface {
    /// Nothing was hit.
    Miss,
    /// A surface was hit whose material does not scatter (a light).
    Emitter,
    /// A surface was hit whose material scattered the ray.
    Scatterer,
}

/// How a bounce ends, or that it continues.
#[derive(Clone, Copy, Debug, PartialEq, Eq, Structural)]
pub enum Bounce {
    /// No radiance: the bounce budget is spent.
    Black,
    /// The background colour, or the sky gradient when there is none.
    Background,
    /// The hit material's emission.
    Emission,
    /// The attenuation times the radiance along the scattered ray, traced
    /// with this remaining budget.
    Continue(u32),
}

/// The decision for a bounce with `depth` left, given what its query found.
pub open spec fn bounce_of(depth: nat, found: Surface) -> Bounce {
    if depth == 0 {
        Bounce::Black
    } else {
        match found {
            Surface::Miss => Bounce::Background,
            Surface::Emitter => Bounce::Emission,
            Surface::Scatterer => Bounce::Continue((depth - 1) as u32),
        }
    }
}

/// How a whole ray ends when bounce `n` finds `found(n)`: the number of
/// attenuations multiplied in, and the final term they multiply.
pub open spec fn ray_outcome(depth: nat, found: spec_fn(nat) -> Surface, n: nat) -> (nat, Bounce)
    decreases depth,
{
    if depth == 0 {
        (0, Bounce::Black)
    } else {
        match bounce_of(depth, found(n)) {
            Bounce::Continue(_) => {
                let rest = ray_outcome((depth - 1) as nat, found, n + 1);
                (rest.0 + 1, rest.1)
            },
            other => (0, other),
        }
    }
}

/// Whether a bounce with `depth` left queries the scene at all.
pub fn traces(depth: u32) -> (r: bool)
    ensures
        r == (depth > 0),
        !r ==> forall|found: Surface| bounce_of(depth as nat, found) == Bounce::Black,
{
    depth > 0
}

/// The decision for a bounce with `depth` left, given what its query found.
pub fn next_bounce(depth: u32, found: Surface) -> (b: Bounce)
    ensures
        b == bounce_of(depth as nat, found),
{
    if depth == 0 {
        Bounce::Black
    } else {
        match found {
            Surface::Miss => Bounce::Background,
            Surface::Emitter => Bounce::Emission,
            Surface::Scatterer => Bounce::Continue(depth - 1),
        }
    }
}

/// With no bounce budget a ray carries no radiance, whatever the scene.
pub proof fn lemma_no_budget_is_black(found: spec_fn(nat) -> Surface, n: nat)
    ensures
        ray_outcome(0, found, n) == (0nat, Bounce::Black),
{
}

/// A ray whose every query finds a light that does not scatter carries exactly
/// that light's emission, with no attenuation, whatever budget it has left.
pub proof fn lemma_lone_light_is_emission(depth: nat, found: spec_fn(nat) -> Surface, n: nat)
    requires
        depth > 0,
        forall|m: nat| #[trigger] found(m) == Surface::Emitter,
    ensures
        ray_outcome(depth, found, n) == (0nat, Bounce::Emission),
{
    assert(found(n) == Surface::Emitter);
}

} // verus!
