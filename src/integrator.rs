//! The decisions of the path tracer at each bounce. The colour arithmetic around them
//! belongs to the caller; these rules say which colour a sample ends with, and when it
//! goes on.
use vstd::prelude::*;

verus! {

/// What a path sample does next.
#[derive(Clone, Copy, Debug, PartialEq, Eq, Structural)]
pub enum PathStep {
    /// It ends black: the bounce budget is spent, or the surface absorbed the ray.
    Black,
    /// It ends with the sky's colour: nothing was hit, or the hit lies beyond the scene's
    /// far distance.
    Sky,
    /// The hit surface's material scatters the ray (or absorbs it).
    Scatter,
    /// It traces the scattered ray with `depth` bounces left, and blends the result with
    /// the surface's own colour by the material's emittance.
    Bounce { depth: u8 },
}

/// The step after the nearest-hit search, with `depth` bounces left: black when none is
/// left (a hard cut-off), the sky on a miss, a scatter event on a hit.
pub fn after_hit_test(depth: u8, hit: bool) -> (r: PathStep)
    ensures
        depth == 0 ==> r == PathStep::Black,
        depth > 0 && !hit ==> r == PathStep::Sky,
        depth > 0 && hit ==> r == PathStep::Scatter,
{
    if depth == 0 {
        PathStep::Black
    } else if !hit {
        PathStep::Sky
    } else {
        PathStep::Scatter
    }
}

/// The step after the material's scatter event, with `depth` (at least one) bounces left:
/// black when the ray was absorbed, the sky when the hit lies beyond the far distance,
/// else a bounce with one bounce fewer.
pub fn after_scatter(depth: u8, scattered: bool, beyond_max_t: bool) -> (r: PathStep)
    requires
        depth > 0,
    ensures
        !scattered ==> r == PathStep::Black,
        scattered && beyond_max_t ==> r == PathStep::Sky,
        scattered && !beyond_max_t ==> r == (PathStep::Bounce { depth: (depth - 1) as u8 }),
{
    if !scattered {
        PathStep::Black
    } else if beyond_max_t {
        PathStep::Sky
    } else {
        PathStep::Bounce { depth: depth - 1 }
    }
}

} // verus!
