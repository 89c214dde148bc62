//! How long a light path may grow: the rules that the radiance estimator
//! follows after each surface hit.
use vstd::prelude::*;

verus! {

/// From this depth on, Russian roulette decides whether a path goes on.
pub const ROULETTE_DEPTH: u32 = 5;

/// A path never bounces at this depth or beyond.
pub const MAX_BOUNCES: u32 = 100;

/// What a path does after a surface hit.
#[derive(Clone, Copy, Debug, PartialEq, Eq, Structural)]
pub enum PathStep {
    /// The path ends with what the surface emits.
    Stop,
    /// The path bounces: the scattered ray is traced at the next depth.
    Bounce,
}

/// Whether a path at `depth` plays Russian roulette before it bounces.
pub fn roulette_applies(depth: u32) -> (r: bool)
    ensures
        r == (depth > ROULETTE_DEPTH),
{
    depth > ROULETTE_DEPTH
}

/// The step after a hit at `depth`: the path bounces when the material
/// scattered the ray, when it either plays no roulette at this depth or
/// survived it, and when it is below the bounce limit.
pub fn next_step(depth: u32, scattered: bool, survived_roulette: bool) -> (r: PathStep)
    ensures
        r == PathStep::Bounce <==> scattered && (depth <= ROULETTE_DEPTH || survived_roulette)
            && depth < MAX_BOUNCES,
        r == PathStep::Bounce ==> depth + 1 <= MAX_BOUNCES,
{
    if !scattered {
        PathStep::Stop
    } else if roulette_applies(depth) && !survived_roulette {
        PathStep::Stop
    } else if depth < MAX_BOUNCES {
        PathStep::Bounce
    } else {
        PathStep::Stop
    }
}

} // verus!
