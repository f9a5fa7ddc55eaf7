//! How deep a path of rays may go.
//!
//! A ray that hits a surface sends a new ray on, one level deeper. A ray beyond
//! the deepest level is not traced: it contributes black, which ends the path.

use vstd::prelude::*;

verus! {

/// The deepest level at which a ray is still traced. The camera's rays are at
/// level 0.
pub const MAX_DEPTH: u32 = 50;

/// Whether a ray at `depth` is traced.
pub open spec fn traced(depth: u32) -> bool {
    depth <= MAX_DEPTH
}

/// The level of the ray that a surface sends on when a ray at `depth` hits it;
/// `None` where the ray at `depth` is not traced.
pub open spec fn bounce_depth(depth: u32) -> Option<u32> {
    if traced(depth) {
        Some((depth + 1) as u32)
    } else {
        None
    }
}

/// Each ray but the first is the bounce of the one before it.
pub open spec fn is_path(depths: Seq<u32>) -> bool {
    forall|i: int| 0 <= i < depths.len() - 1 ==> bounce_depth(#[trigger] depths[i]) == Some(depths[i + 1])
}

/// The rays that a path can still trace from `depth` on.
pub open spec fn rays_left(depth: u32) -> nat {
    if traced(depth) {
        (MAX_DEPTH + 1 - depth) as nat
    } else {
        0
    }
}

/// Every bounce leaves fewer rays to trace.
pub proof fn lemma_bounce_uses_a_ray(depth: u32)
    ensures
        bounce_depth(depth) matches Some(next) ==> next == depth + 1 && rays_left(next) + 1
            == rays_left(depth),
        bounce_depth(depth) is None <==> rays_left(depth) == 0,
{
}

/// A path goes one level deeper with each ray.
pub proof fn lemma_path_levels(depths: Seq<u32>, i: int)
    requires
        is_path(depths),
        0 <= i < depths.len(),
    ensures
        depths[i] == depths[0] + i,
        i > 0 ==> traced(depths[i - 1]),
    decreases i,
{
    if i > 0 {
        lemma_path_levels(depths, i - 1);
        assert(bounce_depth(depths[i - 1]) == Some(depths[i - 1 + 1]));
    }
}

/// However often the rays of a path hit a surface, a path from the camera has at
/// most 52 rays, and the last of those is not traced.
pub proof fn lemma_depth_bound(depths: Seq<u32>)
    requires
        is_path(depths),
        depths.len() > 0,
        depths[0] == 0,
    ensures
        depths.len() <= MAX_DEPTH + 2,
        depths.len() == MAX_DEPTH + 2 ==> !traced(depths.last()),
{
    if depths.len() > MAX_DEPTH + 2 {
        lemma_path_levels(depths, MAX_DEPTH as int + 2);
        lemma_path_levels(depths, MAX_DEPTH as int + 1);
    }
    lemma_path_levels(depths, depths.len() - 1);
}

/// Whether a ray at `depth` is traced.
pub fn is_traced(depth: u32) -> (yes: bool)
    ensures
        yes == traced(depth),
{
    depth <= MAX_DEPTH
}

/// The level of the ray that a surface sends on when a ray at `depth` hits it;
/// `None` where the ray at `depth` is not traced and counts as black.
pub fn deeper(depth: u32) -> (next: Option<u32>)
    ensures
        next == bounce_depth(depth),
{
    if depth <= MAX_DEPTH {
        Some(depth + 1)
    } else {
        None
    }
}

} // verus!
