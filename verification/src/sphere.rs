//! Which of the places where a ray meets a sphere counts as the hit.
//!
//! The line of a ray meets a sphere in two places, in one, or in none. Where it
//! meets it, the nearer place is the hit if it lies within the range of distances
//! that was asked for. The farther place is the hit only if the nearer one lies
//! outside the range, as it does for a ray that starts inside the sphere.

use vstd::prelude::*;

verus! {

/// One of the two places where a line meets a sphere. Where the line touches the
/// sphere in one place only, the two are the same place.
#[derive(Copy, Clone, PartialEq, Eq, Debug, Structural)]
pub enum Root {
    Near,
    Far,
}

/// The place that counts as the hit, if any does: `meets` says whether the line
/// meets the sphere at all, and the other two whether each place lies within the
/// range.
pub open spec fn chosen_root(meets: bool, near_in_range: bool, far_in_range: bool) -> Option<
    Root,
> {
    if !meets {
        None
    } else if near_in_range {
        Some(Root::Near)
    } else if far_in_range {
        Some(Root::Far)
    } else {
        None
    }
}

/// The nearer place is the hit whenever it can be, and the farther one exactly
/// when the nearer one lies outside the range and the farther one within it.
pub proof fn lemma_nearer_root_first(meets: bool, near_in_range: bool, far_in_range: bool)
    ensures
        chosen_root(meets, near_in_range, far_in_range) == Some(Root::Near) <==> meets
            && near_in_range,
        chosen_root(meets, near_in_range, far_in_range) == Some(Root::Far) <==> meets
            && !near_in_range && far_in_range,
        chosen_root(meets, near_in_range, far_in_range) is None <==> !meets || (!near_in_range
            && !far_in_range),
{
}

/// A line that touches a sphere in one place has one hit there or none: with
/// both places the same, the farther one is never chosen.
pub proof fn lemma_touching_line_hits_once(in_range: bool)
    ensures
        chosen_root(true, in_range, in_range) == if in_range {
            Some(Root::Near)
        } else {
            None
        },
{
}

/// Chooses the place that counts as the hit.
pub fn choose_root(meets: bool, near_in_range: bool, far_in_range: bool) -> (root: Option<Root>)
    ensures
        root == chosen_root(meets, near_in_range, far_in_range),
{
    if !meets {
        None
    } else if near_in_range {
        Some(Root::Near)
    } else if far_in_range {
        Some(Root::Far)
    } else {
        None
    }
}

} // verus!
