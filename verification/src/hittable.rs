//! What a ray can hit.
//!
//! The renderer does not ask what a surface is made of or how a ray and a surface
//! are represented. It asks one thing of anything in a scene: where, within a
//! range of distances along a ray, the ray meets it first.

use vstd::prelude::*;

verus! {

/// Where a ray met a surface.
pub struct Hit<V, T> {
    /// The point at which they met.
    pub point: V,
    /// The unit normal of the surface there, turned against the ray.
    pub normal: V,
    /// The distance along the ray, as the ray's parameter.
    pub t: T,
    /// Whether the ray came from outside the surface.
    pub front_face: bool,
    /// The colour of the surface.
    pub surface_color: V,
}

/// Something that a ray can hit.
///
/// Whoever implements this trait vouches for the three facts below, which nothing
/// checks for a type outside this crate: the renderer's reasoning about scenes
/// rests on them. On floating-point distances compared by `<=`, the first holds as
/// it stands, and the other two hold of a surface that offers its hits from the
/// nearest on and takes the first that `<=` finds within both ends of the range:
/// what is not a number is never within them.
pub trait Hittable {
    type Ray;

    type Vector;

    type Scalar: Copy;

    /// The order of distances along a ray: `near` is a distance, `far` is one, and
    /// `near` is not the greater.
    spec fn no_farther(near: Self::Scalar, far: Self::Scalar) -> bool;

    /// What `hit` finds. It depends on nothing but the arguments.
    spec fn nearest(&self, ray: Self::Ray, t_min: Self::Scalar, t_max: Self::Scalar) -> Option<
        Hit<Self::Vector, Self::Scalar>,
    >;

    /// The first place within `t_min` and `t_max` at which `ray` meets this
    /// surface, if it meets it there at all.
    fn hit(&self, ray: &Self::Ray, t_min: Self::Scalar, t_max: Self::Scalar) -> (found: Option<
        Hit<Self::Vector, Self::Scalar>,
    >)
        ensures
            found == self.nearest(*ray, t_min, t_max),
    ;

    /// Distances are ordered: what is compared is a distance, any two distances
    /// can be compared, and the order carries over a distance in between.
    proof fn lemma_distances_ordered(a: Self::Scalar, b: Self::Scalar, c: Self::Scalar)
        ensures
            Self::no_farther(a, b) ==> Self::no_farther(a, a) && Self::no_farther(b, b),
            Self::no_farther(a, a) && Self::no_farther(b, b) ==> Self::no_farther(a, b)
                || Self::no_farther(b, a),
            Self::no_farther(a, b) && Self::no_farther(b, c) ==> Self::no_farther(a, c),
    ;

    /// A hit lies within the range that was asked for.
    proof fn lemma_hit_in_range(&self, ray: Self::Ray, t_min: Self::Scalar, t_max: Self::Scalar)
        ensures
            self.nearest(ray, t_min, t_max) matches Some(hit) ==> Self::no_farther(t_min, hit.t)
                && Self::no_farther(hit.t, t_max),
    ;

    /// Asking within a shorter range finds the same hit where it still lies
    /// within the range, and nothing where it does not.
    proof fn lemma_tighter_bound(
        &self,
        ray: Self::Ray,
        t_min: Self::Scalar,
        t_max: Self::Scalar,
        bound: Self::Scalar,
    )
        requires
            Self::no_farther(bound, t_max),
        ensures
            self.nearest(ray, t_min, bound) == match self.nearest(ray, t_min, t_max) {
                Some(hit) => if Self::no_farther(hit.t, bound) {
                    Some(hit)
                } else {
                    None
                },
                None => None,
            },
    ;
}

} // verus!
