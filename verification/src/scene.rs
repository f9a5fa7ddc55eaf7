//! A scene: the things that rays are cast at.

use crate::hittable::{Hit, Hittable};
use vstd::prelude::*;

verus! {

/// One object of a scene, by its kind.
pub enum SceneObject<Sp> {
    Sphere(Sp),
}

/// The objects of a scene. Their order is of no account: the nearest one is hit.
pub struct Scene<O> {
    pub contents: Vec<O>,
}

impl<Sp: Clone> Clone for SceneObject<Sp> {
    fn clone(&self) -> (copy: Self)
        ensures
            match (*self, copy) {
                (SceneObject::Sphere(sphere), SceneObject::Sphere(its_clone)) => cloned(
                    sphere,
                    its_clone,
                ),
            },
    {
        match self {
            SceneObject::Sphere(sphere) => SceneObject::Sphere(sphere.clone()),
        }
    }
}

impl<O: Clone> Clone for Scene<O> {
    /// A scene of as many objects, each the clone of the one in its place.
    fn clone(&self) -> (copy: Self)
        ensures
            copy.contents@.len() == self.contents@.len(),
            forall|i: int|
                0 <= i < self.contents@.len() ==> cloned(
                    #[trigger] self.contents@[i],
                    copy.contents@[i],
                ),
    {
        Scene { contents: self.contents.clone() }
    }
}

impl<Sp: Hittable> Hittable for SceneObject<Sp> {
    type Ray = Sp::Ray;

    type Vector = Sp::Vector;

    type Scalar = Sp::Scalar;

    open spec fn no_farther(near: Sp::Scalar, far: Sp::Scalar) -> bool {
        Sp::no_farther(near, far)
    }

    open spec fn nearest(&self, ray: Sp::Ray, t_min: Sp::Scalar, t_max: Sp::Scalar) -> Option<
        Hit<Sp::Vector, Sp::Scalar>,
    > {
        match *self {
            SceneObject::Sphere(sphere) => sphere.nearest(ray, t_min, t_max),
        }
    }

    fn hit(&self, ray: &Sp::Ray, t_min: Sp::Scalar, t_max: Sp::Scalar) -> (found: Option<
        Hit<Sp::Vector, Sp::Scalar>,
    >) {
        match self {
            SceneObject::Sphere(sphere) => sphere.hit(ray, t_min, t_max),
        }
    }

    proof fn lemma_distances_ordered(a: Sp::Scalar, b: Sp::Scalar, c: Sp::Scalar) {
        Sp::lemma_distances_ordered(a, b, c);
    }

    proof fn lemma_hit_in_range(&self, ray: Sp::Ray, t_min: Sp::Scalar, t_max: Sp::Scalar) {
        match *self {
            SceneObject::Sphere(sphere) => sphere.lemma_hit_in_range(ray, t_min, t_max),
        }
    }

    proof fn lemma_tighter_bound(
        &self,
        ray: Sp::Ray,
        t_min: Sp::Scalar,
        t_max: Sp::Scalar,
        bound: Sp::Scalar,
    ) {
        match *self {
            SceneObject::Sphere(sphere) => sphere.lemma_tighter_bound(ray, t_min, t_max, bound),
        }
    }
}

/// One pass over `objects` in their order: the range shrinks to each hit that is
/// found, so that a later object is hit only where it is no farther. The result
/// is the end of the range that is left, and the hit that was found last.
pub open spec fn sweep<O: Hittable>(
    objects: Seq<O>,
    ray: O::Ray,
    t_min: O::Scalar,
    t_max: O::Scalar,
) -> (O::Scalar, Option<Hit<O::Vector, O::Scalar>>)
    decreases objects.len(),
{
    if objects.len() == 0 {
        (t_max, None)
    } else {
        let earlier = sweep(objects.drop_last(), ray, t_min, t_max);
        match objects.last().nearest(ray, t_min, earlier.0) {
            Some(hit) => (hit.t, Some(hit)),
            None => earlier,
        }
    }
}

/// What `object` alone is hit at.
pub open spec fn alone<O: Hittable>(object: O, ray: O::Ray, t_min: O::Scalar, t_max: O::Scalar)
    -> Option<Hit<O::Vector, O::Scalar>> {
    object.nearest(ray, t_min, t_max)
}

/// A pass over `objects` finds nothing exactly if the ray misses each of them.
/// What it finds is the hit of one of them, taken alone, and no object is hit
/// any nearer.
pub proof fn lemma_sweep_finds_nearest<O: Hittable>(
    objects: Seq<O>,
    ray: O::Ray,
    t_min: O::Scalar,
    t_max: O::Scalar,
)
    ensures
        match sweep(objects, ray, t_min, t_max).1 {
            None => {
                &&& sweep(objects, ray, t_min, t_max).0 == t_max
                &&& forall|j: int|
                    0 <= j < objects.len() ==> #[trigger] alone(objects[j], ray, t_min, t_max)
                        is None
            },
            Some(hit) => {
                &&& sweep(objects, ray, t_min, t_max).0 == hit.t
                &&& O::no_farther(t_min, hit.t)
                &&& O::no_farther(hit.t, t_max)
                &&& exists|i: int|
                    0 <= i < objects.len() && #[trigger] alone(objects[i], ray, t_min, t_max)
                        == Some(hit)
                &&& forall|j: int|
                    0 <= j < objects.len() ==> (#[trigger] alone(objects[j], ray, t_min, t_max)
                        matches Some(other) ==> O::no_farther(hit.t, other.t))
            },
        },
    decreases objects.len(),
{
    if objects.len() > 0 {
        let front = objects.drop_last();
        let last = objects.last();
        let earlier = sweep(front, ray, t_min, t_max);
        lemma_sweep_finds_nearest(front, ray, t_min, t_max);
        last.lemma_hit_in_range(ray, t_min, t_max);
        assert forall|j: int| 0 <= j < front.len() implies front[j] == objects[j] by {}
        match earlier.1 {
            None => {
                match alone(last, ray, t_min, t_max) {
                    None => {},
                    Some(found) => {
                        O::lemma_distances_ordered(t_min, found.t, t_max);
                        assert(alone(objects[objects.len() - 1], ray, t_min, t_max) == Some(
                            found,
                        ));
                    },
                }
            },
            Some(best) => {
                last.lemma_tighter_bound(ray, t_min, t_max, best.t);
                O::lemma_distances_ordered(t_min, best.t, t_max);
                let witness = choose|i: int|
                    0 <= i < front.len() && #[trigger] alone(front[i], ray, t_min, t_max) == Some(
                        best,
                    );
                assert(alone(objects[witness], ray, t_min, t_max) == Some(best));
                match alone(last, ray, t_min, t_max) {
                    None => {},
                    Some(found) => {
                        O::lemma_distances_ordered(t_min, found.t, t_max);
                        O::lemma_distances_ordered(found.t, best.t, t_max);
                        if O::no_farther(found.t, best.t) {
                            assert(alone(objects[objects.len() - 1], ray, t_min, t_max) == Some(
                                found,
                            ));
                            assert forall|j: int| 0 <= j < objects.len() implies (#[trigger] alone(
                                objects[j],
                                ray,
                                t_min,
                                t_max,
                            ) matches Some(other) ==> O::no_farther(found.t, other.t)) by {
                                if j < front.len() {
                                    match alone(front[j], ray, t_min, t_max) {
                                        Some(other) => {
                                            O::lemma_distances_ordered(found.t, best.t, other.t);
                                        },
                                        None => {},
                                    }
                                }
                            }
                        }
                    },
                }
            },
        }
    }
}

/// Each object of `left` is among `right`.
pub open spec fn all_among<O>(left: Seq<O>, right: Seq<O>) -> bool {
    forall|i: int| 0 <= i < left.len() ==> exists|j: int| 0 <= j < right.len() && right[j] == #[trigger] left[i]
}

/// The order of the objects is of no account: two lists of the same objects are
/// hit or missed together, and hit at the same distance.
pub proof fn lemma_sweep_in_any_order<O: Hittable>(
    left: Seq<O>,
    right: Seq<O>,
    ray: O::Ray,
    t_min: O::Scalar,
    t_max: O::Scalar,
)
    requires
        all_among(left, right),
        all_among(right, left),
    ensures
        match (sweep(left, ray, t_min, t_max).1, sweep(right, ray, t_min, t_max).1) {
            (None, None) => true,
            (Some(one), Some(other)) => O::no_farther(one.t, other.t) && O::no_farther(
                other.t,
                one.t,
            ),
            _ => false,
        },
{
    lemma_sweep_finds_nearest(left, ray, t_min, t_max);
    lemma_sweep_finds_nearest(right, ray, t_min, t_max);
    match sweep(left, ray, t_min, t_max).1 {
        Some(one) => {
            let at = choose|i: int|
                0 <= i < left.len() && #[trigger] alone(left[i], ray, t_min, t_max) == Some(one);
            let twin = choose|j: int| 0 <= j < right.len() && right[j] == left[at];
            assert(alone(right[twin], ray, t_min, t_max) == Some(one));
        },
        None => {},
    }
    match sweep(right, ray, t_min, t_max).1 {
        Some(other) => {
            let at = choose|i: int|
                0 <= i < right.len() && #[trigger] alone(right[i], ray, t_min, t_max) == Some(
                    other,
                );
            let twin = choose|j: int| 0 <= j < left.len() && left[j] == right[at];
            assert(alone(left[twin], ray, t_min, t_max) == Some(other));
        },
        None => {},
    }
}

/// A pass within a shorter range finds the same hit where it still lies within
/// the range, and nothing where it does not.
pub proof fn lemma_sweep_tighter_bound<O: Hittable>(
    objects: Seq<O>,
    ray: O::Ray,
    t_min: O::Scalar,
    t_max: O::Scalar,
    bound: O::Scalar,
)
    requires
        O::no_farther(bound, t_max),
    ensures
        sweep(objects, ray, t_min, bound) == match sweep(objects, ray, t_min, t_max).1 {
            Some(hit) => if O::no_farther(hit.t, bound) {
                (hit.t, Some(hit))
            } else {
                (bound, None)
            },
            None => (bound, None),
        },
    decreases objects.len(),
{
    if objects.len() > 0 {
        let front = objects.drop_last();
        let last = objects.last();
        let wide = sweep(front, ray, t_min, t_max);
        let tight = sweep(front, ray, t_min, bound);
        lemma_sweep_tighter_bound(front, ray, t_min, t_max, bound);
        lemma_sweep_finds_nearest(front, ray, t_min, t_max);
        last.lemma_hit_in_range(ray, t_min, t_max);
        last.lemma_tighter_bound(ray, t_min, t_max, bound);
        O::lemma_distances_ordered(bound, t_max, t_max);
        match wide.1 {
            None => {},
            Some(best) => {
                last.lemma_tighter_bound(ray, t_min, t_max, best.t);
                O::lemma_distances_ordered(t_min, best.t, bound);
                O::lemma_distances_ordered(best.t, bound, t_max);
                O::lemma_distances_ordered(bound, best.t, t_max);
            },
        }
        match alone(last, ray, t_min, t_max) {
            None => {},
            Some(found) => {
                O::lemma_distances_ordered(t_min, found.t, bound);
                match wide.1 {
                    None => {},
                    Some(best) => {
                        O::lemma_distances_ordered(found.t, best.t, bound);
                        O::lemma_distances_ordered(found.t, bound, best.t);
                    },
                }
            },
        }
    }
}

impl<O: Hittable> Scene<O> {
    /// A scene is missed exactly if each of its objects is. Where it is hit, the
    /// hit is that of one of its objects, and none of its objects is hit nearer.
    pub proof fn lemma_hit_is_nearest(
        self,
        ray: O::Ray,
        t_min: O::Scalar,
        t_max: O::Scalar,
        object: int,
    )
        requires
            0 <= object < self.contents@.len(),
        ensures
            match self.nearest(ray, t_min, t_max) {
                None => self.contents@[object].nearest(ray, t_min, t_max) is None,
                Some(hit) => {
                    &&& exists|i: int|
                        0 <= i < self.contents@.len() && #[trigger] alone(
                            self.contents@[i],
                            ray,
                            t_min,
                            t_max,
                        ) == Some(hit)
                    &&& self.contents@[object].nearest(ray, t_min, t_max) matches Some(other)
                        ==> O::no_farther(hit.t, other.t)
                },
            },
    {
        lemma_sweep_finds_nearest(self.contents@, ray, t_min, t_max);
        assert(alone(self.contents@[object], ray, t_min, t_max) == self.contents@[object].nearest(
            ray,
            t_min,
            t_max,
        ));
    }
}

impl<O: Hittable> Hittable for Scene<O> {
    type Ray = O::Ray;

    type Vector = O::Vector;

    type Scalar = O::Scalar;

    open spec fn no_farther(near: O::Scalar, far: O::Scalar) -> bool {
        O::no_farther(near, far)
    }

    open spec fn nearest(&self, ray: O::Ray, t_min: O::Scalar, t_max: O::Scalar) -> Option<
        Hit<O::Vector, O::Scalar>,
    > {
        sweep(self.contents@, ray, t_min, t_max).1
    }

    /// The nearest hit among the objects of the scene; of two that are equally
    /// near, the later one.
    fn hit(&self, ray: &O::Ray, t_min: O::Scalar, t_max: O::Scalar) -> (found: Option<
        Hit<O::Vector, O::Scalar>,
    >) {
        let mut closest_so_far = t_max;
        let mut closest_hit: Option<Hit<O::Vector, O::Scalar>> = None;
        let mut next: usize = 0;
        while next < self.contents.len()
            invariant
                next <= self.contents@.len(),
                (closest_so_far, closest_hit) == sweep(
                    self.contents@.take(next as int),
                    *ray,
                    t_min,
                    t_max,
                ),
            decreases self.contents@.len() - next,
        {
            proof {
                let seen = self.contents@.take(next as int + 1);
                assert(seen.drop_last() =~= self.contents@.take(next as int));
                assert(seen.last() == self.contents@[next as int]);
            }
            if let Some(hit) = self.contents[next].hit(ray, t_min, closest_so_far) {
                closest_so_far = hit.t;
                closest_hit = Some(hit);
            }
            next = next + 1;
        }
        proof {
            assert(self.contents@.take(next as int) =~= self.contents@);
        }
        closest_hit
    }

    proof fn lemma_distances_ordered(a: O::Scalar, b: O::Scalar, c: O::Scalar) {
        O::lemma_distances_ordered(a, b, c);
    }

    proof fn lemma_hit_in_range(&self, ray: O::Ray, t_min: O::Scalar, t_max: O::Scalar) {
        lemma_sweep_finds_nearest(self.contents@, ray, t_min, t_max);
    }

    proof fn lemma_tighter_bound(
        &self,
        ray: O::Ray,
        t_min: O::Scalar,
        t_max: O::Scalar,
        bound: O::Scalar,
    ) {
        lemma_sweep_tighter_bound(self.contents@, ray, t_min, t_max, bound);
    }
}

} // verus!
