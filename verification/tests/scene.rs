use raytracer::shading::deeper;
use raytracer::sphere::{choose_root, Root};
use raytracer::{
    FramePass, Hit, Hittable, RenderParams, RenderThread, RenderThreadCommand, Resolution, Rgb,
    Scene, SceneObject,
};

#[derive(Clone, Copy, Debug, PartialEq)]
struct V3 {
    x: f64,
    y: f64,
    z: f64,
}

fn v3(x: f64, y: f64, z: f64) -> V3 {
    V3 { x, y, z }
}

fn dot(a: V3, b: V3) -> f64 {
    a.x * b.x + a.y * b.y + a.z * b.z
}

fn sub(a: V3, b: V3) -> V3 {
    v3(a.x - b.x, a.y - b.y, a.z - b.z)
}

struct Ray {
    origin: V3,
    direction: V3,
}

#[derive(Clone)]
struct Sphere {
    center: V3,
    radius: f64,
    color: V3,
}

impl Hittable for Sphere {
    type Ray = Ray;
    type Vector = V3;
    type Scalar = f64;

    fn no_farther(near: f64, far: f64) -> bool {
        near <= far
    }

    fn nearest(&self, ray: Ray, t_min: f64, t_max: f64) -> Option<Hit<V3, f64>> {
        self.hit(&ray, t_min, t_max)
    }

    fn lemma_distances_ordered(_a: f64, _b: f64, _c: f64) {}

    fn lemma_hit_in_range(&self, _ray: Ray, _t_min: f64, _t_max: f64) {}

    fn lemma_tighter_bound(&self, _ray: Ray, _t_min: f64, _t_max: f64, _bound: f64) {}

    fn hit(&self, ray: &Ray, t_min: f64, t_max: f64) -> Option<Hit<V3, f64>> {
        let oc = sub(ray.origin, self.center);
        let a = dot(ray.direction, ray.direction);
        let half_b = dot(oc, ray.direction);
        let c = dot(oc, oc) - self.radius * self.radius;
        let discriminant = half_b * half_b - a * c;
        let sqrtd = discriminant.sqrt();
        let near = (-half_b - sqrtd) / a;
        let far = (-half_b + sqrtd) / a;
        let within = |root: f64| t_min <= root && root <= t_max;
        let root = match choose_root(discriminant >= 0.0, within(near), within(far))? {
            Root::Near => near,
            Root::Far => far,
        };
        let point = v3(
            ray.origin.x + ray.direction.x * root,
            ray.origin.y + ray.direction.y * root,
            ray.origin.z + ray.direction.z * root,
        );
        let outward = v3(
            (point.x - self.center.x) / self.radius,
            (point.y - self.center.y) / self.radius,
            (point.z - self.center.z) / self.radius,
        );
        let front_face = dot(ray.direction, outward) < 0.0;
        let normal = if front_face {
            outward
        } else {
            v3(-outward.x, -outward.y, -outward.z)
        };
        Some(Hit { point, normal, t: root, front_face, surface_color: self.color })
    }
}

fn sphere(z: f64, radius: f64, tint: f64) -> Sphere {
    Sphere { center: v3(0.0, 0.0, z), radius, color: v3(tint, tint, tint) }
}

fn forward() -> Ray {
    Ray { origin: v3(0.0, 0.0, 0.0), direction: v3(0.0, 0.0, -1.0) }
}

#[test]
fn empty_scene_is_missed() {
    let scene: Scene<Sphere> = Scene { contents: Vec::new() };
    assert!(scene.hit(&forward(), 0.001, f64::INFINITY).is_none());
}

#[test]
fn scene_hit_is_the_nearest_in_either_order() {
    let near_first = Scene { contents: vec![sphere(-2.0, 0.5, 0.1), sphere(-5.0, 0.5, 0.9)] };
    let far_first = Scene { contents: vec![sphere(-5.0, 0.5, 0.9), sphere(-2.0, 0.5, 0.1)] };
    let a = near_first.hit(&forward(), 0.001, f64::INFINITY).unwrap();
    let b = far_first.hit(&forward(), 0.001, f64::INFINITY).unwrap();
    assert_eq!(a.t, 1.5);
    assert_eq!(b.t, 1.5);
    assert_eq!(a.surface_color, v3(0.1, 0.1, 0.1));
    assert_eq!(b.surface_color, v3(0.1, 0.1, 0.1));
    assert!(a.front_face);
    assert_eq!(a.normal, v3(0.0, 0.0, 1.0));
    assert_eq!(a.point, v3(0.0, 0.0, -1.5));
}

#[test]
fn scene_hit_is_no_farther_than_any_of_its_spheres() {
    let depths = [-9.0, -3.0, -6.0, -2.5, -12.0, -4.0];
    let spheres: Vec<Sphere> = depths.iter().map(|z| sphere(*z, 0.25, -*z / 20.0)).collect();
    let scene = Scene { contents: spheres.clone() };
    let found = scene.hit(&forward(), 0.001, f64::INFINITY).unwrap();
    for one in &spheres {
        let alone = one.hit(&forward(), 0.001, f64::INFINITY).unwrap();
        assert!(found.t <= alone.t);
    }
    assert_eq!(found.t, 2.25);
    assert_eq!(found.surface_color, v3(0.125, 0.125, 0.125));
}

#[test]
fn scene_hit_respects_the_range() {
    let scene = Scene { contents: vec![sphere(-2.0, 0.5, 0.1), sphere(-5.0, 0.5, 0.9)] };
    assert!(scene.hit(&forward(), 0.001, 1.0).is_none());
    assert!(scene.hit(&forward(), 6.0, f64::INFINITY).is_none());
    let far_side = scene.hit(&forward(), 2.0, f64::INFINITY).unwrap();
    assert_eq!(far_side.t, 2.5);
    assert!(!far_side.front_face);
    let second = scene.hit(&forward(), 3.0, f64::INFINITY).unwrap();
    assert_eq!(second.t, 4.5);
    assert_eq!(second.surface_color, v3(0.9, 0.9, 0.9));
    let exact = scene.hit(&forward(), 1.5, 1.5).unwrap();
    assert_eq!(exact.t, 1.5);
}

#[test]
fn scene_hit_from_inside_a_sphere_is_its_far_side() {
    let scene = Scene { contents: vec![sphere(0.0, 2.0, 0.5)] };
    let found = scene.hit(&forward(), 0.001, f64::INFINITY).unwrap();
    assert_eq!(found.t, 2.0);
    assert!(!found.front_face);
    assert_eq!(found.normal, v3(0.0, 0.0, 1.0));
}

#[test]
fn of_two_equally_near_spheres_the_later_is_hit() {
    let scene = Scene { contents: vec![sphere(-2.0, 0.5, 0.1), sphere(-2.0, 0.5, 0.9)] };
    let found = scene.hit(&forward(), 0.001, f64::INFINITY).unwrap();
    assert_eq!(found.t, 1.5);
    assert_eq!(found.surface_color, v3(0.9, 0.9, 0.9));
}

#[test]
fn scene_within_a_scene_is_hit_like_its_objects() {
    let inner = Scene { contents: vec![sphere(-8.0, 1.0, 0.3), sphere(-4.0, 1.0, 0.6)] };
    let other = Scene { contents: vec![sphere(-6.0, 1.0, 0.2)] };
    let outer = Scene { contents: vec![other, inner] };
    let found = outer.hit(&forward(), 0.001, f64::INFINITY).unwrap();
    assert_eq!(found.t, 3.0);
    assert_eq!(found.surface_color, v3(0.6, 0.6, 0.6));
}

#[test]
fn scene_object_is_hit_as_what_it_holds() {
    let object = SceneObject::Sphere(sphere(-2.0, 0.5, 0.1));
    let found = object.hit(&forward(), 0.001, f64::INFINITY).unwrap();
    assert_eq!(found.t, 1.5);
    assert!(object.hit(&forward(), 0.001, 1.0).is_none());
    let scene = Scene { contents: vec![SceneObject::Sphere(sphere(-5.0, 0.5, 0.9)), object] };
    assert_eq!(scene.hit(&forward(), 0.001, f64::INFINITY).unwrap().t, 1.5);
}

#[test]
fn cloned_scene_holds_clones_of_its_objects() {
    let scene = Scene { contents: vec![SceneObject::Sphere(sphere(-2.0, 0.5, 0.1))] };
    let copy = scene.clone();
    assert_eq!(copy.contents.len(), 1);
    let SceneObject::Sphere(cloned) = &copy.contents[0];
    assert_eq!(cloned.center, v3(0.0, 0.0, -2.0));
    assert_eq!(cloned.radius, 0.5);
    assert_eq!(copy.hit(&forward(), 0.001, f64::INFINITY).unwrap().t, 1.5);
}

// What follows drives the library as a renderer does: a camera that looks down the
// negative z axis, a sky that goes from white to blue, and surfaces that hand half
// of the light on.

fn camera_ray(width: usize, height: usize, focal_length: f64, x: usize, y: usize) -> Ray {
    let viewport_height = 2.0;
    let viewport_width = width as f64 / height as f64 * viewport_height;
    let scale = viewport_width / width as f64;
    let direction = v3(
        -viewport_width / 2.0 + x as f64 * scale,
        -viewport_height / 2.0 + y as f64 * scale,
        -focal_length,
    );
    Ray { origin: v3(0.0, 0.0, 0.0), direction }
}

fn sky(ray: &Ray) -> V3 {
    let length = dot(ray.direction, ray.direction).sqrt();
    let t = 0.5 * (ray.direction.y / length + 1.0);
    v3(t + 0.5 * (1.0 - t), t + 0.7 * (1.0 - t), t + 1.0 * (1.0 - t))
}

fn ray_color(ray: &Ray, scene: &Scene<Sphere>, t_min: f64, depth: u32) -> V3 {
    let Some(next) = deeper(depth) else {
        return v3(0.0, 0.0, 0.0);
    };
    match scene.hit(ray, t_min, f64::INFINITY) {
        Some(found) => {
            let bounce = Ray { origin: found.point, direction: found.normal };
            let light = ray_color(&bounce, scene, t_min, next);
            v3(
                0.5 * found.surface_color.x * light.x,
                0.5 * found.surface_color.y * light.y,
                0.5 * found.surface_color.z * light.z,
            )
        }
        None => sky(ray),
    }
}

fn quantize(colour: V3, samples: u16) -> Rgb {
    let channel = |sum: f64| ((sum / samples as f64).sqrt().clamp(0.0, 1.0) * 255.999 + 0.5).floor() as u8;
    Rgb::new(channel(colour.x), channel(colour.y), channel(colour.z))
}

fn render(scene: Scene<Sphere>, samples: u16, width: i32, height: i32) -> raytracer::Frame {
    let params = RenderParams::new(1.0, samples, Resolution::new(width, height)).ok().unwrap();
    let mut worker = RenderThread::new(params);
    assert!(worker.handle(RenderThreadCommand::UpdateScene(scene)).is_none());
    let mut pass: FramePass = worker.handle(RenderThreadCommand::RequestFrame).unwrap();
    let scene = worker.scene.as_ref().unwrap();
    let lens = *worker.params.lens();
    while let Some((x, y)) = pass.next_pixel() {
        let mut sum = v3(0.0, 0.0, 0.0);
        for _ in 0..pass.samples_per_pixel() {
            let ray = camera_ray(pass.width(), pass.height(), lens, x, y);
            let light = ray_color(&ray, scene, 0.001, 0);
            sum = v3(sum.x + light.x, sum.y + light.y, sum.z + light.z);
        }
        pass.put(quantize(sum, pass.samples_per_pixel()));
    }
    pass.finish().ok().unwrap()
}

#[test]
fn single_sphere_is_seen_in_the_middle_and_missed_in_the_corner() {
    let scene = Scene { contents: vec![Sphere {
        center: v3(0.0, 0.0, -1.0),
        radius: 0.5,
        color: v3(1.0, 1.0, 1.0),
    }] };
    let frame = render(scene, 1, 2, 2);
    let corner = camera_ray(2, 2, 1.0, 0, 0);
    let middle = camera_ray(2, 2, 1.0, 1, 1);
    assert_eq!(middle.direction, v3(0.0, 0.0, -1.0));
    assert_eq!(frame.get(0, 0), Some(quantize(sky(&corner), 1)));
    assert_ne!(frame.get(1, 1), Some(quantize(sky(&middle), 1)));
    // The ray to the middle hits the sphere head-on and bounces straight back
    // into the sky behind the camera, which hands on half of its light.
    let back = Ray { origin: v3(0.0, 0.0, -0.5), direction: v3(0.0, 0.0, 1.0) };
    let half = sky(&back);
    let expected = quantize(v3(0.5 * half.x, 0.5 * half.y, 0.5 * half.z), 1);
    assert_eq!(frame.get(1, 1), Some(expected));
    assert_eq!(expected, Rgb::new(157, 167, 181));
    assert_eq!(frame.pixels()[1], expected);
}

#[test]
fn empty_scene_shows_the_sky_in_every_pixel() {
    let frame = render(Scene { contents: Vec::new() }, 1, 2, 2);
    for y in 0..2usize {
        for x in 0..2usize {
            let ray = camera_ray(2, 2, 1.0, x, y);
            assert_eq!(frame.get(x, y), Some(quantize(sky(&ray), 1)));
            assert_eq!(frame.pixels()[(1 - y) * 2 + x], quantize(sky(&ray), 1));
        }
    }
}

#[test]
fn rendering_twice_gives_the_same_frame() {
    let scene = || Scene { contents: vec![sphere(-1.0, 0.5, 0.8), sphere(-3.0, 1.5, 0.4)] };
    let first = render(scene(), 3, 8, 6);
    let second = render(scene(), 3, 8, 6);
    assert_eq!(first.pixels(), second.pixels());
}

#[test]
fn path_between_mirrors_ends_in_black() {
    // Inside a sphere every ray hits the sphere again.
    let scene = Scene { contents: vec![sphere(0.0, 10.0, 1.0)] };
    let light = ray_color(&forward(), &scene, 0.001, 0);
    assert_eq!(light, v3(0.0, 0.0, 0.0));
    let frame = render(scene, 1, 2, 2);
    assert_eq!(*frame.pixels(), vec![Rgb::black(); 4]);
}

fn same_hit(a: &Option<Hit<V3, f64>>, b: &Option<Hit<V3, f64>>) -> bool {
    match (a, b) {
        (None, None) => true,
        (Some(a), Some(b)) => {
            a.t == b.t
                && a.point == b.point
                && a.normal == b.normal
                && a.front_face == b.front_face
                && a.surface_color == b.surface_color
        }
        _ => false,
    }
}

fn rays() -> Vec<Ray> {
    let mut rays = Vec::new();
    for i in -4..=4 {
        for j in -4..=4 {
            let direction = v3(i as f64 * 0.11, j as f64 * 0.07, -1.0);
            rays.push(Ray { origin: v3(0.0, 0.0, 0.0), direction });
            rays.push(Ray { origin: v3(0.0, 0.1, -2.0), direction });
        }
    }
    rays
}

#[test]
fn sphere_hits_lie_within_the_range() {
    let one = sphere(-2.0, 0.75, 0.5);
    let bounds = [0.001, 0.5, 1.25, 1.5, 2.0, 2.75, 4.0, f64::INFINITY];
    for ray in rays() {
        for t_min in bounds {
            for t_max in bounds {
                if let Some(found) = one.hit(&ray, t_min, t_max) {
                    assert!(Sphere::no_farther(t_min, found.t));
                    assert!(Sphere::no_farther(found.t, t_max));
                }
            }
        }
    }
}

#[test]
fn sphere_hit_within_a_shorter_range_is_the_same_or_none() {
    let one = sphere(-2.0, 0.75, 0.5);
    let bounds = [0.001, 0.5, 1.25, 1.5, 2.0, 2.75, 4.0, f64::INFINITY];
    for ray in rays() {
        for t_min in bounds {
            for t_max in bounds {
                let wide = one.hit(&ray, t_min, t_max);
                for bound in bounds {
                    if !Sphere::no_farther(bound, t_max) {
                        continue;
                    }
                    let tight = one.hit(&ray, t_min, bound);
                    let expected = match &wide {
                        Some(found) if Sphere::no_farther(found.t, bound) => one.hit(&ray, t_min, t_max),
                        _ => None,
                    };
                    assert!(same_hit(&tight, &expected));
                }
            }
        }
    }
}

#[test]
fn scene_hit_within_a_shorter_range_is_the_same_or_none() {
    let scene = Scene {
        contents: vec![sphere(-2.0, 0.75, 0.5), sphere(-3.0, 1.5, 0.2), sphere(-1.0, 0.25, 0.9)],
    };
    let bounds = [0.001, 0.75, 1.25, 1.5, 2.0, 2.75, 4.5, f64::INFINITY];
    for ray in rays() {
        for t_max in bounds {
            let wide = scene.hit(&ray, 0.001, t_max);
            for bound in bounds {
                if !(bound <= t_max) {
                    continue;
                }
                let tight = scene.hit(&ray, 0.001, bound);
                let expected = match &wide {
                    Some(found) if found.t <= bound => scene.hit(&ray, 0.001, t_max),
                    _ => None,
                };
                assert!(same_hit(&tight, &expected));
            }
        }
    }
}

#[test]
fn scene_hit_is_the_hit_of_one_of_its_spheres() {
    let spheres = vec![sphere(-2.0, 0.75, 0.5), sphere(-3.0, 1.5, 0.2), sphere(-1.0, 0.25, 0.9)];
    let scene = Scene { contents: spheres.clone() };
    for ray in rays() {
        let found = scene.hit(&ray, 0.001, f64::INFINITY);
        let alone: Vec<Option<Hit<V3, f64>>> =
            spheres.iter().map(|one| one.hit(&ray, 0.001, f64::INFINITY)).collect();
        match &found {
            None => assert!(alone.iter().all(|hit| hit.is_none())),
            Some(nearest) => {
                assert!(alone.iter().any(|hit| same_hit(hit, &found)));
                for hit in alone.iter().flatten() {
                    assert!(nearest.t <= hit.t);
                }
            }
        }
    }
}

#[test]
fn ray_that_grazes_a_sphere_hits_it_once() {
    let one = Sphere { center: v3(0.0, 1.0, -3.0), radius: 1.0, color: v3(1.0, 1.0, 1.0) };
    let scene = Scene { contents: vec![one] };
    let found = scene.hit(&forward(), 0.001, f64::INFINITY).unwrap();
    assert_eq!(found.t, 3.0);
    assert_eq!(found.point, v3(0.0, 0.0, -3.0));
    assert!(scene.hit(&forward(), 3.5, f64::INFINITY).is_none());
}
