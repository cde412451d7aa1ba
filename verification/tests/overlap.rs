//! The overlap decisions, alone and under the arithmetic of the queries.

use cgmath::{EuclideanSpace, InnerSpace, MetricSpace, Point3, Vector3};
use marble_collision::geom::{
    disp_sphere_plane, disp_sphere_sphere, touching_sphere_plane, touching_sphere_sphere, Vec3,
};
use marble_collision::scalar::Scalar;

fn scalar(x: f32) -> Scalar {
    Scalar::from_bits(x.to_bits())
}

fn number(s: Scalar) -> f32 {
    f32::from_bits(s.to_bits())
}

fn bits3(v: Vector3<f32>) -> Vec3 {
    Vec3 { x: scalar(v.x), y: scalar(v.y), z: scalar(v.z) }
}

fn vector(v: Vec3) -> Vector3<f32> {
    Vector3::new(number(v.x), number(v.y), number(v.z))
}

#[derive(Clone, Copy, Debug)]
struct Sphere {
    c: Point3<f32>,
    r: f32,
}

#[derive(Clone, Copy, Debug)]
struct Plane {
    n: Vector3<f32>,
    d: f32,
}

fn spheres_touch(s1: &Sphere, s2: &Sphere) -> bool {
    touching_sphere_sphere(scalar(s2.c.distance2(s1.c)), scalar((s1.r + s2.r).powi(2)))
}

fn spheres_apart(s1: &Sphere, s2: &Sphere) -> Option<Vector3<f32>> {
    let offset: Vector3<f32> = s2.c - s1.c;
    let distance: f32 = offset.magnitude();
    let reach: f32 = s1.r + s2.r;
    disp_sphere_sphere(scalar(distance), scalar(reach)).map(|by| {
        let by: f32 = number(by);
        offset * ((reach - by) / by)
    })
}

fn plane_touches(s: &Sphere, p: &Plane) -> bool {
    touching_sphere_plane(scalar(s.c.dot(p.n) - p.d), scalar(s.r))
}

fn off_plane(s: &Sphere, p: &Plane) -> Option<Vector3<f32>> {
    let dist: f32 = s.c.dot(p.n) - p.d;
    disp_sphere_plane(scalar(dist), scalar(s.r), bits3(p.n * (s.r - dist))).map(vector)
}

fn close(a: f32, b: f32) -> bool {
    (a - b).abs() <= 1e-5 * (1.0 + a.abs().max(b.abs()))
}

#[test]
fn divisor_is_the_distance_of_overlapping_spheres() {
    assert_eq!(disp_sphere_sphere(scalar(1.5), scalar(2.0)), Some(scalar(1.5)));
    assert_eq!(disp_sphere_sphere(scalar(0.25), scalar(0.5)), Some(scalar(0.25)));
    assert_eq!(
        disp_sphere_sphere(scalar(f32::MIN_POSITIVE), scalar(1.0)),
        Some(scalar(f32::MIN_POSITIVE))
    );
}

#[test]
fn divisor_is_one_where_centres_coincide() {
    assert_eq!(disp_sphere_sphere(scalar(0.0), scalar(2.0)), Some(scalar(1.0)));
    assert_eq!(disp_sphere_sphere(scalar(-0.0), scalar(2.0)), Some(scalar(1.0)));
    assert_eq!(disp_sphere_sphere(scalar(0.0), scalar(0.5)), Some(Scalar::one()));
}

#[test]
fn no_divisor_for_spheres_apart() {
    assert_eq!(disp_sphere_sphere(scalar(2.0), scalar(2.0)), None);
    assert_eq!(disp_sphere_sphere(scalar(2.5), scalar(2.0)), None);
    assert_eq!(disp_sphere_sphere(scalar(0.0), scalar(0.0)), None);
    assert_eq!(disp_sphere_sphere(scalar(f32::INFINITY), scalar(f32::INFINITY)), None);
}

#[test]
fn no_divisor_without_numbers() {
    assert_eq!(disp_sphere_sphere(scalar(f32::NAN), scalar(2.0)), None);
    assert_eq!(disp_sphere_sphere(scalar(1.0), scalar(f32::NAN)), None);
    assert_eq!(disp_sphere_sphere(scalar(f32::NAN), scalar(f32::NAN)), None);
}

#[test]
fn spheres_touch_up_to_the_squared_reach() {
    assert!(touching_sphere_sphere(scalar(3.99), scalar(4.0)));
    assert!(touching_sphere_sphere(scalar(4.0), scalar(4.0)));
    assert!(!touching_sphere_sphere(scalar(4.01), scalar(4.0)));
    assert!(touching_sphere_sphere(scalar(0.0), scalar(0.0)));
    assert!(!touching_sphere_sphere(scalar(f32::NAN), scalar(4.0)));
    assert!(!touching_sphere_sphere(scalar(1.0), scalar(f32::NAN)));
}

#[test]
fn plane_is_touched_within_the_radius_on_either_side() {
    assert!(touching_sphere_plane(scalar(0.5), scalar(1.0)));
    assert!(touching_sphere_plane(scalar(-0.5), scalar(1.0)));
    assert!(touching_sphere_plane(scalar(1.0), scalar(1.0)));
    assert!(touching_sphere_plane(scalar(-1.0), scalar(1.0)));
    assert!(touching_sphere_plane(scalar(0.0), scalar(0.0)));
    assert!(!touching_sphere_plane(scalar(1.5), scalar(1.0)));
    assert!(!touching_sphere_plane(scalar(-1.5), scalar(1.0)));
    assert!(!touching_sphere_plane(scalar(f32::NAN), scalar(1.0)));
    assert!(!touching_sphere_plane(scalar(0.5), scalar(f32::NAN)));
    assert!(!touching_sphere_plane(scalar(0.0), scalar(-1.0)));
}

#[test]
fn plane_push_is_handed_on_exactly_when_touching() {
    let push: Vec3 = bits3(Vector3::new(0.0, 0.5, -0.0));
    assert_eq!(disp_sphere_plane(scalar(0.5), scalar(1.0), push), Some(push));
    assert_eq!(disp_sphere_plane(scalar(-1.0), scalar(1.0), push), Some(push));
    assert_eq!(disp_sphere_plane(scalar(1.25), scalar(1.0), push), None);
    assert_eq!(disp_sphere_plane(scalar(-1.25), scalar(1.0), push), None);
    assert_eq!(disp_sphere_plane(scalar(f32::NAN), scalar(1.0), push), None);
    let other: Vec3 = bits3(Vector3::new(7.0, 8.0, 9.0));
    assert_eq!(disp_sphere_plane(scalar(0.0), scalar(1.0), other), Some(other));
}

#[test]
fn overlapping_spheres_end_tangent() {
    let cases: Vec<(Sphere, Sphere)> = vec![
        (
            Sphere { c: Point3::new(0.0, 0.0, 0.0), r: 1.0 },
            Sphere { c: Point3::new(1.5, 0.0, 0.0), r: 1.0 },
        ),
        (
            Sphere { c: Point3::new(1.0, 2.0, 3.0), r: 0.75 },
            Sphere { c: Point3::new(1.5, 2.5, 2.5), r: 0.5 },
        ),
        (
            Sphere { c: Point3::new(-4.0, 0.25, 9.0), r: 3.0 },
            Sphere { c: Point3::new(-2.0, 0.0, 8.0), r: 0.125 },
        ),
    ];
    for (s1, s2) in cases {
        let reach: f32 = s1.r + s2.r;
        assert!((s2.c - s1.c).magnitude() < reach);
        assert!(spheres_touch(&s1, &s2));
        let disp: Vector3<f32> = spheres_apart(&s1, &s2).expect("the spheres overlap");
        assert!(close(disp.magnitude(), reach - (s2.c - s1.c).magnitude()));
        let moved: Point3<f32> = s1.c - disp;
        assert!(close((s2.c - moved).magnitude(), reach));
    }
}

#[test]
fn first_overlap_vector_is_exact() {
    let s1 = Sphere { c: Point3::new(0.0, 0.0, 0.0), r: 1.0 };
    let s2 = Sphere { c: Point3::new(1.5, 0.0, 0.0), r: 1.0 };
    let disp: Vector3<f32> = spheres_apart(&s1, &s2).expect("the spheres overlap");
    assert_eq!(disp, Vector3::new(1.5 * (0.5 / 1.5), 0.0, 0.0));
    assert!(close(disp.magnitude(), 0.5));
}

#[test]
fn spheres_apart_are_left_alone() {
    let s1 = Sphere { c: Point3::new(0.0, 0.0, 0.0), r: 1.0 };
    for x in [2.0f32, 2.5, 100.0] {
        let s2 = Sphere { c: Point3::new(x, 0.0, 0.0), r: 1.0 };
        assert_eq!(spheres_apart(&s1, &s2), None);
    }
    let s2 = Sphere { c: Point3::new(0.0, 3.0, 4.0), r: 4.0 };
    assert_eq!(spheres_apart(&s1, &s2), None);
    assert!(spheres_touch(&s1, &s2));
    let s3 = Sphere { c: Point3::new(0.0, 3.0, 4.0), r: 3.5 };
    assert!(!spheres_touch(&s1, &s3));
}

#[test]
fn coincident_spheres_get_a_finite_vector() {
    let s1 = Sphere { c: Point3::new(2.0, 2.0, 2.0), r: 1.0 };
    let s2 = Sphere { c: Point3::new(2.0, 2.0, 2.0), r: 0.5 };
    let disp: Vector3<f32> = spheres_apart(&s1, &s2).expect("the spheres overlap");
    assert_eq!(disp, Vector3::new(0.0, 0.0, 0.0));
    assert!(disp.x.is_finite() && disp.y.is_finite() && disp.z.is_finite());
}

#[test]
fn sphere_in_reach_of_a_plane_ends_on_it() {
    let plane = Plane { n: Vector3::new(0.0, 1.0, 0.0), d: 0.0 };
    for (y, r) in [(0.5f32, 1.0f32), (-0.5, 1.0), (1.0, 1.0), (-1.0, 1.0), (0.0, 0.25), (2.0, 3.0)] {
        let s = Sphere { c: Point3::new(3.0, y, -1.0), r };
        assert!(plane_touches(&s, &plane));
        let disp: Vector3<f32> = off_plane(&s, &plane).expect("the sphere reaches the plane");
        assert_eq!(disp, Vector3::new(0.0, r - y, 0.0));
        let moved: Point3<f32> = s.c + disp;
        assert!(close((moved.dot(plane.n) - plane.d).abs(), r));
    }
    let tilted = Plane { n: Vector3::new(0.6, 0.0, 0.8), d: 2.0 };
    let s = Sphere { c: Point3::new(1.0, 5.0, 2.0), r: 1.0 };
    let disp: Vector3<f32> = off_plane(&s, &tilted).expect("the sphere reaches the plane");
    let moved: Point3<f32> = s.c + disp;
    assert!(close((moved.dot(tilted.n) - tilted.d).abs(), s.r));
}

#[test]
fn sphere_out_of_reach_of_a_plane_is_left_alone() {
    let plane = Plane { n: Vector3::new(0.0, 1.0, 0.0), d: 0.0 };
    for (y, r) in [(1.5f32, 1.0f32), (-1.5, 1.0), (0.26, 0.25), (-100.0, 99.0)] {
        let s = Sphere { c: Point3::new(3.0, y, -1.0), r };
        assert!(!plane_touches(&s, &plane));
        assert_eq!(off_plane(&s, &plane), None);
    }
}
