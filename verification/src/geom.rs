//! The overlap decisions of the geometric queries.

use vstd::prelude::*;
use crate::scalar::Scalar;

verus! {

/// A vector of three numbers.
#[derive(Clone, Copy, PartialEq, Eq, Debug)]
pub struct Vec3 {
    pub x: Scalar,
    pub y: Scalar,
    pub z: Scalar,
}

/// Two spheres touch where the square of the distance of their centres,
/// `dist2`, is at most the square of the sum of their radii, `reach2`.
pub fn touching_sphere_sphere(dist2: Scalar, reach2: Scalar) -> (r: bool)
    ensures
        r == dist2.spec_le(reach2),
{
    dist2.le(reach2)
}

/// What the leftover of two spheres' radii is divided by.
pub open spec fn sphere_divisor(distance: Scalar, reach: Scalar) -> Option<Scalar> {
    if distance.spec_lt(reach) {
        if distance.zero() {
            Some(Scalar::spec_one())
        } else {
            Some(distance)
        }
    } else {
        None
    }
}

/// Decides whether two spheres, whose centres lie `distance` apart and whose
/// radii sum to `reach`, are pushed apart, and by what the leftover
/// `reach - distance` is divided to scale the offset of the centres: by the
/// distance itself, or by one where the centres coincide. `None` where the
/// spheres do not overlap.
pub fn disp_sphere_sphere(distance: Scalar, reach: Scalar) -> (r: Option<Scalar>)
    ensures
        r == sphere_divisor(distance, reach),
{
    if distance.lt(reach) {
        if distance.is_zero() {
            Some(Scalar::one())
        } else {
            Some(distance)
        }
    } else {
        None
    }
}

/// A sphere of radius `r` touches a plane from which its centre lies at the
/// signed distance `dist` where the absolute value of `dist` is at most `r`.
pub fn touching_sphere_plane(dist: Scalar, r: Scalar) -> (t: bool)
    ensures
        t == dist.spec_abs().spec_le(r),
{
    dist.abs().le(r)
}

/// The vector that takes such a sphere out of the plane: `push`, which the
/// caller has from the plane's normal, where the sphere touches the plane,
/// and nothing where it does not.
pub fn disp_sphere_plane(dist: Scalar, r: Scalar, push: Vec3) -> (d: Option<Vec3>)
    ensures
        d == plane_push(dist, r, push),
{
    if touching_sphere_plane(dist, r) {
        Some(push)
    } else {
        None
    }
}

/// The divisor that `disp_sphere_sphere` hands out is never zero, and where
/// the centres do not coincide it is the distance, which is then a positive
/// number below the reach.
pub proof fn lemma_sphere_divisor_is_not_zero(distance: Scalar, reach: Scalar)
    ensures
        match sphere_divisor(distance, reach) {
            Some(d) => !d.zero() && !d.nan() && (d == distance || (distance.zero() && d
                == Scalar::spec_one())),
            None => !distance.spec_lt(reach),
        },
{
}

/// Spheres whose centres are at least as far apart as their radii reach are
/// not pushed apart, and neither are spheres of which the distance or the
/// reach is no number; all others are.
pub proof fn lemma_apart_spheres_stay(distance: Scalar, reach: Scalar)
    ensures
        reach.spec_le(distance) ==> sphere_divisor(distance, reach) is None,
        distance.nan() || reach.nan() ==> sphere_divisor(distance, reach) is None,
        !distance.nan() && !reach.nan() && !reach.spec_le(distance) ==> sphere_divisor(
            distance,
            reach,
        ) is Some,
{
}

/// What `disp_sphere_plane` returns, as a spec function.
pub open spec fn plane_push(dist: Scalar, r: Scalar, push: Vec3) -> Option<Vec3> {
    if dist.spec_abs().spec_le(r) {
        Some(push)
    } else {
        None
    }
}

/// A sphere whose centre lies farther from a plane than its radius reaches,
/// on either side, is not pushed, and neither is one of which the distance
/// or the radius is no number; all others are, by `push`.
pub proof fn lemma_far_sphere_stays(dist: Scalar, r: Scalar, push: Vec3)
    ensures
        r.spec_lt(dist.spec_abs()) ==> plane_push(dist, r, push) is None,
        dist.nan() || r.nan() ==> plane_push(dist, r, push) is None,
        !dist.nan() && !r.nan() && !r.spec_lt(dist.spec_abs()) ==> plane_push(dist, r, push)
            == Some(push),
        plane_push(dist, r, push) is Some <==> dist.spec_abs().spec_le(r),
{
}

} // verus!
