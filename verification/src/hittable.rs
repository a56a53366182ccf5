//! Surfaces a ray can strike: the intersection record, the sphere and
//! the aggregate scene.
//!
//! All intersection arithmetic is fixed point.  The quadratic for a
//! sphere is solved exactly over the scaled integers: the discriminant
//! test is exact, the square root and the final division round down /
//! toward zero, and every contract states the computed value precisely.

use vstd::prelude::*;
use crate::fixed::div_trunc;
use crate::fixed::div_trunc_i128;
use crate::fixed::iabs;
use crate::fixed::isqrt_u128;
use crate::fixed::lemma_div_trunc_bounded;
use crate::fixed::lemma_div_trunc_le;
use crate::fixed::lemma_mul_bound;
use crate::fixed::sqrt_floor;
use crate::fixed::SCALE;
use crate::math::comps_within;
use crate::math::spec_at_x;
use crate::math::spec_at_y;
use crate::math::spec_at_z;
use crate::math::spec_dot;
use crate::math::spec_length_squared;
use crate::math::lemma_length_squared_pos;
use crate::math::quot_to_i64;
use crate::math::Ray;
use crate::math::Vec3;
use crate::math::COMP_LIMIT;

verus! {

/// Largest coordinate magnitude (for sphere centers, radii, ray origins
/// and directions) that the intersection arithmetic accepts.
pub const COORD_LIMIT: i64 = 0x10000000;

/// Largest magnitude of a ray-parameter bound that the intersection
/// arithmetic accepts.
pub const T_LIMIT: i64 = 0x80000000;

/// Both the origin and the direction of `ray` lie within `bound`.
pub open spec fn ray_within(ray: Ray, bound: int) -> bool {
    comps_within(ray.origin, bound) && comps_within(ray.direction, bound)
}

/// The direction of `ray` is not the zero vector.
pub open spec fn dir_nonzero(ray: Ray) -> bool {
    !(ray.direction.x == 0 && ray.direction.y == 0 && ray.direction.z == 0)
}

/// The result of a successful intersection: the hit point, the surface
/// normal oriented against the incoming ray, the ray parameter, and
/// whether the ray struck the geometrically outward side.
#[derive(Clone, Copy, PartialEq, Eq, Structural, Debug)]
pub struct HitRecord {
    pub p: Vec3,
    pub t: i64,
    pub normal: Vec3,
    pub front_face: bool,
}

impl HitRecord {
    /// A blank record: everything zero, not a front face.
    pub fn new() -> (r: HitRecord)
        ensures
            r.p.x == 0 && r.p.y == 0 && r.p.z == 0,
            r.t == 0,
            r.normal.x == 0 && r.normal.y == 0 && r.normal.z == 0,
            r.front_face == false,
    {
        HitRecord {
            p: Vec3 { x: 0, y: 0, z: 0 },
            t: 0,
            normal: Vec3 { x: 0, y: 0, z: 0 },
            front_face: false,
        }
    }

    /// Sets the stored normal and the front-face flag from the true
    /// outward normal and the ray's direction: the stored normal always
    /// faces against the ray, and `front_face` records whether the
    /// outward side was struck.
    pub fn set_normal(&mut self, ray: &Ray, outward_normal: &Vec3)
        requires
            comps_within(ray.direction, COMP_LIMIT as int),
            comps_within(*outward_normal, COMP_LIMIT as int),
        ensures
            final(self).front_face == (spec_dot(ray.direction, *outward_normal) < 0),
            final(self).front_face ==> final(self).normal == *outward_normal,
            !final(self).front_face ==> final(self).normal.x as int == -(outward_normal.x as int)
                && final(self).normal.y as int == -(outward_normal.y as int)
                && final(self).normal.z as int == -(outward_normal.z as int),
            final(self).p == old(self).p,
            final(self).t == old(self).t,
    {
        proof {
            lemma_mul_bound(
                ray.direction.x as int,
                outward_normal.x as int,
                COMP_LIMIT as int,
                COMP_LIMIT as int,
            );
            lemma_mul_bound(
                ray.direction.y as int,
                outward_normal.y as int,
                COMP_LIMIT as int,
                COMP_LIMIT as int,
            );
            lemma_mul_bound(
                ray.direction.z as int,
                outward_normal.z as int,
                COMP_LIMIT as int,
                COMP_LIMIT as int,
            );
        }
        let d = (ray.direction.x as i128) * (outward_normal.x as i128) + (ray.direction.y as i128)
            * (outward_normal.y as i128) + (ray.direction.z as i128) * (outward_normal.z as i128);
        self.front_face = d < 0;
        if !self.front_face {
            self.normal = Vec3 {
                x: -outward_normal.x,
                y: -outward_normal.y,
                z: -outward_normal.z,
            };
        } else {
            self.normal = *outward_normal;
        }
    }

    /// The stored, ray-facing normal.
    pub fn get_normal(&self) -> (r: Vec3)
        ensures
            r == self.normal,
    {
        self.normal
    }

    /// Whether the ray struck the outward side of the surface.
    pub fn get_front_face(&self) -> (r: bool)
        ensures
            r == self.front_face,
    {
        self.front_face
    }
}

/// A sphere given by its center and its fixed-point radius.
#[derive(Clone, Copy, PartialEq, Eq, Structural, Debug)]
pub struct Sphere {
    pub center: Vec3,
    pub radius: i64,
}

/// The sphere's coordinates are within the intersection arithmetic's
/// range and its radius is positive.
pub open spec fn sphere_wf(s: Sphere) -> bool {
    comps_within(s.center, COORD_LIMIT as int) && 1 <= s.radius <= COORD_LIMIT
}

/// Squared length of the ray's direction, in squared scale.
pub open spec fn sph_a(ray: Ray) -> int {
    spec_length_squared(ray.direction)
}

/// Dot product of (origin - center) with the direction, in squared scale.
pub open spec fn sph_half_b(s: Sphere, ray: Ray) -> int {
    (ray.origin.x - s.center.x) * ray.direction.x + (ray.origin.y - s.center.y) * ray.direction.y
        + (ray.origin.z - s.center.z) * ray.direction.z
}

/// Squared distance of the origin from the center, less the squared
/// radius, in squared scale.
pub open spec fn sph_c(s: Sphere, ray: Ray) -> int {
    (ray.origin.x - s.center.x) * (ray.origin.x - s.center.x) + (ray.origin.y - s.center.y) * (
    ray.origin.y - s.center.y) + (ray.origin.z - s.center.z) * (ray.origin.z - s.center.z)
        - s.radius * s.radius
}

/// Discriminant of the intersection quadratic; negative exactly when the
/// ray's line misses the sphere.
pub open spec fn sph_disc(s: Sphere, ray: Ray) -> int {
    sph_half_b(s, ray) * sph_half_b(s, ray) - sph_a(ray) * sph_c(s, ray)
}

/// The nearer root of the quadratic, as a fixed-point ray parameter.
pub open spec fn sph_root_near(s: Sphere, ray: Ray) -> int {
    div_trunc((-sph_half_b(s, ray) - sqrt_floor(sph_disc(s, ray))) * SCALE, sph_a(ray))
}

/// The farther root of the quadratic, as a fixed-point ray parameter.
pub open spec fn sph_root_far(s: Sphere, ray: Ray) -> int {
    div_trunc((-sph_half_b(s, ray) + sqrt_floor(sph_disc(s, ray))) * SCALE, sph_a(ray))
}

/// Whether the sphere reports a hit for parameters in `[t_min, t_max]`:
/// the discriminant is nonnegative and a root lies in the interval, the
/// nearer root preferred.
pub open spec fn sphere_hits(s: Sphere, ray: Ray, t_min: int, t_max: int) -> bool {
    sph_disc(s, ray) >= 0 && (t_min <= sph_root_near(s, ray) <= t_max || t_min <= sph_root_far(
        s,
        ray,
    ) <= t_max)
}

/// The accepted ray parameter when [`sphere_hits`] holds: the nearer
/// root if it lies in the interval, else the farther one.
pub open spec fn sphere_hit_time(s: Sphere, ray: Ray, t_min: int, t_max: int) -> int {
    if t_min <= sph_root_near(s, ray) <= t_max {
        sph_root_near(s, ray)
    } else {
        sph_root_far(s, ray)
    }
}

/// First component of the outward normal at parameter `t`:
/// `(p - center) / radius` in fixed point.
pub open spec fn sph_outward_x(s: Sphere, ray: Ray, t: int) -> int {
    div_trunc((spec_at_x(ray, t) - s.center.x) * SCALE, s.radius as int)
}

/// Second component of the outward normal at parameter `t`.
pub open spec fn sph_outward_y(s: Sphere, ray: Ray, t: int) -> int {
    div_trunc((spec_at_y(ray, t) - s.center.y) * SCALE, s.radius as int)
}

/// Third component of the outward normal at parameter `t`.
pub open spec fn sph_outward_z(s: Sphere, ray: Ray, t: int) -> int {
    div_trunc((spec_at_z(ray, t) - s.center.z) * SCALE, s.radius as int)
}

/// Dot product of the ray's direction with the outward normal at `t`;
/// negative exactly when the ray approaches from outside.
pub open spec fn sph_outward_dot_dir(s: Sphere, ray: Ray, t: int) -> int {
    ray.direction.x * sph_outward_x(s, ray, t) + ray.direction.y * sph_outward_y(s, ray, t)
        + ray.direction.z * sph_outward_z(s, ray, t)
}

/// The record a sphere hit at parameter `t` must carry: the point the
/// ray reaches at `t`, the outward normal flipped to face the ray, and
/// the front-face flag.
pub open spec fn sphere_hit_matches(s: Sphere, ray: Ray, t: int, rec: HitRecord) -> bool {
    &&& rec.t as int == t
    &&& rec.p.x as int == spec_at_x(ray, t)
    &&& rec.p.y as int == spec_at_y(ray, t)
    &&& rec.p.z as int == spec_at_z(ray, t)
    &&& rec.front_face == (sph_outward_dot_dir(s, ray, t) < 0)
    &&& rec.normal.x as int == if rec.front_face {
        sph_outward_x(s, ray, t)
    } else {
        -sph_outward_x(s, ray, t)
    }
    &&& rec.normal.y as int == if rec.front_face {
        sph_outward_y(s, ray, t)
    } else {
        -sph_outward_y(s, ray, t)
    }
    &&& rec.normal.z as int == if rec.front_face {
        sph_outward_z(s, ray, t)
    } else {
        -sph_outward_z(s, ray, t)
    }
}

impl Sphere {
    /// Constructs a sphere; the coordinates must lie within the
    /// intersection arithmetic's range and the radius must be positive.
    pub fn new(center: Vec3, radius: i64) -> (r: Sphere)
        requires
            comps_within(center, COORD_LIMIT as int),
            1 <= radius <= COORD_LIMIT,
        ensures
            r.center == center,
            r.radius == radius,
            sphere_wf(r),
    {
        Sphere { center, radius }
    }

    /// The sphere's center.
    pub fn center(&self) -> (r: Vec3)
        ensures
            r == self.center,
    {
        self.center
    }

    /// The sphere's radius.
    pub fn radius(&self) -> (r: i64)
        ensures
            r == self.radius,
    {
        self.radius
    }

    /// Builds the hit record for an accepted parameter `t`.
    fn record_for(&self, ray: &Ray, t: i64) -> (rec: HitRecord)
        requires
            sphere_wf(*self),
            ray_within(*ray, COORD_LIMIT as int),
            iabs(t as int) <= T_LIMIT as int,
        ensures
            sphere_hit_matches(*self, *ray, t as int, rec),
    {
        proof {
            lemma_mul_bound(t as int, ray.direction.x as int, T_LIMIT as int, COORD_LIMIT as int);
            lemma_mul_bound(t as int, ray.direction.y as int, T_LIMIT as int, COORD_LIMIT as int);
            lemma_mul_bound(t as int, ray.direction.z as int, T_LIMIT as int, COORD_LIMIT as int);
            lemma_div_trunc_bounded(t * ray.direction.x, SCALE as int, 0x80000000000i64 as int);
            lemma_div_trunc_bounded(t * ray.direction.y, SCALE as int, 0x80000000000i64 as int);
            lemma_div_trunc_bounded(t * ray.direction.z, SCALE as int, 0x80000000000i64 as int);
        }
        let p = ray.at(t);
        proof {
            lemma_mul_bound(
                p.x - self.center.x,
                SCALE as int,
                0x100000000000i64 as int,
                SCALE as int,
            );
            lemma_mul_bound(
                p.y - self.center.y,
                SCALE as int,
                0x100000000000i64 as int,
                SCALE as int,
            );
            lemma_mul_bound(
                p.z - self.center.z,
                SCALE as int,
                0x100000000000i64 as int,
                SCALE as int,
            );
            lemma_div_trunc_le((p.x - self.center.x) * SCALE, self.radius as int);
            lemma_div_trunc_le((p.y - self.center.y) * SCALE, self.radius as int);
            lemma_div_trunc_le((p.z - self.center.z) * SCALE, self.radius as int);
        }
        let outward = Vec3 {
            x: quot_to_i64(
                ((p.x - self.center.x) as i128) * (SCALE as i128),
                self.radius as i128,
            ),
            y: quot_to_i64(
                ((p.y - self.center.y) as i128) * (SCALE as i128),
                self.radius as i128,
            ),
            z: quot_to_i64(
                ((p.z - self.center.z) as i128) * (SCALE as i128),
                self.radius as i128,
            ),
        };
        let mut rec = HitRecord::new();
        rec.t = t;
        rec.p = p;
        rec.set_normal(ray, &outward);
        proof {
            assert(outward.x as int == sph_outward_x(*self, *ray, t as int));
            assert(outward.y as int == sph_outward_y(*self, *ray, t as int));
            assert(outward.z as int == sph_outward_z(*self, *ray, t as int));
            assert(spec_dot(ray.direction, outward) == sph_outward_dot_dir(*self, *ray, t as int));
        }
        rec
    }

    /// Quadratic ray-sphere intersection over the interval
    /// `[t_min, t_max]`, both bounds inclusive, the nearer root
    /// preferred.
    pub fn hit(&self, ray: &Ray, t_min: i64, t_max: i64) -> (r: Option<HitRecord>)
        requires
            sphere_wf(*self),
            ray_within(*ray, COORD_LIMIT as int),
            dir_nonzero(*ray),
            iabs(t_min as int) <= T_LIMIT as int,
            iabs(t_max as int) <= T_LIMIT as int,
        ensures
            (r is Some) <==> sphere_hits(*self, *ray, t_min as int, t_max as int),
            r matches Some(rec) ==> sphere_hit_matches(
                *self,
                *ray,
                sphere_hit_time(*self, *ray, t_min as int, t_max as int),
                rec,
            ),
            r matches Some(rec) ==> t_min <= rec.t <= t_max,
    {
        let ocx: i64 = ray.origin.x - self.center.x;
        let ocy: i64 = ray.origin.y - self.center.y;
        let ocz: i64 = ray.origin.z - self.center.z;
        let dx: i64 = ray.direction.x;
        let dy: i64 = ray.direction.y;
        let dz: i64 = ray.direction.z;
        proof {
            lemma_mul_bound(dx as int, dx as int, COORD_LIMIT as int, COORD_LIMIT as int);
            lemma_mul_bound(dy as int, dy as int, COORD_LIMIT as int, COORD_LIMIT as int);
            lemma_mul_bound(dz as int, dz as int, COORD_LIMIT as int, COORD_LIMIT as int);
            lemma_mul_bound(ocx as int, dx as int, 0x20000000, COORD_LIMIT as int);
            lemma_mul_bound(ocy as int, dy as int, 0x20000000, COORD_LIMIT as int);
            lemma_mul_bound(ocz as int, dz as int, 0x20000000, COORD_LIMIT as int);
            lemma_mul_bound(ocx as int, ocx as int, 0x20000000, 0x20000000);
            lemma_mul_bound(ocy as int, ocy as int, 0x20000000, 0x20000000);
            lemma_mul_bound(ocz as int, ocz as int, 0x20000000, 0x20000000);
            lemma_mul_bound(
                self.radius as int,
                self.radius as int,
                COORD_LIMIT as int,
                COORD_LIMIT as int,
            );
        }
        let a: i128 = (dx as i128) * (dx as i128) + (dy as i128) * (dy as i128) + (dz as i128) * (
        dz as i128);
        let half_b: i128 = (ocx as i128) * (dx as i128) + (ocy as i128) * (dy as i128) + (
        ocz as i128) * (dz as i128);
        let cc: i128 = (ocx as i128) * (ocx as i128) + (ocy as i128) * (ocy as i128) + (
        ocz as i128) * (ocz as i128) - (self.radius as i128) * (self.radius as i128);
        proof {
            assert(a as int == sph_a(*ray));
            assert(half_b as int == sph_half_b(*self, *ray));
            assert(cc as int == sph_c(*self, *ray));
            lemma_length_squared_pos(ray.direction);
            lemma_mul_bound(half_b as int, half_b as int, 0x600000000000000, 0x600000000000000);
            lemma_mul_bound(a as int, cc as int, 0x300000000000000, 0xd00000000000000);
        }
        let disc: i128 = half_b * half_b - a * cc;
        if disc < 0 {
            return None;
        }
        let sd_u = isqrt_u128(disc as u128);
        proof {
            assert((sd_u as int) * (sd_u as int) <= disc as int);
            assert((sd_u as int) < 0x1000000000000000) by (nonlinear_arith)
                requires
                    (sd_u as int) * (sd_u as int) <= (disc as int),
                    (disc as int) < 0x1000000000000000000000000000000,
                    0 <= (sd_u as int);
        }
        let sd: i128 = sd_u as i128;
        proof {
            lemma_mul_bound(-(half_b as int) - (sd as int), SCALE as int, 0x4000000000000000, SCALE as int);
            lemma_mul_bound(-(half_b as int) + (sd as int), SCALE as int, 0x4000000000000000, SCALE as int);
        }
        let num_near: i128 = (-half_b - sd) * (SCALE as i128);
        let root_near: i128 = div_trunc_i128(num_near, a);
        proof {
            assert(root_near as int == sph_root_near(*self, *ray));
        }
        if t_min as i128 <= root_near && root_near <= t_max as i128 {
            let rec = self.record_for(ray, root_near as i64);
            return Some(rec);
        }
        let num_far: i128 = (-half_b + sd) * (SCALE as i128);
        let root_far: i128 = div_trunc_i128(num_far, a);
        proof {
            assert(root_far as int == sph_root_far(*self, *ray));
        }
        if t_min as i128 <= root_far && root_far <= t_max as i128 {
            let rec = self.record_for(ray, root_far as i64);
            return Some(rec);
        }
        None
    }
}

/// Any surface a ray can strike: a closed sum over the concrete shapes.
#[derive(Clone, Copy, PartialEq, Eq, Structural, Debug)]
pub enum Hittable {
    Sphere(Sphere),
}

/// The contained shape is well formed.
pub open spec fn hittable_wf(h: Hittable) -> bool {
    match h {
        Hittable::Sphere(s) => sphere_wf(s),
    }
}

/// Whether the surface reports a hit for parameters in `[t_min, t_max]`.
pub open spec fn hittable_hits(h: Hittable, ray: Ray, t_min: int, t_max: int) -> bool {
    match h {
        Hittable::Sphere(s) => sphere_hits(s, ray, t_min, t_max),
    }
}

/// The accepted ray parameter when [`hittable_hits`] holds.
pub open spec fn hittable_hit_time(h: Hittable, ray: Ray, t_min: int, t_max: int) -> int {
    match h {
        Hittable::Sphere(s) => sphere_hit_time(s, ray, t_min, t_max),
    }
}

/// The record a hit of this surface at parameter `t` must carry.
pub open spec fn hittable_hit_matches(h: Hittable, ray: Ray, t: int, rec: HitRecord) -> bool {
    match h {
        Hittable::Sphere(s) => sphere_hit_matches(s, ray, t, rec),
    }
}

impl Hittable {
    /// Dispatches the intersection query to the contained shape.
    pub fn hit(&self, ray: &Ray, t_min: i64, t_max: i64) -> (r: Option<HitRecord>)
        requires
            hittable_wf(*self),
            ray_within(*ray, COORD_LIMIT as int),
            dir_nonzero(*ray),
            iabs(t_min as int) <= T_LIMIT as int,
            iabs(t_max as int) <= T_LIMIT as int,
        ensures
            (r is Some) <==> hittable_hits(*self, *ray, t_min as int, t_max as int),
            r matches Some(rec) ==> hittable_hit_matches(
                *self,
                *ray,
                hittable_hit_time(*self, *ray, t_min as int, t_max as int),
                rec,
            ),
            r matches Some(rec) ==> t_min <= rec.t <= t_max,
    {
        match self {
            Hittable::Sphere(s) => s.hit(ray, t_min, t_max),
        }
    }
}

/// Every member of the collection is well formed.
pub open spec fn all_wf(objs: Seq<Hittable>) -> bool {
    forall|i: int| 0 <= i < objs.len() ==> hittable_wf(#[trigger] objs[i])
}

/// The upper parameter bound after querying the first `n` members in
/// order: `t_max` narrowed to each accepted hit in turn.
pub open spec fn list_closest_upto(objs: Seq<Hittable>, ray: Ray, t_min: int, t_max: int, n: int) -> int
    decreases n,
{
    if n <= 0 {
        t_max
    } else {
        let c = list_closest_upto(objs, ray, t_min, t_max, n - 1);
        if hittable_hits(objs[n - 1], ray, t_min, c) {
            hittable_hit_time(objs[n - 1], ray, t_min, c)
        } else {
            c
        }
    }
}

/// The index of the member whose hit is current best after querying the
/// first `n` members in order, or `-1` when none has hit.
pub open spec fn list_best_index_upto(
    objs: Seq<Hittable>,
    ray: Ray,
    t_min: int,
    t_max: int,
    n: int,
) -> int
    decreases n,
{
    if n <= 0 {
        -1
    } else {
        let c = list_closest_upto(objs, ray, t_min, t_max, n - 1);
        if hittable_hits(objs[n - 1], ray, t_min, c) {
            n - 1
        } else {
            list_best_index_upto(objs, ray, t_min, t_max, n - 1)
        }
    }
}

/// Squared length of the cross product of the ray's direction with the
/// vector from the sphere's center to the ray's origin: the squared
/// perpendicular offset of the ray's line from the center, scaled by
/// the squared direction length.
pub open spec fn sph_perp_sq(s: Sphere, ray: Ray) -> int {
    let ocx = ray.origin.x - s.center.x;
    let ocy = ray.origin.y - s.center.y;
    let ocz = ray.origin.z - s.center.z;
    let dx = ray.direction.x;
    let dy = ray.direction.y;
    let dz = ray.direction.z;
    (dy * ocz - dz * ocy) * (dy * ocz - dz * ocy) + (dz * ocx - dx * ocz) * (dz * ocx - dx * ocz)
        + (dx * ocy - dy * ocx) * (dx * ocy - dy * ocx)
}

/// Lagrange's identity for the intersection quadratic: the discriminant
/// is the squared radius scaled by the squared direction length, less
/// the squared perpendicular offset.
pub proof fn lemma_disc_is_perp_defect(s: Sphere, ray: Ray)
    ensures
        sph_disc(s, ray) == sph_a(ray) * (s.radius * s.radius) - sph_perp_sq(s, ray),
{
    let ocx = ray.origin.x - s.center.x;
    let ocy = ray.origin.y - s.center.y;
    let ocz = ray.origin.z - s.center.z;
    let dx = ray.direction.x as int;
    let dy = ray.direction.y as int;
    let dz = ray.direction.z as int;
    let rr = s.radius * s.radius;
    let a1 = ocx * dx;
    let a2 = ocy * dy;
    let a3 = ocz * dz;
    let hb = a1 + a2 + a3;
    assert(hb * hb == a1 * a1 + a2 * a2 + a3 * a3 + 2 * (a1 * a2) + 2 * (a1 * a3) + 2 * (a2 * a3))
        by (nonlinear_arith)
        requires
            hb == a1 + a2 + a3;
    assert(a1 * a1 == (dx * dx) * (ocx * ocx)) by (nonlinear_arith)
        requires
            a1 == ocx * dx;
    assert(a2 * a2 == (dy * dy) * (ocy * ocy)) by (nonlinear_arith)
        requires
            a2 == ocy * dy;
    assert(a3 * a3 == (dz * dz) * (ocz * ocz)) by (nonlinear_arith)
        requires
            a3 == ocz * dz;
    assert(a1 * a2 == (dx * dy) * (ocx * ocy)) by (nonlinear_arith)
        requires
            a1 == ocx * dx,
            a2 == ocy * dy;
    assert(a1 * a3 == (dx * dz) * (ocx * ocz)) by (nonlinear_arith)
        requires
            a1 == ocx * dx,
            a3 == ocz * dz;
    assert(a2 * a3 == (dy * dz) * (ocy * ocz)) by (nonlinear_arith)
        requires
            a2 == ocy * dy,
            a3 == ocz * dz;
    let asum = dx * dx + dy * dy + dz * dz;
    let oc2 = ocx * ocx + ocy * ocy + ocz * ocz;
    assert(asum * oc2 == (dx * dx) * (ocx * ocx) + (dx * dx) * (ocy * ocy) + (dx * dx) * (ocz
        * ocz) + (dy * dy) * (ocx * ocx) + (dy * dy) * (ocy * ocy) + (dy * dy) * (ocz * ocz) + (dz
        * dz) * (ocx * ocx) + (dz * dz) * (ocy * ocy) + (dz * dz) * (ocz * ocz))
        by (nonlinear_arith)
        requires
            asum == dx * dx + dy * dy + dz * dz,
            oc2 == ocx * ocx + ocy * ocy + ocz * ocz;
    let q1 = dy * ocz - dz * ocy;
    let q2 = dz * ocx - dx * ocz;
    let q3 = dx * ocy - dy * ocx;
    assert(q1 * q1 == (dy * ocz) * (dy * ocz) - 2 * ((dy * ocz) * (dz * ocy)) + (dz * ocy) * (dz
        * ocy)) by (nonlinear_arith)
        requires
            q1 == dy * ocz - dz * ocy;
    assert((dy * ocz) * (dy * ocz) == (dy * dy) * (ocz * ocz)) by (nonlinear_arith);
    assert((dy * ocz) * (dz * ocy) == (dy * dz) * (ocy * ocz)) by (nonlinear_arith);
    assert((dz * ocy) * (dz * ocy) == (dz * dz) * (ocy * ocy)) by (nonlinear_arith);
    assert(q2 * q2 == (dz * ocx) * (dz * ocx) - 2 * ((dz * ocx) * (dx * ocz)) + (dx * ocz) * (dx
        * ocz)) by (nonlinear_arith)
        requires
            q2 == dz * ocx - dx * ocz;
    assert((dz * ocx) * (dz * ocx) == (dz * dz) * (ocx * ocx)) by (nonlinear_arith);
    assert((dz * ocx) * (dx * ocz) == (dx * dz) * (ocx * ocz)) by (nonlinear_arith);
    assert((dx * ocz) * (dx * ocz) == (dx * dx) * (ocz * ocz)) by (nonlinear_arith);
    assert(q3 * q3 == (dx * ocy) * (dx * ocy) - 2 * ((dx * ocy) * (dy * ocx)) + (dy * ocx) * (dy
        * ocx)) by (nonlinear_arith)
        requires
            q3 == dx * ocy - dy * ocx;
    assert((dx * ocy) * (dx * ocy) == (dx * dx) * (ocy * ocy)) by (nonlinear_arith);
    assert((dx * ocy) * (dy * ocx) == (dx * dy) * (ocx * ocy)) by (nonlinear_arith);
    assert((dy * ocx) * (dy * ocx) == (dy * dy) * (ocx * ocx)) by (nonlinear_arith);
    assert(asum * (oc2 - rr) == asum * oc2 - asum * rr) by (nonlinear_arith);
    assert(sph_disc(s, ray) == hb * hb - asum * (oc2 - rr));
    assert(sph_perp_sq(s, ray) == q1 * q1 + q2 * q2 + q3 * q3);
    assert(sph_a(ray) == asum);
}

/// A ray whose line passes the center farther away than the radius
/// misses the sphere: the discriminant is negative and no hit is
/// reported for any parameter window.
pub proof fn lemma_sphere_miss(s: Sphere, ray: Ray, t_min: int, t_max: int)
    requires
        sph_perp_sq(s, ray) > sph_a(ray) * (s.radius * s.radius),
    ensures
        !sphere_hits(s, ray, t_min, t_max),
{
    lemma_disc_is_perp_defect(s, ray);
}

/// A reported hit parameter always lies in the queried interval.
pub proof fn lemma_sphere_time_in_range(s: Sphere, ray: Ray, t_min: int, t_max: int)
    requires
        sphere_hits(s, ray, t_min, t_max),
    ensures
        t_min <= sphere_hit_time(s, ray, t_min, t_max) <= t_max,
{
}

/// The nearer root never exceeds the farther root.
pub proof fn lemma_sphere_roots_ordered(s: Sphere, ray: Ray)
    requires
        dir_nonzero(ray),
        sph_disc(s, ray) >= 0,
    ensures
        sph_root_near(s, ray) <= sph_root_far(s, ray),
{
    lemma_length_squared_pos(ray.direction);
    crate::fixed::lemma_sqrt_floor_props(sph_disc(s, ray));
    let hb = sph_half_b(s, ray);
    let sd = sqrt_floor(sph_disc(s, ray));
    assert((-hb - sd) * SCALE <= (-hb + sd) * SCALE) by (nonlinear_arith)
        requires
            sd >= 0,
            SCALE >= 1;
    crate::fixed::lemma_div_trunc_monotone((-hb - sd) * SCALE, (-hb + sd) * SCALE, sph_a(ray));
}

/// How a sphere's answer changes when the upper bound of the query
/// window widens from `c` to `t_max`: a hit inside the narrow window is
/// the same hit in the wide one, and a hit that only the wide window
/// finds lies beyond `c`.
pub proof fn lemma_sphere_hit_window(s: Sphere, ray: Ray, t_min: int, c: int, t_max: int)
    requires
        dir_nonzero(ray),
        c <= t_max,
    ensures
        sphere_hits(s, ray, t_min, c) ==> sphere_hits(s, ray, t_min, t_max) && sphere_hit_time(
            s,
            ray,
            t_min,
            t_max,
        ) == sphere_hit_time(s, ray, t_min, c),
        !sphere_hits(s, ray, t_min, c) && sphere_hits(s, ray, t_min, t_max) ==> sphere_hit_time(
            s,
            ray,
            t_min,
            t_max,
        ) > c,
{
    if sph_disc(s, ray) >= 0 {
        lemma_sphere_roots_ordered(s, ray);
    }
}

/// One component of the outward normal of a hit seen from the center
/// never opposes the matching direction component.
proof fn lemma_center_outward_comp(d: int, t: int, r: int)
    requires
        t >= 1,
        r >= 1,
    ensures
        d * div_trunc(div_trunc(t * d, SCALE as int) * SCALE, r) >= 0,
{
    let q = div_trunc(t * d, SCALE as int);
    let ow = div_trunc(q * SCALE, r);
    if d >= 0 {
        assert(t * d >= 0) by (nonlinear_arith)
            requires
                t >= 1,
                d >= 0;
        crate::fixed::lemma_div_trunc_sign(t * d, SCALE as int);
        crate::fixed::lemma_div_trunc_sign(q * SCALE, r);
        assert(d * ow >= 0) by (nonlinear_arith)
            requires
                d >= 0,
                ow >= 0;
    } else {
        assert(t * d <= 0) by (nonlinear_arith)
            requires
                t >= 1,
                d < 0;
        crate::fixed::lemma_div_trunc_sign(t * d, SCALE as int);
        crate::fixed::lemma_div_trunc_sign(q * SCALE, r);
        assert(d * ow >= 0) by (nonlinear_arith)
            requires
                d < 0,
                ow <= 0;
    }
}

/// A ray cast from the sphere's center strikes the surface from inside:
/// the outward normal at the hit never opposes the ray, so the record
/// reports the back face, and its stored normal is the flipped one.
pub proof fn lemma_center_ray_hits_back_face(s: Sphere, ray: Ray, t_min: int, t_max: int)
    requires
        ray.origin == s.center,
        s.radius >= 1,
        t_min >= 1,
        sphere_hits(s, ray, t_min, t_max),
    ensures
        sph_outward_dot_dir(s, ray, sphere_hit_time(s, ray, t_min, t_max)) >= 0,
        forall|rec: HitRecord| #[trigger] sphere_hit_matches(
            s,
            ray,
            sphere_hit_time(s, ray, t_min, t_max),
            rec,
        ) ==> !rec.front_face,
{
    lemma_sphere_time_in_range(s, ray, t_min, t_max);
    let t = sphere_hit_time(s, ray, t_min, t_max);
    assert(spec_at_x(ray, t) - s.center.x == div_trunc(t * ray.direction.x, SCALE as int));
    assert(spec_at_y(ray, t) - s.center.y == div_trunc(t * ray.direction.y, SCALE as int));
    assert(spec_at_z(ray, t) - s.center.z == div_trunc(t * ray.direction.z, SCALE as int));
    lemma_center_outward_comp(ray.direction.x as int, t, s.radius as int);
    lemma_center_outward_comp(ray.direction.y as int, t, s.radius as int);
    lemma_center_outward_comp(ray.direction.z as int, t, s.radius as int);
}

/// One component of the outward normal at an entry point reached before
/// one whole unit of the direction opposes the matching direction
/// component, strictly so where that component is nonzero.
proof fn lemma_entry_outward_comp(d: int, t: int, r: int)
    requires
        1 <= t < SCALE,
        1 <= r <= SCALE,
    ensures
        d * div_trunc((div_trunc(t * d, SCALE as int) - d) * SCALE, r) <= 0,
        d != 0 ==> d * div_trunc((div_trunc(t * d, SCALE as int) - d) * SCALE, r) <= -1,
{
    let q = div_trunc(t * d, SCALE as int);
    let ow = div_trunc((q - d) * SCALE, r);
    crate::fixed::lemma_div_trunc_fundamental(t * d, SCALE as int);
    crate::fixed::lemma_div_trunc_sign(t * d, SCALE as int);
    crate::fixed::lemma_div_trunc_sign((q - d) * SCALE, r);
    crate::fixed::lemma_div_trunc_fundamental((q - d) * SCALE, r);
    if d > 0 {
        assert(t * d >= 0) by (nonlinear_arith)
            requires
                t >= 1,
                d > 0;
        assert(SCALE * q <= t * d) by (nonlinear_arith)
            requires
                iabs(SCALE * q) <= iabs(t * d),
                iabs(t * d) == t * d,
                iabs(SCALE * q) == SCALE * q,
                q >= 0,
                SCALE >= 1;
        assert(t * d < SCALE * d) by (nonlinear_arith)
            requires
                t < SCALE,
                d > 0;
        assert(q <= d - 1) by (nonlinear_arith)
            requires
                SCALE * q < SCALE * d,
                SCALE >= 1;
        assert((q - d) * SCALE <= -r);
        assert(ow <= -1) by (nonlinear_arith)
            requires
                (q - d) * SCALE == r * ow + ((q - d) * SCALE - r * ow),
                iabs((q - d) * SCALE - r * ow) < r,
                (q - d) * SCALE <= -r,
                ow <= 0,
                r >= 1;
        assert(d * ow <= -1) by (nonlinear_arith)
            requires
                d >= 1,
                ow <= -1;
    } else if d < 0 {
        assert(t * d <= 0) by (nonlinear_arith)
            requires
                t >= 1,
                d < 0;
        assert(t * d <= SCALE * q) by (nonlinear_arith)
            requires
                iabs(SCALE * q) <= iabs(t * d),
                iabs(t * d) == -(t * d),
                iabs(SCALE * q) == -(SCALE * q),
                q <= 0,
                SCALE >= 1;
        assert(SCALE * d < t * d) by (nonlinear_arith)
            requires
                t < SCALE,
                d < 0;
        assert(d + 1 <= q) by (nonlinear_arith)
            requires
                SCALE * d < SCALE * q,
                SCALE >= 1;
        assert((q - d) * SCALE >= r);
        assert(ow >= 1) by (nonlinear_arith)
            requires
                (q - d) * SCALE == r * ow + ((q - d) * SCALE - r * ow),
                iabs((q - d) * SCALE - r * ow) < r,
                (q - d) * SCALE >= r,
                ow >= 0,
                r >= 1;
        assert(d * ow <= -1) by (nonlinear_arith)
            requires
                d <= -1,
                ow >= 1;
    } else {
        assert(q == 0);
        assert(ow == 0);
    }
}

/// A ray aimed directly at the center of a sphere from outside it, with
/// the center one unit of the direction away, strikes the outward face:
/// the entry root is accepted before one unit, the outward normal there
/// opposes the ray, and the record reports the front face with the
/// unflipped outward normal.
pub proof fn lemma_aimed_at_center_hits_front_face(s: Sphere, ray: Ray, t_min: int, t_max: int)
    requires
        s.center.x == ray.origin.x + ray.direction.x,
        s.center.y == ray.origin.y + ray.direction.y,
        s.center.z == ray.origin.z + ray.direction.z,
        dir_nonzero(ray),
        1 <= s.radius <= SCALE,
        sph_c(s, ray) > 0,
        1 <= t_min,
        t_min <= sph_root_near(s, ray) <= t_max,
    ensures
        sphere_hits(s, ray, t_min, t_max),
        sph_outward_dot_dir(s, ray, sphere_hit_time(s, ray, t_min, t_max)) < 0,
        forall|rec: HitRecord| #[trigger] sphere_hit_matches(
            s,
            ray,
            sphere_hit_time(s, ray, t_min, t_max),
            rec,
        ) ==> rec.front_face,
{
    let dx = ray.direction.x as int;
    let dy = ray.direction.y as int;
    let dz = ray.direction.z as int;
    let a = sph_a(ray);
    let rr = s.radius * s.radius;
    lemma_length_squared_pos(ray.direction);
    assert((-dx) * dx == -(dx * dx) && (-dy) * dy == -(dy * dy) && (-dz) * dz == -(dz * dz))
        by (nonlinear_arith);
    assert((-dx) * (-dx) == dx * dx && (-dy) * (-dy) == dy * dy && (-dz) * (-dz) == dz * dz)
        by (nonlinear_arith);
    assert(sph_half_b(s, ray) == -a);
    assert(sph_c(s, ray) == a - rr);
    assert((-a) * (-a) == a * a && a * (a - rr) == a * a - a * rr) by (nonlinear_arith);
    assert(sph_disc(s, ray) == a * rr);
    assert(rr >= 1) by (nonlinear_arith)
        requires
            rr == s.radius * s.radius,
            s.radius >= 1;
    assert(a * rr >= 1) by (nonlinear_arith)
        requires
            a >= 1,
            rr >= 1;
    crate::fixed::lemma_sqrt_floor_props(a * rr);
    let sd = sqrt_floor(a * rr);
    assert(sd >= 1) by (nonlinear_arith)
        requires
            a * rr >= 1,
            a * rr < (sd + 1) * (sd + 1),
            sd >= 0;
    assert(rr < a);
    assert(a * rr < a * a) by (nonlinear_arith)
        requires
            rr < a,
            a >= 1;
    assert(sd < a) by (nonlinear_arith)
        requires
            sd * sd <= a * rr,
            a * rr < a * a,
            sd >= 0,
            a >= 1;
    let t = sph_root_near(s, ray);
    crate::fixed::lemma_div_trunc_fundamental((a - sd) * SCALE, a);
    crate::fixed::lemma_div_trunc_sign((a - sd) * SCALE, a);
    assert((a - sd) * SCALE >= 0) by (nonlinear_arith)
        requires
            sd < a,
            SCALE >= 1;
    assert(a * t <= (a - sd) * SCALE) by (nonlinear_arith)
        requires
            iabs(a * t) <= iabs((a - sd) * SCALE),
            iabs((a - sd) * SCALE) == (a - sd) * SCALE,
            iabs(a * t) == a * t,
            t >= 0,
            a >= 1;
    assert(t < SCALE) by (nonlinear_arith)
        requires
            a * t <= (a - sd) * SCALE,
            sd >= 1,
            a >= 1,
            SCALE >= 1;
    assert(sphere_hit_time(s, ray, t_min, t_max) == t);
    assert(spec_at_x(ray, t) - s.center.x == div_trunc(t * dx, SCALE as int) - dx);
    assert(spec_at_y(ray, t) - s.center.y == div_trunc(t * dy, SCALE as int) - dy);
    assert(spec_at_z(ray, t) - s.center.z == div_trunc(t * dz, SCALE as int) - dz);
    lemma_entry_outward_comp(dx, t, s.radius as int);
    lemma_entry_outward_comp(dy, t, s.radius as int);
    lemma_entry_outward_comp(dz, t, s.radius as int);
}

/// The window behaviour of any surface, lifted from the sphere.
pub proof fn lemma_hittable_hit_window(h: Hittable, ray: Ray, t_min: int, c: int, t_max: int)
    requires
        dir_nonzero(ray),
        c <= t_max,
    ensures
        hittable_hits(h, ray, t_min, c) ==> hittable_hits(h, ray, t_min, t_max)
            && hittable_hit_time(h, ray, t_min, t_max) == hittable_hit_time(h, ray, t_min, c),
        !hittable_hits(h, ray, t_min, c) && hittable_hits(h, ray, t_min, t_max)
            ==> hittable_hit_time(h, ray, t_min, t_max) > c,
{
    match h {
        Hittable::Sphere(s) => lemma_sphere_hit_window(s, ray, t_min, c, t_max),
    }
}

/// The collection's narrowing pass finds the globally nearest member
/// hit: whenever some member reports a hit in `[t_min, t_max]` on its
/// own, the pass ends on a member hit whose parameter is least among
/// them, so the result does not depend on insertion order; and when no
/// member hits, the pass reports none.
pub proof fn lemma_list_hit_nearest(objs: Seq<Hittable>, ray: Ray, t_min: int, t_max: int, n: int)
    requires
        dir_nonzero(ray),
        0 <= n <= objs.len(),
    ensures
        list_closest_upto(objs, ray, t_min, t_max, n) <= t_max,
        -1 <= list_best_index_upto(objs, ray, t_min, t_max, n) < n,
        list_best_index_upto(objs, ray, t_min, t_max, n) == -1 ==> list_closest_upto(
            objs,
            ray,
            t_min,
            t_max,
            n,
        ) == t_max && forall|j: int|
            0 <= j < n ==> !hittable_hits(#[trigger] objs[j], ray, t_min, t_max),
        list_best_index_upto(objs, ray, t_min, t_max, n) >= 0 ==> {
            let i = list_best_index_upto(objs, ray, t_min, t_max, n);
            let c = list_closest_upto(objs, ray, t_min, t_max, n);
            &&& 0 <= i < n
            &&& hittable_hits(objs[i], ray, t_min, t_max)
            &&& hittable_hit_time(objs[i], ray, t_min, t_max) == c
            &&& t_min <= c <= t_max
            &&& forall|j: int|
                0 <= j < n && hittable_hits(#[trigger] objs[j], ray, t_min, t_max)
                    ==> c <= hittable_hit_time(objs[j], ray, t_min, t_max)
        },
    decreases n,
{
    if n > 0 {
        lemma_list_hit_nearest(objs, ray, t_min, t_max, n - 1);
        let c_prev = list_closest_upto(objs, ray, t_min, t_max, n - 1);
        let i_prev = list_best_index_upto(objs, ray, t_min, t_max, n - 1);
        lemma_hittable_hit_window(objs[n - 1], ray, t_min, c_prev, t_max);
        if hittable_hits(objs[n - 1], ray, t_min, c_prev) {
            match objs[n - 1] {
                Hittable::Sphere(s) => lemma_sphere_time_in_range(s, ray, t_min, c_prev),
            }
            let c = hittable_hit_time(objs[n - 1], ray, t_min, c_prev);
            assert(list_closest_upto(objs, ray, t_min, t_max, n) == c);
            assert(list_best_index_upto(objs, ray, t_min, t_max, n) == n - 1);
            assert(hittable_hits(objs[n - 1], ray, t_min, t_max));
            assert(hittable_hit_time(objs[n - 1], ray, t_min, t_max) == c);
            assert(t_min <= c <= c_prev);
            assert forall|j: int|
                0 <= j < n && hittable_hits(#[trigger] objs[j], ray, t_min, t_max) implies c
                <= hittable_hit_time(objs[j], ray, t_min, t_max) by {
                if j < n - 1 {
                    if i_prev == -1 {
                        assert(!hittable_hits(objs[j], ray, t_min, t_max));
                    } else {
                        assert(c_prev <= hittable_hit_time(objs[j], ray, t_min, t_max));
                    }
                }
            }
        } else {
            assert(list_closest_upto(objs, ray, t_min, t_max, n) == c_prev);
            assert(list_best_index_upto(objs, ray, t_min, t_max, n) == i_prev);
            if hittable_hits(objs[n - 1], ray, t_min, t_max) {
                assert(hittable_hit_time(objs[n - 1], ray, t_min, t_max) > c_prev);
            }
        }
    }
}

/// An ordered collection of owned surfaces, queried together.
pub struct HittableList {
    pub objects: Vec<Hittable>,
}

impl HittableList {
    /// An empty collection.
    pub fn new() -> (r: HittableList)
        ensures
            r.objects@.len() == 0,
    {
        HittableList { objects: Vec::new() }
    }

    /// Appends a surface to the collection.
    pub fn add_object(&mut self, object: Hittable)
        ensures
            final(self).objects@ == old(self).objects@.push(object),
    {
        self.objects.push(object);
    }

    /// Removes every surface from the collection.
    pub fn clear(&mut self)
        ensures
            final(self).objects@.len() == 0,
    {
        self.objects.clear();
    }

    /// Queries every member, narrowing the upper bound to each hit in
    /// turn, and returns the record of the member hit with the globally
    /// least parameter across all members, or `None` when no member
    /// hits in `[t_min, t_max]`; the result does not depend on the
    /// insertion order of the members.
    pub fn hit(&self, ray: &Ray, t_min: i64, t_max: i64) -> (r: Option<HitRecord>)
        requires
            all_wf(self.objects@),
            ray_within(*ray, COORD_LIMIT as int),
            dir_nonzero(*ray),
            iabs(t_min as int) <= T_LIMIT as int,
            iabs(t_max as int) <= T_LIMIT as int,
        ensures
            (r is Some) <==> list_best_index_upto(
                self.objects@,
                *ray,
                t_min as int,
                t_max as int,
                self.objects@.len() as int,
            ) >= 0,
            r matches Some(rec) ==> {
                let objs = self.objects@;
                let n = objs.len() as int;
                let i = list_best_index_upto(objs, *ray, t_min as int, t_max as int, n);
                &&& rec.t as int == list_closest_upto(objs, *ray, t_min as int, t_max as int, n)
                &&& 0 <= i < n
                &&& hittable_hit_matches(objs[i], *ray, rec.t as int, rec)
                &&& t_min <= rec.t <= t_max
            },
            (r is None) ==> forall|j: int|
                0 <= j < self.objects@.len() ==> !hittable_hits(
                    #[trigger] self.objects@[j],
                    *ray,
                    t_min as int,
                    t_max as int,
                ),
            r matches Some(rec) ==> exists|j: int|
                0 <= j < self.objects@.len() && #[trigger] hittable_hits(
                    self.objects@[j],
                    *ray,
                    t_min as int,
                    t_max as int,
                ) && hittable_hit_time(self.objects@[j], *ray, t_min as int, t_max as int)
                    == rec.t as int,
            r matches Some(rec) ==> forall|j: int|
                0 <= j < self.objects@.len() && #[trigger] hittable_hits(
                    self.objects@[j],
                    *ray,
                    t_min as int,
                    t_max as int,
                ) ==> rec.t as int <= hittable_hit_time(
                    self.objects@[j],
                    *ray,
                    t_min as int,
                    t_max as int,
                ),
    {
        let ghost objs = self.objects@;
        let ghost gmin = t_min as int;
        let ghost gmax = t_max as int;
        let mut result: Option<HitRecord> = None;
        let mut closest: i64 = t_max;
        let mut i: usize = 0;
        while i < self.objects.len()
            invariant
                0 <= i <= self.objects@.len(),
                objs == self.objects@,
                gmin == t_min as int,
                gmax == t_max as int,
                all_wf(objs),
                ray_within(*ray, COORD_LIMIT as int),
                dir_nonzero(*ray),
                iabs(t_min as int) <= T_LIMIT as int,
                iabs(t_max as int) <= T_LIMIT as int,
                iabs(closest as int) <= T_LIMIT as int,
                closest as int == list_closest_upto(objs, *ray, gmin, gmax, i as int),
                closest <= t_max,
                (result is Some) <==> list_best_index_upto(objs, *ray, gmin, gmax, i as int) >= 0,
                result is None ==> closest == t_max,
                result matches Some(rec) ==> {
                    let bi = list_best_index_upto(objs, *ray, gmin, gmax, i as int);
                    &&& rec.t == closest
                    &&& 0 <= bi < i as int
                    &&& hittable_hit_matches(objs[bi], *ray, rec.t as int, rec)
                    &&& t_min <= rec.t <= t_max
                },
            decreases self.objects@.len() - i,
        {
            let member = &self.objects[i];
            match member.hit(ray, t_min, closest) {
                Some(rec) => {
                    closest = rec.t;
                    result = Some(rec);
                },
                None => {},
            }
            i = i + 1;
        }
        proof {
            lemma_list_hit_nearest(objs, *ray, gmin, gmax, objs.len() as int);
        }
        result
    }
}

} // verus!
