//! Recursive diffuse shading: the color a ray gathers from the scene.
//!
//! A ray either runs out of bounces (black), escapes the scene (the
//! vertical background gradient), or strikes a surface and recurses on a
//! diffusely scattered bounce ray, keeping half the gathered light.

use vstd::prelude::*;
use crate::fixed::div_trunc;
use crate::fixed::lemma_div_trunc_bounded;
use crate::fixed::lemma_div_trunc_exact;
use crate::fixed::lemma_div_trunc_sign;
use crate::fixed::lemma_mul_bound;
use crate::fixed::sqrt_floor;
use crate::fixed::SCALE;
use crate::hittable::all_wf;
use crate::hittable::dir_nonzero;
use crate::hittable::hittable_hit_matches;
use crate::hittable::list_best_index_upto;
use crate::hittable::list_closest_upto;
use crate::hittable::HitRecord;
use crate::hittable::ray_within;
use crate::hittable::Hittable;
use crate::hittable::HittableList;
use crate::hittable::COORD_LIMIT;
use crate::math::comps_within;
use crate::math::spec_length_squared;
use crate::math::quot_to_i64;
use crate::math::Ray;
use crate::math::Vec3;

verus! {

/// The minimum ray parameter used for scene queries: the fixed-point
/// image of the 0.001 shadow-acne epsilon, keeping a bounce ray from
/// re-intersecting its own origin surface.
pub const SHADOW_ACNE_EPS: i64 = 65;

/// The maximum ray parameter used for scene queries, standing in for
/// infinity: one thousand whole units.
pub const FAR_LIMIT: i64 = 65536000;

/// Half of one whole unit: the fraction of light kept per diffuse
/// bounce.
pub const HALF_UNIT: i64 = 32768;

/// The sky color at the top of the background gradient, componentwise
/// the fixed-point image of (0.5, 0.7, 1.0).
pub const SKY_X: i64 = 32768;

/// Second component of the sky color.
pub const SKY_Y: i64 = 45875;

/// Third component of the sky color.
pub const SKY_Z: i64 = 65536;

/// Relies on rand::random: a value drawn from the thread-local
/// generator.  Nothing can be promised of a random draw.
pub assume_specification<T>[ rand::random::<T> ]() -> (r: T)
    where
        rand::distributions::Standard: rand::distributions::Distribution<T>,
;

/// Whether the scene reports any hit for `ray` over the standard query
/// window `[SHADOW_ACNE_EPS, FAR_LIMIT]`.
pub open spec fn scene_hits(objs: Seq<Hittable>, ray: Ray) -> bool {
    list_best_index_upto(
        objs,
        ray,
        SHADOW_ACNE_EPS as int,
        FAR_LIMIT as int,
        objs.len() as int,
    ) >= 0
}

/// Second component of the ray's direction scaled to unit length, at
/// the doubled precision [`crate::math::Vec3::unit_vector`] computes.
pub open spec fn spec_unit_y(ray: Ray) -> int {
    div_trunc(
        ray.direction.y * SCALE * SCALE,
        sqrt_floor(spec_length_squared(ray.direction) * SCALE * SCALE),
    )
}

/// The background blend parameter `0.5 * (unit_direction.y + 1)` in
/// fixed point.
pub open spec fn spec_background_t(ray: Ray) -> int {
    div_trunc(spec_unit_y(ray) + SCALE, 2)
}

/// First component of the background gradient
/// `(1 - t) * white + t * sky`.
pub open spec fn spec_background_x(ray: Ray) -> int {
    (SCALE - spec_background_t(ray)) + div_trunc(SKY_X * spec_background_t(ray), SCALE as int)
}

/// Second component of the background gradient.
pub open spec fn spec_background_y(ray: Ray) -> int {
    (SCALE - spec_background_t(ray)) + div_trunc(SKY_Y * spec_background_t(ray), SCALE as int)
}

/// Third component of the background gradient.
pub open spec fn spec_background_z(ray: Ray) -> int {
    (SCALE - spec_background_t(ray)) + div_trunc(SKY_Z * spec_background_t(ray), SCALE as int)
}

/// The draw lies in the closed cube `[-1,1]^3` and strictly inside the
/// unit ball.
pub open spec fn in_unit_ball(p: Vec3) -> bool {
    comps_within(p, SCALE as int) && spec_length_squared(p) < SCALE * SCALE
}

/// The hit point and the stored normal are small enough that a bounce
/// ray built from them stays inside the intersection arithmetic's
/// coordinate range.
pub open spec fn bounce_in_range(rec: HitRecord) -> bool {
    comps_within(rec.p, COORD_LIMIT as int) && comps_within(rec.normal, COORD_LIMIT - SCALE)
}

/// The ray scattered diffusely off the hit `rec` by the draw `p`: it
/// starts at the hit point toward the target `p + normal + draw`, so
/// its direction is `normal + draw` exactly.
pub open spec fn bounce_ray(rec: HitRecord, p: Vec3) -> Ray {
    Ray {
        origin: rec.p,
        direction: Vec3 {
            x: (rec.normal.x + p.x) as i64,
            y: (rec.normal.y + p.y) as i64,
            z: (rec.normal.z + p.z) as i64,
        },
    }
}

/// Every channel of `color` is zero.
pub open spec fn is_black(color: Vec3) -> bool {
    color.x == 0 && color.y == 0 && color.z == 0
}

/// `color` keeps half of `c`, rounding each channel toward zero.
pub open spec fn is_half_of(color: Vec3, c: Vec3) -> bool {
    color.x as int == div_trunc(c.x * HALF_UNIT, SCALE as int) && color.y as int == div_trunc(
        c.y * HALF_UNIT,
        SCALE as int,
    ) && color.z as int == div_trunc(c.z * HALF_UNIT, SCALE as int)
}

/// Trigger anchor naming one candidate bounce: a hit record, a draw and
/// a recursive sample.  Always true; it only guides the quantifier in
/// [`color_of`].
pub open spec fn bounce_witness(rec: HitRecord, p: Vec3, c: Vec3) -> bool {
    true
}

/// One diffuse-bounce step at the hit `rec` with the draw `p` and the
/// recursive sample `c`: black where the bounce's origin or normal left
/// the arithmetic's range or its direction is exactly zero (the bounce
/// is treated as absorbed), else half of the sample `c`, which
/// [`color_of`] must admit at one less depth on the bounce ray.
pub open spec fn diffuse_bounce(
    objs: Seq<Hittable>,
    rec: HitRecord,
    p: Vec3,
    c: Vec3,
    depth: nat,
    color: Vec3,
) -> bool
    decreases depth, 0int,
{
    if !bounce_in_range(rec) {
        is_black(color)
    } else if rec.normal.x + p.x == 0 && rec.normal.y + p.y == 0 && rec.normal.z + p.z == 0 {
        is_black(color)
    } else if depth == 0 {
        false
    } else {
        color_of(objs, bounce_ray(rec, p), (depth - 1) as nat, c) && is_half_of(color, c)
    }
}

/// The colors the shading recursion may return for `ray` with `depth`
/// bounces left: exact black when exhausted; the exact background
/// gradient on a miss; and on a hit, the outcome of one diffuse bounce
/// off the nearest hit record for some draw strictly inside the unit
/// ball.
pub open spec fn color_of(objs: Seq<Hittable>, ray: Ray, depth: nat, color: Vec3) -> bool
    decreases depth, 1int,
{
    if depth == 0 {
        is_black(color)
    } else if !scene_hits(objs, ray) {
        color.x as int == spec_background_x(ray) && color.y as int == spec_background_y(ray)
            && color.z as int == spec_background_z(ray)
    } else {
        exists|rec: HitRecord, p: Vec3, c: Vec3|
            #[trigger] bounce_witness(rec, p, c) && hittable_hit_matches(
                objs[list_best_index_upto(
                    objs,
                    ray,
                    SHADOW_ACNE_EPS as int,
                    FAR_LIMIT as int,
                    objs.len() as int,
                )],
                ray,
                list_closest_upto(
                    objs,
                    ray,
                    SHADOW_ACNE_EPS as int,
                    FAR_LIMIT as int,
                    objs.len() as int,
                ),
                rec,
            ) && in_unit_ball(p) && diffuse_bounce(objs, rec, p, c, depth, color)
    }
}

/// Introduction form of the hit case of [`color_of`]: a concrete
/// record, draw and sample that realize one diffuse bounce establish
/// the relation for the whole ray.
proof fn lemma_color_of_hit(
    objs: Seq<Hittable>,
    ray: Ray,
    depth: nat,
    rec: HitRecord,
    p: Vec3,
    cw: Vec3,
    color: Vec3,
)
    requires
        depth > 0,
        scene_hits(objs, ray),
        hittable_hit_matches(
            objs[list_best_index_upto(
                objs,
                ray,
                SHADOW_ACNE_EPS as int,
                FAR_LIMIT as int,
                objs.len() as int,
            )],
            ray,
            list_closest_upto(objs, ray, SHADOW_ACNE_EPS as int, FAR_LIMIT as int, objs.len() as int),
            rec,
        ),
        in_unit_ball(p),
        diffuse_bounce(objs, rec, p, cw, depth, color),
    ensures
        color_of(objs, ray, depth, color),
{
    assert(bounce_witness(rec, p, cw));
    assert(exists|r2: HitRecord, p2: Vec3, c2: Vec3|
        #[trigger] bounce_witness(r2, p2, c2) && hittable_hit_matches(
            objs[list_best_index_upto(
                objs,
                ray,
                SHADOW_ACNE_EPS as int,
                FAR_LIMIT as int,
                objs.len() as int,
            )],
            ray,
            list_closest_upto(objs, ray, SHADOW_ACNE_EPS as int, FAR_LIMIT as int, objs.len() as int),
            r2,
        ) && in_unit_ball(p2) && diffuse_bounce(objs, r2, p2, c2, depth, color));
}

/// One coordinate drawn from `[-SCALE, SCALE]`, reduced from a raw
/// random 64-bit value.
fn random_scaled_coord() -> (r: i64)
    ensures
        -SCALE <= r <= SCALE,
{
    let raw: u64 = rand::random::<u64>();
    let m: u64 = raw % 131073;
    (m as i64) - SCALE
}

/// A point strictly inside the unit ball, drawn by rejection sampling
/// from the cube `[-1,1]^3`.  The number of draws is capped; if every
/// draw lands outside the ball (vanishingly unlikely), the center is
/// returned, which also lies strictly inside.
pub fn random_in_unit_sphere() -> (p: Vec3)
    ensures
        comps_within(p, SCALE as int),
        spec_length_squared(p) < SCALE * SCALE,
{
    let mut tries: usize = 0;
    while tries < 64
        invariant
            tries <= 64,
        decreases 64 - tries,
    {
        let p = Vec3::new(random_scaled_coord(), random_scaled_coord(), random_scaled_coord());
        proof {
            lemma_mul_bound(p.x as int, p.x as int, SCALE as int, SCALE as int);
            lemma_mul_bound(p.y as int, p.y as int, SCALE as int, SCALE as int);
            lemma_mul_bound(p.z as int, p.z as int, SCALE as int, SCALE as int);
        }
        let ls = p.length_squared();
        if ls < SCALE * SCALE {
            return p;
        }
        tries = tries + 1;
    }
    Vec3::new(0, 0, 0)
}

/// The color gathered by `ray` in the scene with `depth` bounces left.
///
/// With no depth left the ray is exhausted: exact black.  A ray that
/// hits nothing returns the exact background gradient for its
/// direction.  A ray that hits a surface returns half of a recursive
/// sample along a diffuse bounce ray toward `p + normal + draw` for a
/// fresh draw strictly inside the unit ball, except that a bounce whose
/// origin or normal would leave the arithmetic's range, or whose
/// direction is exactly zero, is treated as absorbed and returns black.
/// The whole relation, bounce by bounce, is [`color_of`]; every channel
/// stays in `[0, SCALE]`, and within `[0, HALF_UNIT]` after a hit.
pub fn ray_color(ray: &Ray, objects: &HittableList, depth: usize) -> (color: Vec3)
    requires
        all_wf(objects.objects@),
        ray_within(*ray, COORD_LIMIT as int),
        dir_nonzero(*ray),
    ensures
        color_of(objects.objects@, *ray, depth as nat, color),
        0 <= color.x <= SCALE && 0 <= color.y <= SCALE && 0 <= color.z <= SCALE,
        depth == 0 ==> color.x == 0 && color.y == 0 && color.z == 0,
        depth > 0 && !scene_hits(objects.objects@, *ray) ==> color.x as int == spec_background_x(
            *ray,
        ) && color.y as int == spec_background_y(*ray) && color.z as int == spec_background_z(
            *ray,
        ),
        depth > 0 && scene_hits(objects.objects@, *ray) ==> color.x <= HALF_UNIT && color.y
            <= HALF_UNIT && color.z <= HALF_UNIT,
    decreases depth,
{
    let ghost objs = objects.objects@;
    if depth == 0 {
        let black = Vec3::new(0, 0, 0);
        proof {
            assert(color_of(objs, *ray, depth as nat, black));
        }
        return black;
    }
    match objects.hit(ray, SHADOW_ACNE_EPS, FAR_LIMIT) {
        Some(record) => {
            let ghost bi = list_best_index_upto(
                objs,
                *ray,
                SHADOW_ACNE_EPS as int,
                FAR_LIMIT as int,
                objs.len() as int,
            );
            let ghost bt = list_closest_upto(
                objs,
                *ray,
                SHADOW_ACNE_EPS as int,
                FAR_LIMIT as int,
                objs.len() as int,
            );
            proof {
                assert(hittable_hit_matches(objs[bi], *ray, bt, record));
            }
            let normal = record.get_normal();
            let rnd = random_in_unit_sphere();
            let bound: i64 = COORD_LIMIT - SCALE;
            let ok = record.p.x >= -COORD_LIMIT && record.p.x <= COORD_LIMIT && record.p.y
                >= -COORD_LIMIT && record.p.y <= COORD_LIMIT && record.p.z >= -COORD_LIMIT
                && record.p.z <= COORD_LIMIT && normal.x >= -bound && normal.x <= bound && normal.y
                >= -bound && normal.y <= bound && normal.z >= -bound && normal.z <= bound;
            if !ok {
                let black = Vec3::new(0, 0, 0);
                proof {
                    assert(!bounce_in_range(record));
                    assert(in_unit_ball(rnd));
                    assert(diffuse_bounce(objs, record, rnd, rnd, depth as nat, black));
                    lemma_color_of_hit(objs, *ray, depth as nat, record, rnd, rnd, black);
                }
                return black;
            }
            // The bounce target is p + normal + rnd; the bounce
            // direction target - p is therefore normal + rnd exactly.
            let dir = normal.add(&rnd);
            if dir.x == 0 && dir.y == 0 && dir.z == 0 {
                let black = Vec3::new(0, 0, 0);
                proof {
                    assert(bounce_in_range(record));
                    assert(in_unit_ball(rnd));
                    assert(diffuse_bounce(objs, record, rnd, rnd, depth as nat, black));
                    lemma_color_of_hit(objs, *ray, depth as nat, record, rnd, rnd, black);
                }
                return black;
            }
            let bounce = Ray::new(&record.p, &dir);
            let c = ray_color(&bounce, objects, depth - 1);
            proof {
                lemma_mul_bound(c.x as int, HALF_UNIT as int, SCALE as int, HALF_UNIT as int);
                lemma_mul_bound(c.y as int, HALF_UNIT as int, SCALE as int, HALF_UNIT as int);
                lemma_mul_bound(c.z as int, HALF_UNIT as int, SCALE as int, HALF_UNIT as int);
                lemma_div_trunc_bounded(c.x * HALF_UNIT, SCALE as int, HALF_UNIT as int);
                lemma_div_trunc_bounded(c.y * HALF_UNIT, SCALE as int, HALF_UNIT as int);
                lemma_div_trunc_bounded(c.z * HALF_UNIT, SCALE as int, HALF_UNIT as int);
                lemma_div_trunc_sign(c.x * HALF_UNIT, SCALE as int);
                lemma_div_trunc_sign(c.y * HALF_UNIT, SCALE as int);
                lemma_div_trunc_sign(c.z * HALF_UNIT, SCALE as int);
                assert(c.x * HALF_UNIT >= 0 && c.y * HALF_UNIT >= 0 && c.z * HALF_UNIT >= 0)
                    by (nonlinear_arith)
                    requires
                        c.x >= 0,
                        c.y >= 0,
                        c.z >= 0,
                        HALF_UNIT >= 0;
            }
            let half = c.mul(HALF_UNIT);
            proof {
                assert(in_unit_ball(rnd));
                assert(bounce == bounce_ray(record, rnd));
                assert(bounce_in_range(record));
                assert((depth - 1) as nat == ((depth as nat) - 1) as nat);
                assert(color_of(objs, bounce_ray(record, rnd), ((depth as nat) - 1) as nat, c));
                assert(is_half_of(half, c));
                assert(!(record.normal.x + rnd.x == 0 && record.normal.y + rnd.y == 0
                    && record.normal.z + rnd.z == 0));
                assert(diffuse_bounce(objs, record, rnd, c, depth as nat, half));
                lemma_color_of_hit(objs, *ray, depth as nat, record, rnd, c, half);
            }
            half
        },
        None => {
            proof {
                lemma_mul_bound(
                    ray.direction.x as int,
                    ray.direction.x as int,
                    COORD_LIMIT as int,
                    COORD_LIMIT as int,
                );
                lemma_mul_bound(
                    ray.direction.y as int,
                    ray.direction.y as int,
                    COORD_LIMIT as int,
                    COORD_LIMIT as int,
                );
                lemma_mul_bound(
                    ray.direction.z as int,
                    ray.direction.z as int,
                    COORD_LIMIT as int,
                    COORD_LIMIT as int,
                );
            }
            let unit_direction = ray.direction().unit_vector();
            let uy = unit_direction.y();
            let t: i64 = quot_to_i64((uy as i128) + (SCALE as i128), 2);
            proof {
                lemma_div_trunc_sign(uy + SCALE, 2);
                lemma_div_trunc_bounded(uy + SCALE, 2, SCALE as int);
                lemma_div_trunc_exact((SCALE - t) as int, SCALE as int);
                lemma_mul_bound(SKY_X as int, t as int, SKY_X as int, SCALE as int);
                lemma_mul_bound(SKY_Y as int, t as int, SKY_Y as int, SCALE as int);
                lemma_mul_bound(SKY_Z as int, t as int, SKY_Z as int, SCALE as int);
                lemma_div_trunc_bounded(SKY_X * t, SCALE as int, SKY_X as int);
                lemma_div_trunc_bounded(SKY_Y * t, SCALE as int, SKY_Y as int);
                lemma_div_trunc_bounded(SKY_Z * t, SCALE as int, SKY_Z as int);
                lemma_mul_bound(SKY_X as int, t as int, SCALE as int, t as int);
                lemma_mul_bound(SKY_Y as int, t as int, SCALE as int, t as int);
                lemma_mul_bound(SKY_Z as int, t as int, SCALE as int, t as int);
                lemma_div_trunc_bounded(SKY_X * t, SCALE as int, t as int);
                lemma_div_trunc_bounded(SKY_Y * t, SCALE as int, t as int);
                lemma_div_trunc_bounded(SKY_Z * t, SCALE as int, t as int);
                lemma_div_trunc_sign(SKY_X * t, SCALE as int);
                lemma_div_trunc_sign(SKY_Y * t, SCALE as int);
                lemma_div_trunc_sign(SKY_Z * t, SCALE as int);
                assert(SKY_X * t >= 0 && SKY_Y * t >= 0 && SKY_Z * t >= 0) by (nonlinear_arith)
                    requires
                        t >= 0;
            }
            let white = Vec3::new(SCALE, SCALE, SCALE);
            let sky = Vec3::new(SKY_X, SKY_Y, SKY_Z);
            let faded_white = white.mul(SCALE - t);
            let faded_sky = sky.mul(t);
            let blended = faded_white.add(&faded_sky);
            proof {
                assert(color_of(objs, *ray, depth as nat, blended));
            }
            blended
        },
    }
}

} // verus!
