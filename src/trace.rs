// Rays and the sphere tracer.
use vstd::prelude::*;
use crate::fixed::{clamp_spec, clamp_wide, div_ceil, div_ceil_spec, div_trunc_spec, in_range, LIMIT, SCALE};
use crate::sdf::{
    lemma_root_of_square, lemma_sphere_normal_on_axis, normal_of, sd_sphere_spec, DistanceFn,
    NORMAL_EPSILON,
};
use crate::vector::{
    axis_coord, axis_point, lemma_axis_coord_product, lemma_axis_norm, min_spec, v_add, v_normalize,
    v_scale, v_sub, Vec3,
};

verus! {

/// A step shorter than this (0.00001) counts as reaching the surface.
pub const HIT_THRESHOLD: i64 = 10;

/// A step longer than this (10^10) counts as escaping the scene.
pub const ESCAPE_DISTANCE: i64 = 10_000_000_000_000_000;

/// The most steps a ray takes before it is given up as a miss.
pub const MAX_STEPS: usize = 100;

/// Where a ray met a surface.
#[derive(Clone, Copy, Debug, PartialEq, Eq, Structural)]
pub struct RayHit {
    /// Total distance travelled along the ray.
    pub distance: i64,
    pub position: Vec3,
    /// Estimated unit normal of the surface at `position`.
    pub normal: Vec3,
}

/// A half line from `origin` along the unit vector `direction`.
#[derive(Clone, Copy, Debug, PartialEq, Eq, Structural)]
pub struct Ray {
    pub origin: Vec3,
    pub direction: Vec3,
}

/// The occlusion estimate after a step of length `d` with `total` travelled so far:
/// the closest relative approach `8 * d / total`, rounded up, never above the
/// previous estimate.
pub open spec fn next_occlusion(occ: int, d: int, total: int) -> int {
    if total > 0 {
        min_spec(occ, clamp_spec(div_ceil_spec(8 * d * SCALE, total)))
    } else {
        occ
    }
}

/// Sphere tracing of `f` from `pos` along `dir`, with `total` travelled so far,
/// occlusion estimate `occ` and at most `steps` steps left.
pub open spec fn march<F: DistanceFn>(
    f: &F,
    dir: Vec3,
    pos: Vec3,
    total: int,
    occ: int,
    steps: nat,
) -> Result<RayHit, i64>
    decreases steps,
{
    if steps == 0 {
        Err(occ as i64)
    } else {
        let d = f.distance(pos);
        let occ2 = next_occlusion(occ, d, total);
        let total2 = clamp_spec(total + d);
        if d < HIT_THRESHOLD {
            Ok(RayHit { distance: total2 as i64, position: pos, normal: normal_of(f, pos) })
        } else if d > ESCAPE_DISTANCE {
            Err(occ2 as i64)
        } else {
            march(f, dir, v_add(pos, v_scale(dir, d)), total2, occ2, (steps - 1) as nat)
        }
    }
}

/// What tracing `ray` against `f` yields.
pub open spec fn trace_spec<F: DistanceFn>(ray: Ray, f: &F) -> Result<RayHit, i64> {
    march(f, ray.direction, ray.origin, 0, SCALE as int, MAX_STEPS as nat)
}

impl Ray {
    pub open spec fn wf(self) -> bool {
        self.origin.wf() && self.direction.wf()
    }

    /// The ray from `start` through `through`.
    pub fn from_points(start: Vec3, through: Vec3) -> (r: Ray)
        requires
            start.wf(),
            through.wf(),
        ensures
            r == (Ray { origin: start, direction: v_normalize(v_sub(through, start)) }),
            r.wf(),
    {
        Ray { origin: start, direction: through.sub(&start).normalize() }
    }

    /// Moves the origin `distance` along the direction.
    fn advance(&mut self, distance: i64)
        requires
            old(self).wf(),
            in_range(distance as int),
        ensures
            final(self).origin == v_add(old(self).origin, v_scale(old(self).direction, distance as int)),
            final(self).direction == old(self).direction,
            final(self).wf(),
    {
        self.origin = self.origin.add(&self.direction.scale(distance));
    }

    /// Sphere-traces this ray against `sdf`: `Ok` with the hit where the ray
    /// converges on the surface, otherwise `Err` with the occlusion estimate.
    pub fn hit<F: DistanceFn>(&self, sdf: &F) -> (r: Result<RayHit, i64>)
        requires
            self.wf(),
            sdf.valid(),
        ensures
            r == trace_spec(*self, sdf),
            r is Ok ==> r->Ok_0.position.wf() && r->Ok_0.normal.wf(),
            r is Err ==> 0 < r->Err_0 <= SCALE,
    {
        let mut ray = *self;
        let mut total: i64 = 0;
        let mut occlusion: i64 = SCALE;
        let mut iteration: usize = 0;
        while iteration < MAX_STEPS
            invariant
                ray.wf(),
                ray.direction == self.direction,
                sdf.valid(),
                in_range(total as int),
                0 < occlusion <= SCALE,
                iteration <= MAX_STEPS,
                trace_spec(*self, sdf) == march(
                    sdf,
                    ray.direction,
                    ray.origin,
                    total as int,
                    occlusion as int,
                    (MAX_STEPS - iteration) as nat,
                ),
            decreases MAX_STEPS - iteration,
        {
            let distance = sdf.eval(ray.origin);
            let mut next: i64 = occlusion;
            if total > 0 {
                let q = clamp_wide(div_ceil(8 * distance as i128 * SCALE as i128, total as i128));
                if q < next {
                    next = q;
                }
            }
            total = clamp_wide(total as i128 + distance as i128);
            if distance < HIT_THRESHOLD {
                let normal = sdf.eval_normal(ray.origin);
                return Ok(RayHit { distance: total, position: ray.origin, normal });
            }
            occlusion = next;
            if distance > ESCAPE_DISTANCE {
                return Err(occlusion);
            }
            ray.advance(distance);
            iteration = iteration + 1;
        }
        Err(occlusion)
    }
}

/// The ray from `distance` along axis direction `k` back towards the origin.
pub open spec fn axis_ray(k: int, distance: i64) -> Ray {
    Ray { origin: axis_point(k, distance as int), direction: axis_point(k, -SCALE) }
}

/// One step of length `d` against a coordinate `c` of a unit axis direction.
proof fn lemma_unit_step(c: int, d: int)
    requires
        c == 0 || c == 1 || c == -1,
        d >= 0,
    ensures
        div_trunc_spec((c * -SCALE) * d, SCALE as int) == -(c * d),
{
    vstd::arithmetic::div_mod::lemma_div_by_multiple(d, SCALE as int);
    assert(SCALE * d == d * SCALE) by (nonlinear_arith);
    if c == 1 {
        assert((c * -SCALE) * d == -(d * SCALE)) by (nonlinear_arith)
            requires c == 1;
    } else if c == -1 {
        assert((c * -SCALE) * d == d * SCALE) by (nonlinear_arith)
            requires c == -1;
    } else {
        assert((c * -SCALE) * d == 0) by (nonlinear_arith)
            requires c == 0;
    }
}

/// The first step of an axis ray lands on the sphere's surface.
proof fn lemma_axis_step(k: int, distance: i64, radius: i64)
    requires
        0 <= k < 6,
        0 <= radius <= distance <= LIMIT,
    ensures
        v_add(
            axis_ray(k, distance).origin,
            v_scale(axis_ray(k, distance).direction, distance - radius),
        ) == axis_point(k, radius as int),
{
    let d = distance - radius;
    let dir = axis_ray(k, distance).direction;
    let start = axis_ray(k, distance).origin;
    let surface = axis_point(k, radius as int);
    lemma_axis_coord_component(k, 0, distance as int, radius as int, d);
    lemma_axis_coord_component(k, 1, distance as int, radius as int, d);
    lemma_axis_coord_component(k, 2, distance as int, radius as int, d);
    let step = v_scale(dir, d);
    assert(step.x == -(axis_coord(k, 0) * d));
    assert(step.y == -(axis_coord(k, 1) * d));
    assert(step.z == -(axis_coord(k, 2) * d));
}

proof fn lemma_axis_coord_component(k: int, j: int, distance: int, radius: int, d: int)
    requires
        0 <= k < 6,
        0 <= radius <= distance <= LIMIT,
        d == distance - radius,
    ensures
        in_range(axis_coord(k, j) * -SCALE),
        in_range(axis_coord(k, j) * distance),
        in_range(axis_coord(k, j) * radius),
        in_range(axis_coord(k, j) * d),
        div_trunc_spec((axis_coord(k, j) * -SCALE) * d, SCALE as int) == -(axis_coord(k, j) * d),
        axis_coord(k, j) * distance - axis_coord(k, j) * d == axis_coord(k, j) * radius,
{
    let c = axis_coord(k, j);
    lemma_axis_coord_product(k, j, -SCALE);
    lemma_axis_coord_product(k, j, distance);
    lemma_axis_coord_product(k, j, radius);
    lemma_axis_coord_product(k, j, d);
    lemma_unit_step(c, d);
    assert(c * distance - c * d == c * radius) by (nonlinear_arith)
        requires d == distance - radius;
}

/// A ray fired along any of the six axis directions from `distance` at a sphere
/// of `radius` about the origin converges after travelling exactly
/// `distance - radius`; when it took a step, it stops on the sphere where the
/// axis crosses it, with the outward axis direction as normal.
pub proof fn lemma_axis_ray_hits_sphere(radius: i64, distance: i64, k: int)
    requires
        0 <= k < 6,
        0 <= radius <= distance <= LIMIT,
        distance - radius <= ESCAPE_DISTANCE,
    ensures
        trace_spec(axis_ray(k, distance), &sd_sphere_spec(radius)) is Ok,
        trace_spec(axis_ray(k, distance), &sd_sphere_spec(radius))->Ok_0.distance == distance
            - radius,
        distance - radius >= HIT_THRESHOLD ==> trace_spec(
            axis_ray(k, distance),
            &sd_sphere_spec(radius),
        )->Ok_0.position == axis_point(k, radius as int),
        distance - radius >= HIT_THRESHOLD && NORMAL_EPSILON <= radius && radius + NORMAL_EPSILON
            <= LIMIT ==> trace_spec(axis_ray(k, distance), &sd_sphere_spec(radius))->Ok_0.normal
            == axis_point(k, SCALE as int),
{
    let s = sd_sphere_spec(radius);
    let ray = axis_ray(k, distance);
    let dir = ray.direction;
    let start = ray.origin;
    let d = distance - radius;
    lemma_axis_norm(k, distance as int);
    lemma_root_of_square(distance as int);
    assert(s.distance(start) == d);
    let surface = axis_point(k, radius as int);
    lemma_axis_step(k, distance, radius);
    lemma_axis_norm(k, radius as int);
    lemma_root_of_square(radius as int);
    assert(s.distance(surface) == 0);
    if d >= HIT_THRESHOLD {
        assert(march(&s, dir, surface, d, next_occlusion(SCALE as int, d, 0), 99) is Ok);
        if NORMAL_EPSILON <= radius && radius + NORMAL_EPSILON <= LIMIT {
            lemma_sphere_normal_on_axis(radius, k);
        }
    }
}

/// One outward step of length `d` along a coordinate `c` of a unit axis direction,
/// from the coordinate `c * a`.
proof fn lemma_outward_component(c: int, a: int, d: int)
    requires
        c == 0 || c == 1 || c == -1,
        0 <= a <= LIMIT,
        0 <= d <= LIMIT,
    ensures
        in_range(c * SCALE),
        in_range(c * a),
        in_range(clamp_spec(div_trunc_spec((c * SCALE) * d, SCALE as int))),
        clamp_spec(div_trunc_spec((c * SCALE) * d, SCALE as int)) == c * d,
        clamp_spec(c * a + c * d) == c * clamp_spec(a + d),
{
    vstd::arithmetic::div_mod::lemma_div_by_multiple(d, SCALE as int);
    if c == 1 {
        assert((c * SCALE) * d == d * SCALE) by (nonlinear_arith)
            requires c == 1;
    } else if c == -1 {
        assert((c * SCALE) * d == -(d * SCALE)) by (nonlinear_arith)
            requires c == -1;
    } else {
        assert((c * SCALE) * d == 0) by (nonlinear_arith)
            requires c == 0;
    }
}

/// Marching outward along an axis from outside a sphere never reaches it.
proof fn lemma_march_outward(radius: i64, k: int, a: int, total: int, occ: int, steps: nat)
    requires
        0 <= k < 6,
        0 <= radius,
        radius + HIT_THRESHOLD <= a <= LIMIT,
    ensures
        march(&sd_sphere_spec(radius), axis_point(k, SCALE as int), axis_point(k, a), total, occ, steps)
            is Err,
    decreases steps,
{
    if steps > 0 {
        let s = sd_sphere_spec(radius);
        let pos = axis_point(k, a);
        let dir = axis_point(k, SCALE as int);
        lemma_axis_norm(k, a);
        lemma_root_of_square(a);
        let d = a - radius;
        assert(s.distance(pos) == d);
        if d <= ESCAPE_DISTANCE {
            let next = clamp_spec(a + d);
            lemma_outward_component(axis_coord(k, 0), a, d);
            lemma_outward_component(axis_coord(k, 1), a, d);
            lemma_outward_component(axis_coord(k, 2), a, d);
            let step = v_scale(dir, d);
            assert(step.x == axis_coord(k, 0) * d);
            assert(step.y == axis_coord(k, 1) * d);
            assert(step.z == axis_coord(k, 2) * d);
            assert(pos.x == axis_coord(k, 0) * a);
            assert(pos.y == axis_coord(k, 1) * a);
            assert(pos.z == axis_coord(k, 2) * a);
            assert(v_add(pos, step) == axis_point(k, next));
            lemma_march_outward(
                radius,
                k,
                next,
                clamp_spec(total + d),
                next_occlusion(occ, d, total),
                (steps - 1) as nat,
            );
        }
    }
}

/// A ray that starts outside a sphere about the origin, on one of the six axis
/// directions, and points further out along it, misses the sphere.
pub proof fn lemma_outward_axis_ray_misses(radius: i64, distance: i64, k: int)
    requires
        0 <= k < 6,
        0 <= radius,
        radius + HIT_THRESHOLD <= distance <= LIMIT,
    ensures
        trace_spec(
            Ray { origin: axis_point(k, distance as int), direction: axis_point(k, SCALE as int) },
            &sd_sphere_spec(radius),
        ) is Err,
{
    lemma_march_outward(radius, k, distance as int, 0, SCALE as int, MAX_STEPS as nat);
}

} // verus!
