// Signed distance fields: primitives, combinators and the normal estimate.
use vstd::prelude::*;
use crate::affine::{
    affine_apply, affine_inverse, lemma_translation_inverse, translation_spec, Affine,
};
use crate::fixed::{
    clamp_spec, clamp_wide, div_trunc, div_trunc_spec, floor_sqrt, fx_add, fx_mul, in_range,
    lemma_div_trunc_bound, lemma_floor_sqrt_unique, mul_spec, LIMIT, SCALE,
};
use crate::vector::{
    dot_spec, is_unit, axis_coord, axis_point, lemma_axis_norm, lemma_normalize_axis, length_spec,
    norm_sq, max_spec, min_spec, v_abs, v_add, v_div, v_max_zero, v_normalize, v_sub, vec3, Vec3,
};

verus! {

/// Offset used for the central differences of the normal estimate (0.01).
pub const NORMAL_EPSILON: i64 = 10_000;

/// A signed distance field: negative inside a surface, zero on it, positive outside.
pub trait DistanceFn: Sized {
    /// The parameters of the field are usable.
    spec fn valid(&self) -> bool;

    /// The signed distance from `p` to the surface.
    spec fn distance(&self, p: Vec3) -> int;

    fn eval(&self, point: Vec3) -> (r: i64)
        requires
            self.valid(),
            point.wf(),
        ensures
            r as int == self.distance(point),
            in_range(r as int),
    ;

    /// The surface normal at `point`, by central differences along each axis.
    fn eval_normal(&self, point: Vec3) -> (r: Vec3)
        requires
            self.valid(),
            point.wf(),
        ensures
            r == v_normalize(
                vec3(
                    self.distance(v_add(point, vec3(NORMAL_EPSILON as int, 0, 0))) - self.distance(
                        v_sub(point, vec3(NORMAL_EPSILON as int, 0, 0)),
                    ),
                    self.distance(v_add(point, vec3(0, NORMAL_EPSILON as int, 0))) - self.distance(
                        v_sub(point, vec3(0, NORMAL_EPSILON as int, 0)),
                    ),
                    self.distance(v_add(point, vec3(0, 0, NORMAL_EPSILON as int))) - self.distance(
                        v_sub(point, vec3(0, 0, NORMAL_EPSILON as int)),
                    ),
                ),
            ),
            r.wf(),
    {
        let ex = Vec3 { x: NORMAL_EPSILON, y: 0, z: 0 };
        let ey = Vec3 { x: 0, y: NORMAL_EPSILON, z: 0 };
        let ez = Vec3 { x: 0, y: 0, z: NORMAL_EPSILON };
        let dx = fx_add(self.eval(point.add(&ex)), -self.eval(point.sub(&ex)));
        let dy = fx_add(self.eval(point.add(&ey)), -self.eval(point.sub(&ey)));
        let dz = fx_add(self.eval(point.add(&ez)), -self.eval(point.sub(&ez)));
        let g = Vec3 { x: dx, y: dy, z: dz };
        g.normalize()
    }
}

/// A distance field built from primitives and combinators.
#[derive(Debug)]
pub enum Sdf {
    /// Sphere of the given radius about the origin.
    Sphere { radius: i64 },
    /// Axis-aligned box about the origin with the given half extents.
    Cuboid { half: Vec3 },
    /// Half space below the plane through the origin with the given unit normal.
    Plane { normal: Vec3 },
    /// `inner` seen through an affine map: it is evaluated at the image of the
    /// point under `inverse`.
    Transform { inner: Box<Sdf>, inverse: Affine },
    /// `inner` moved by `offset`.
    Translate { inner: Box<Sdf>, offset: Vec3 },
    /// `inner` scaled uniformly by the positive `factor`.
    Scale { inner: Box<Sdf>, factor: i64 },
    /// Points inside either field.
    Union { a: Box<Sdf>, b: Box<Sdf> },
    /// Points inside both fields.
    Intersection { a: Box<Sdf>, b: Box<Sdf> },
    /// `b` with `a` carved out of it.
    Difference { a: Box<Sdf>, b: Box<Sdf> },
    /// Union of the two fields with the seam rounded over `blend`.
    SmoothUnion { a: Box<Sdf>, b: Box<Sdf>, blend: i64 },
}

/// The parameters of every node are in range; factors and blends are positive.
pub open spec fn sdf_valid(s: Sdf) -> bool
    decreases s,
{
    match s {
        Sdf::Sphere { radius } => in_range(radius as int),
        Sdf::Cuboid { half } => half.wf(),
        Sdf::Plane { normal } => normal.wf() && is_unit(normal),
        Sdf::Transform { inner, inverse } => inverse.wf() && sdf_valid(*inner),
        Sdf::Translate { inner, offset } => offset.wf() && sdf_valid(*inner),
        Sdf::Scale { inner, factor } => 0 < factor && in_range(factor as int) && sdf_valid(*inner),
        Sdf::Union { a, b } => sdf_valid(*a) && sdf_valid(*b),
        Sdf::Intersection { a, b } => sdf_valid(*a) && sdf_valid(*b),
        Sdf::Difference { a, b } => sdf_valid(*a) && sdf_valid(*b),
        Sdf::SmoothUnion { a, b, blend } => 0 < blend && in_range(blend as int) && sdf_valid(*a)
            && sdf_valid(*b),
    }
}

/// The exact box distance: outside part plus the (non-positive) inside part.
pub open spec fn box_distance(half: Vec3, p: Vec3) -> int {
    let q = v_sub(v_abs(p), half);
    clamp_spec(
        length_spec(v_max_zero(q)) + min_spec(
            max_spec(q.x as int, max_spec(q.y as int, q.z as int)),
            0,
        ),
    )
}

/// Linear interpolation from `from` to `to` by the fixed-point fraction `t`.
pub open spec fn lerp_spec(from: int, to: int, t: int) -> int {
    from + div_trunc_spec((to - from) * t, SCALE as int)
}

/// The blend weight of the smooth union, a fraction in `[0, SCALE]`.
pub open spec fn blend_weight(d1: int, d2: int, blend: int) -> int {
    let h = SCALE / 2 + div_trunc_spec((d2 - d1) * (SCALE / 2), blend);
    if h < 0 {
        0
    } else if h > SCALE {
        SCALE as int
    } else {
        h
    }
}

pub open spec fn smooth_union_spec(d1: int, d2: int, blend: int) -> int {
    let h = blend_weight(d1, d2, blend);
    clamp_spec(
        lerp_spec(d2, d1, h) - div_trunc_spec(blend * h * (SCALE - h), SCALE * SCALE),
    )
}

/// The signed distance of `s` at `p`.
pub open spec fn sdf_distance(s: Sdf, p: Vec3) -> int
    decreases s,
{
    match s {
        Sdf::Sphere { radius } => clamp_spec(length_spec(p) - radius),
        Sdf::Cuboid { half } => box_distance(half, p),
        Sdf::Plane { normal } => dot_spec(p, normal),
        Sdf::Transform { inner, inverse } => sdf_distance(*inner, affine_apply(inverse, p)),
        Sdf::Translate { inner, offset } => sdf_distance(*inner, v_sub(p, offset)),
        Sdf::Scale { inner, factor } => mul_spec(
            sdf_distance(*inner, v_div(p, factor as int)),
            factor as int,
        ),
        Sdf::Union { a, b } => min_spec(sdf_distance(*a, p), sdf_distance(*b, p)),
        Sdf::Intersection { a, b } => max_spec(sdf_distance(*a, p), sdf_distance(*b, p)),
        Sdf::Difference { a, b } => max_spec(-sdf_distance(*a, p), sdf_distance(*b, p)),
        Sdf::SmoothUnion { a, b, blend } => smooth_union_spec(
            sdf_distance(*a, p),
            sdf_distance(*b, p),
            blend as int,
        ),
    }
}

pub proof fn lemma_distance_in_range(s: Sdf, p: Vec3)
    requires
        sdf_valid(s),
        p.wf(),
    ensures
        in_range(sdf_distance(s, p)),
    decreases s,
{
    match s {
        Sdf::Transform { inner, inverse } => lemma_distance_in_range(
            *inner,
            affine_apply(inverse, p),
        ),
        Sdf::Translate { inner, offset } => lemma_distance_in_range(*inner, v_sub(p, offset)),
        Sdf::Scale { inner, factor } => lemma_distance_in_range(*inner, v_div(p, factor as int)),
        Sdf::Union { a, b } => {
            lemma_distance_in_range(*a, p);
            lemma_distance_in_range(*b, p);
        },
        Sdf::Intersection { a, b } => {
            lemma_distance_in_range(*a, p);
            lemma_distance_in_range(*b, p);
        },
        Sdf::Difference { a, b } => {
            lemma_distance_in_range(*a, p);
            lemma_distance_in_range(*b, p);
        },
        _ => {},
    }
}

/// Linear interpolation from `from` to `to` by the fixed-point fraction `t`.
fn lerp(from: i64, to: i64, t: i64) -> (r: i128)
    requires
        in_range(from as int),
        in_range(to as int),
        0 <= t <= SCALE,
    ensures
        r as int == lerp_spec(from as int, to as int, t as int),
        -3 * LIMIT <= r <= 3 * LIMIT,
{
    let diff: i128 = to as i128 - from as i128;
    assert(-2 * LIMIT * SCALE <= diff * t <= 2 * LIMIT * SCALE) by (nonlinear_arith)
        requires -2 * LIMIT <= diff <= 2 * LIMIT, 0 <= t <= SCALE;
    proof {
        lemma_div_trunc_bound(diff * t, SCALE as int, 2 * LIMIT as int);
    }
    from as i128 + div_trunc(diff * t as i128, SCALE as i128)
}

fn smooth_union_value(d1: i64, d2: i64, blend: i64) -> (r: i64)
    requires
        in_range(d1 as int),
        in_range(d2 as int),
        0 < blend,
        in_range(blend as int),
    ensures
        r as int == smooth_union_spec(d1 as int, d2 as int, blend as int),
{
    let diff: i128 = d2 as i128 - d1 as i128;
    assert(-LIMIT * SCALE <= diff * (SCALE / 2) <= LIMIT * SCALE) by (nonlinear_arith)
        requires -2 * LIMIT <= diff <= 2 * LIMIT;
    let mut h: i128 = SCALE as i128 / 2 + div_trunc(diff * (SCALE as i128 / 2), blend as i128);
    if h < 0 {
        h = 0;
    } else if h > SCALE as i128 {
        h = SCALE as i128;
    }
    let l = lerp(d2, d1, h as i64);
    assert(0 <= blend * h <= LIMIT * SCALE) by (nonlinear_arith)
        requires 0 <= h <= SCALE, 0 < blend <= LIMIT;
    let bh: i128 = blend as i128 * h;
    assert(0 <= bh * (SCALE - h) <= LIMIT * SCALE * SCALE) by (nonlinear_arith)
        requires 0 <= h <= SCALE, 0 < blend <= LIMIT, bh == blend * h;
    let corner: i128 = div_trunc(bh * (SCALE as i128 - h), SCALE as i128 * SCALE as i128);
    proof {
        lemma_div_trunc_bound(bh * (SCALE - h), SCALE * SCALE, LIMIT as int);
    }
    clamp_wide(l - corner)
}

/// The signed distance of `s` at `p`.
fn sdf_eval(s: &Sdf, p: Vec3) -> (r: i64)
    requires
        sdf_valid(*s),
        p.wf(),
    ensures
        r as int == sdf_distance(*s, p),
    decreases s,
{
    proof {
        lemma_distance_in_range(*s, p);
    }
    match s {
        Sdf::Sphere { radius } => clamp_wide(p.length() as i128 - *radius as i128),
        Sdf::Cuboid { half } => {
            let q = p.abs().sub(half);
            let outside = q.max_zero().length();
            let m: i64 = if q.y >= q.z { q.y } else { q.z };
            let m: i64 = if q.x >= m { q.x } else { m };
            let inside: i64 = if m <= 0 { m } else { 0 };
            clamp_wide(outside as i128 + inside as i128)
        },
        Sdf::Plane { normal } => p.dot(normal),
        Sdf::Transform { inner, inverse } => sdf_eval(inner, inverse.transform_point(&p)),
        Sdf::Translate { inner, offset } => sdf_eval(inner, p.sub(offset)),
        Sdf::Scale { inner, factor } => {
            let d = sdf_eval(inner, p.div(*factor));
            proof {
                lemma_distance_in_range(**inner, v_div(p, *factor as int));
            }
            fx_mul(d, *factor)
        },
        Sdf::Union { a, b } => {
            let da = sdf_eval(a, p);
            let db = sdf_eval(b, p);
            if da <= db { da } else { db }
        },
        Sdf::Intersection { a, b } => {
            let da = sdf_eval(a, p);
            let db = sdf_eval(b, p);
            if da >= db { da } else { db }
        },
        Sdf::Difference { a, b } => {
            let da = sdf_eval(a, p);
            let db = sdf_eval(b, p);
            proof {
                lemma_distance_in_range(**a, p);
            }
            if -da >= db { -da } else { db }
        },
        Sdf::SmoothUnion { a, b, blend } => {
            let da = sdf_eval(a, p);
            let db = sdf_eval(b, p);
            proof {
                lemma_distance_in_range(**a, p);
                lemma_distance_in_range(**b, p);
            }
            smooth_union_value(da, db, *blend)
        },
    }
}

impl DistanceFn for Sdf {
    open spec fn valid(&self) -> bool {
        sdf_valid(*self)
    }

    open spec fn distance(&self, p: Vec3) -> int {
        sdf_distance(*self, p)
    }

    fn eval(&self, point: Vec3) -> (r: i64) {
        proof {
            lemma_distance_in_range(*self, point);
        }
        sdf_eval(self, point)
    }
}

/// A sphere of the given radius about the origin.
pub fn sd_sphere(radius: i64) -> (r: Sdf)
    ensures
        r == (Sdf::Sphere { radius }),
{
    Sdf::Sphere { radius }
}

/// An axis-aligned box about the origin with the given half extents.
pub fn sd_box(size: Vec3) -> (r: Sdf)
    ensures
        r == (Sdf::Cuboid { half: size }),
{
    Sdf::Cuboid { half: size }
}

impl Sdf {
    /// The half space below the plane through the origin with unit normal `normal`.
    pub fn plane(normal: Vec3) -> (r: Sdf)
        ensures
            r == (Sdf::Plane { normal }),
    {
        Sdf::Plane { normal }
    }

    /// This field moved by the affine map `transform`: it is evaluated at the
    /// image of the point under the inverse map.
    pub fn transform(self, transform: Affine) -> (r: Sdf)
        requires
            transform.invertible(),
        ensures
            r == (Sdf::Transform { inner: Box::new(self), inverse: affine_inverse(transform) }),
    {
        Sdf::Transform { inner: Box::new(self), inverse: transform.inverse() }
    }

    /// This field moved by `translation`: it is evaluated at `p - translation`.
    pub fn translate(self, translation: Vec3) -> (r: Sdf)
        ensures
            r == (Sdf::Translate { inner: Box::new(self), offset: translation }),
    {
        Sdf::Translate { inner: Box::new(self), offset: translation }
    }

    /// This field scaled by `scale`: it is evaluated at `p / scale`, the result
    /// multiplied by `scale`.
    pub fn scale(self, scale: i64) -> (r: Sdf)
        ensures
            r == (Sdf::Scale { inner: Box::new(self), factor: scale }),
    {
        Sdf::Scale { inner: Box::new(self), factor: scale }
    }

    pub fn union(self, other: Sdf) -> (r: Sdf)
        ensures
            r == (Sdf::Union { a: Box::new(self), b: Box::new(other) }),
    {
        Sdf::Union { a: Box::new(self), b: Box::new(other) }
    }

    pub fn intersection(self, other: Sdf) -> (r: Sdf)
        ensures
            r == (Sdf::Intersection { a: Box::new(self), b: Box::new(other) }),
    {
        Sdf::Intersection { a: Box::new(self), b: Box::new(other) }
    }

    /// `other` with this field carved out of it.
    pub fn difference(self, other: Sdf) -> (r: Sdf)
        ensures
            r == (Sdf::Difference { a: Box::new(self), b: Box::new(other) }),
    {
        Sdf::Difference { a: Box::new(self), b: Box::new(other) }
    }

    /// The union with `other`, rounded over a blend radius of `factor`.
    pub fn smooth_union(self, factor: i64, other: Sdf) -> (r: Sdf)
        ensures
            r == (Sdf::SmoothUnion { a: Box::new(self), b: Box::new(other), blend: factor }),
    {
        Sdf::SmoothUnion { a: Box::new(self), b: Box::new(other), blend: factor }
    }
}

/// The normal that `eval_normal` estimates for `f` at `p`.
pub open spec fn normal_of<F: DistanceFn>(f: &F, p: Vec3) -> Vec3 {
    let e = NORMAL_EPSILON as int;
    v_normalize(
        vec3(
            f.distance(v_add(p, vec3(e, 0, 0))) - f.distance(v_sub(p, vec3(e, 0, 0))),
            f.distance(v_add(p, vec3(0, e, 0))) - f.distance(v_sub(p, vec3(0, e, 0))),
            f.distance(v_add(p, vec3(0, 0, e))) - f.distance(v_sub(p, vec3(0, 0, e))),
        ),
    )
}

/// A non-negative `d` is the integer root of `d * d`.
pub proof fn lemma_root_of_square(d: int)
    requires
        d >= 0,
    ensures
        floor_sqrt((d * d) as nat) == d,
{
    assert(d * d <= d * d < (d + 1) * (d + 1)) by (nonlinear_arith)
        requires d >= 0;
    lemma_floor_sqrt_unique((d * d) as nat, d as nat);
}

/// At its centre a sphere's field is minus its radius.
pub proof fn lemma_sphere_at_center(radius: i64)
    requires
        in_range(radius as int),
    ensures
        sdf_distance(sd_sphere_spec(radius), vec3(0, 0, 0)) == -radius,
{
    lemma_root_of_square(0);
    assert(norm_sq(vec3(0, 0, 0)) == 0);
}

/// A sphere's field at a point `d` away from the centre is `d` minus the radius,
/// wherever that value is representable.
pub proof fn lemma_sphere_at_distance(radius: i64, p: Vec3, d: int)
    requires
        in_range(radius as int),
        p.wf(),
        0 <= d <= LIMIT,
        norm_sq(p) == d * d,
        in_range(d - radius),
    ensures
        sdf_distance(sd_sphere_spec(radius), p) == d - radius,
{
    lemma_root_of_square(d);
}

pub open spec fn sd_sphere_spec(radius: i64) -> Sdf {
    Sdf::Sphere { radius }
}

/// A union is the smaller of its two fields, everywhere.
pub proof fn lemma_union(a: Sdf, b: Sdf, p: Vec3)
    ensures
        sdf_distance(Sdf::Union { a: Box::new(a), b: Box::new(b) }, p) == min_spec(
            sdf_distance(a, p),
            sdf_distance(b, p),
        ),
{
}

/// An intersection is the larger of its two fields, everywhere.
pub proof fn lemma_intersection(a: Sdf, b: Sdf, p: Vec3)
    ensures
        sdf_distance(Sdf::Intersection { a: Box::new(a), b: Box::new(b) }, p) == max_spec(
            sdf_distance(a, p),
            sdf_distance(b, p),
        ),
{
}

/// A difference is the larger of the negated first field and the second, everywhere.
pub proof fn lemma_difference(a: Sdf, b: Sdf, p: Vec3)
    ensures
        sdf_distance(Sdf::Difference { a: Box::new(a), b: Box::new(b) }, p) == max_spec(
            -sdf_distance(a, p),
            sdf_distance(b, p),
        ),
{
}

/// The offset `e` along coordinate `j` (x, y, z).
pub open spec fn offset_along(j: int, e: int) -> Vec3 {
    vec3(
        if j == 0 { e } else { 0 },
        if j == 1 { e } else { 0 },
        if j == 2 { e } else { 0 },
    )
}

/// The central difference of a sphere's field along coordinate `j`, at the point
/// where the sphere crosses axis direction `k`.
proof fn lemma_sphere_difference(radius: i64, k: int, j: int)
    requires
        0 <= k < 6,
        0 <= j < 3,
        NORMAL_EPSILON <= radius,
        radius + NORMAL_EPSILON <= LIMIT,
    ensures
        sdf_distance(
            sd_sphere_spec(radius),
            v_add(axis_point(k, radius as int), offset_along(j, NORMAL_EPSILON as int)),
        ) - sdf_distance(
            sd_sphere_spec(radius),
            v_sub(axis_point(k, radius as int), offset_along(j, NORMAL_EPSILON as int)),
        ) == 2 * NORMAL_EPSILON * axis_coord(k, j),
{
    let r = radius as int;
    let e = NORMAL_EPSILON as int;
    let p = axis_point(k, r);
    let o = offset_along(j, e);
    let plus = v_add(p, o);
    let minus = v_sub(p, o);
    lemma_axis_norm(k, r);
    let c = axis_coord(k, j);
    let (cx, cy, cz) = (axis_coord(k, 0) * r, axis_coord(k, 1) * r, axis_coord(k, 2) * r);
    let (ox, oy, oz) = (o.x as int, o.y as int, o.z as int);
    vstd::arithmetic::mul::lemma_mul_basics(r);
    crate::vector::lemma_axis_coord_product(k, 0, r);
    crate::vector::lemma_axis_coord_product(k, 1, r);
    crate::vector::lemma_axis_coord_product(k, 2, r);
    assert(plus.x == cx + ox && plus.y == cy + oy && plus.z == cz + oz);
    assert(minus.x == cx - ox && minus.y == cy - oy && minus.z == cz - oz);
    assert(plus == Vec3 { x: (cx + ox) as i64, y: (cy + oy) as i64, z: (cz + oz) as i64 });
    assert(minus == Vec3 { x: (cx - ox) as i64, y: (cy - oy) as i64, z: (cz - oz) as i64 });
    crate::vector::lemma_norm_sq_of(plus, cx + ox, cy + oy, cz + oz);
    crate::vector::lemma_norm_sq_of(minus, cx - ox, cy - oy, cz - oz);
    if c == 0 {
        assert(cx * ox == 0 && cy * oy == 0 && cz * oz == 0) by (nonlinear_arith)
            requires
                (cx == 0 || ox == 0),
                (cy == 0 || oy == 0),
                (cz == 0 || oz == 0),
        ;
        assert(norm_sq(plus) == norm_sq(minus)) by (nonlinear_arith)
            requires
                norm_sq(plus) == (cx + ox) * (cx + ox) + (cy + oy) * (cy + oy) + (cz + oz) * (cz
                    + oz),
                norm_sq(minus) == (cx - ox) * (cx - ox) + (cy - oy) * (cy - oy) + (cz - oz) * (cz
                    - oz),
                cx * ox == 0,
                cy * oy == 0,
                cz * oz == 0,
        ;
    } else {
        let up = r + c * e;
        let down = r - c * e;
        assert(norm_sq(plus) == up * up) by (nonlinear_arith)
            requires
                norm_sq(plus) == (cx + ox) * (cx + ox) + (cy + oy) * (cy + oy) + (cz + oz) * (cz
                    + oz),
                (j == 0 && cy == 0 && cz == 0 && oy == 0 && oz == 0 && cx == c * r && ox == e)
                    || (j == 1 && cx == 0 && cz == 0 && ox == 0 && oz == 0 && cy == c * r && oy
                    == e) || (j == 2 && cx == 0 && cy == 0 && ox == 0 && oy == 0 && cz == c * r
                    && oz == e),
                c == 1 || c == -1,
                up == r + c * e,
        ;
        assert(norm_sq(minus) == down * down) by (nonlinear_arith)
            requires
                norm_sq(minus) == (cx - ox) * (cx - ox) + (cy - oy) * (cy - oy) + (cz - oz) * (cz
                    - oz),
                (j == 0 && cy == 0 && cz == 0 && oy == 0 && oz == 0 && cx == c * r && ox == e)
                    || (j == 1 && cx == 0 && cz == 0 && ox == 0 && oz == 0 && cy == c * r && oy
                    == e) || (j == 2 && cx == 0 && cy == 0 && ox == 0 && oy == 0 && cz == c * r
                    && oz == e),
                c == 1 || c == -1,
                down == r - c * e,
        ;
        lemma_root_of_square(up);
        lemma_root_of_square(down);
    }
}

/// On the sphere's surface where it crosses any of the six axis directions, the
/// estimated normal is the outward unit vector of that direction.
pub proof fn lemma_sphere_normal_on_axis(radius: i64, k: int)
    requires
        0 <= k < 6,
        NORMAL_EPSILON <= radius,
        radius + NORMAL_EPSILON <= LIMIT,
    ensures
        normal_of(&sd_sphere_spec(radius), axis_point(k, radius as int)) == axis_point(
            k,
            SCALE as int,
        ),
{
    let e = NORMAL_EPSILON as int;
    assert(vec3(e, 0, 0) == offset_along(0, e));
    assert(vec3(0, e, 0) == offset_along(1, e));
    assert(vec3(0, 0, e) == offset_along(2, e));
    lemma_sphere_difference(radius, k, 0);
    lemma_sphere_difference(radius, k, 1);
    lemma_sphere_difference(radius, k, 2);
    assert(2 * NORMAL_EPSILON * axis_coord(k, 0) == axis_coord(k, 0) * (2 * e)) by (nonlinear_arith)
        requires e == NORMAL_EPSILON;
    assert(2 * NORMAL_EPSILON * axis_coord(k, 1) == axis_coord(k, 1) * (2 * e)) by (nonlinear_arith)
        requires e == NORMAL_EPSILON;
    assert(2 * NORMAL_EPSILON * axis_coord(k, 2) == axis_coord(k, 2) * (2 * e)) by (nonlinear_arith)
        requires e == NORMAL_EPSILON;
    lemma_axis_norm(k, 2 * e);
    assert(vec3(
        2 * NORMAL_EPSILON * axis_coord(k, 0),
        2 * NORMAL_EPSILON * axis_coord(k, 1),
        2 * NORMAL_EPSILON * axis_coord(k, 2),
    ) == axis_point(k, 2 * e));
    lemma_normalize_axis(k, 2 * e);
}

/// Moving a field by a translation map gives the same field as translating it.
pub proof fn lemma_translate_is_transform(s: Sdf, t: Vec3, p: Vec3)
    requires
        t.wf(),
        p.wf(),
    ensures
        translation_spec(t).invertible(),
        sdf_distance(
            Sdf::Transform { inner: Box::new(s), inverse: affine_inverse(translation_spec(t)) },
            p,
        ) == sdf_distance(Sdf::Translate { inner: Box::new(s), offset: t }, p),
{
    lemma_translation_inverse(t, p);
}

} // verus!
