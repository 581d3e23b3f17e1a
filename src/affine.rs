// Affine maps of space and their inverse by cofactors.
use vstd::prelude::*;
use vstd::arithmetic::div_mod::lemma_div_by_multiple;
use crate::fixed::{
    clamp_wide, div_trunc, div_trunc_spec, lemma_div_trunc_bound, lemma_mul_bound, LIMIT, SCALE,
};
use crate::vector::{v_sub, vec3, Vec3};

verus! {

/// Largest magnitude of a matrix entry that `Affine::inverse` accepts (10^6).
pub const AFFINE_BOUND: i64 = 1_000_000_000_000;

/// An affine map `p -> M p + translation`; the matrix `M` is given by its columns.
#[derive(Clone, Copy, Debug, PartialEq, Eq, Structural)]
pub struct Affine {
    pub x_axis: Vec3,
    pub y_axis: Vec3,
    pub z_axis: Vec3,
    pub translation: Vec3,
}

/// Row `k` of the matrix of `a` applied to `p`, exactly, in squared units.
pub open spec fn row_dot(a: Affine, k: int, p: Vec3) -> int {
    if k == 0 {
        a.x_axis.x * p.x + a.y_axis.x * p.y + a.z_axis.x * p.z
    } else if k == 1 {
        a.x_axis.y * p.x + a.y_axis.y * p.y + a.z_axis.y * p.z
    } else {
        a.x_axis.z * p.x + a.y_axis.z * p.y + a.z_axis.z * p.z
    }
}

/// The image of `p` under `a`.
pub open spec fn affine_apply(a: Affine, p: Vec3) -> Vec3 {
    vec3(
        div_trunc_spec(row_dot(a, 0, p), SCALE as int) + a.translation.x,
        div_trunc_spec(row_dot(a, 1, p), SCALE as int) + a.translation.y,
        div_trunc_spec(row_dot(a, 2, p), SCALE as int) + a.translation.z,
    )
}

/// Exact cross product, in squared units.
pub open spec fn cross_exact(a: Vec3, b: Vec3) -> (int, int, int) {
    (a.y * b.z - a.z * b.y, a.z * b.x - a.x * b.z, a.x * b.y - a.y * b.x)
}

/// The determinant of the matrix of `a`, in cubed units.
pub open spec fn determinant(a: Affine) -> int {
    let c = cross_exact(a.y_axis, a.z_axis);
    a.x_axis.x * c.0 + a.x_axis.y * c.1 + a.x_axis.z * c.2
}

/// Quotient rounded toward zero, for a divisor of either sign.
pub open spec fn quot_spec(a: int, b: int) -> int {
    if b > 0 {
        div_trunc_spec(a, b)
    } else {
        -div_trunc_spec(a, -b)
    }
}

/// An entry of the inverse matrix: a cofactor over the determinant.
pub open spec fn inverse_entry(cofactor: int, det: int) -> int {
    quot_spec(cofactor * SCALE * SCALE, det)
}

/// The inverse matrix by cofactors: its rows are the cross products of pairs of
/// columns over the determinant. The translation is carried over unchanged.
pub open spec fn inverse_linear(a: Affine) -> Affine {
    let d = determinant(a);
    let r0 = cross_exact(a.y_axis, a.z_axis);
    let r1 = cross_exact(a.z_axis, a.x_axis);
    let r2 = cross_exact(a.x_axis, a.y_axis);
    Affine {
        x_axis: vec3(inverse_entry(r0.0, d), inverse_entry(r1.0, d), inverse_entry(r2.0, d)),
        y_axis: vec3(inverse_entry(r0.1, d), inverse_entry(r1.1, d), inverse_entry(r2.1, d)),
        z_axis: vec3(inverse_entry(r0.2, d), inverse_entry(r1.2, d), inverse_entry(r2.2, d)),
        translation: a.translation,
    }
}

/// The inverse map: the inverse matrix, and minus its image of the translation.
pub open spec fn affine_inverse(a: Affine) -> Affine {
    let m = inverse_linear(a);
    let t = a.translation;
    Affine {
        translation: vec3(
            -div_trunc_spec(row_dot(m, 0, t), SCALE as int),
            -div_trunc_spec(row_dot(m, 1, t), SCALE as int),
            -div_trunc_spec(row_dot(m, 2, t), SCALE as int),
        ),
        ..m
    }
}

pub open spec fn bounded(v: Vec3) -> bool {
    -AFFINE_BOUND <= v.x <= AFFINE_BOUND && -AFFINE_BOUND <= v.y <= AFFINE_BOUND && -AFFINE_BOUND
        <= v.z <= AFFINE_BOUND
}

proof fn lemma_product_bound(a: int, b: int, ba: int, bb: int)
    requires
        -ba <= a <= ba,
        -bb <= b <= bb,
    ensures
        -ba * bb <= a * b <= ba * bb,
{
    assert(-ba * bb <= a * b <= ba * bb) by (nonlinear_arith)
        requires -ba <= a <= ba, -bb <= b <= bb;
}

/// Exact cross product of bounded vectors.
fn cross_wide(a: &Vec3, b: &Vec3) -> (r: (i128, i128, i128))
    requires
        bounded(*a),
        bounded(*b),
    ensures
        (r.0 as int, r.1 as int, r.2 as int) == cross_exact(*a, *b),
        -2 * AFFINE_BOUND * AFFINE_BOUND <= r.0 <= 2 * AFFINE_BOUND * AFFINE_BOUND,
        -2 * AFFINE_BOUND * AFFINE_BOUND <= r.1 <= 2 * AFFINE_BOUND * AFFINE_BOUND,
        -2 * AFFINE_BOUND * AFFINE_BOUND <= r.2 <= 2 * AFFINE_BOUND * AFFINE_BOUND,
{
    let ghost bd = AFFINE_BOUND as int;
    proof {
        lemma_product_bound(a.x as int, b.y as int, bd, bd);
        lemma_product_bound(a.x as int, b.z as int, bd, bd);
        lemma_product_bound(a.y as int, b.x as int, bd, bd);
        lemma_product_bound(a.y as int, b.z as int, bd, bd);
        lemma_product_bound(a.z as int, b.x as int, bd, bd);
        lemma_product_bound(a.z as int, b.y as int, bd, bd);
    }
    (
        a.y as i128 * b.z as i128 - a.z as i128 * b.y as i128,
        a.z as i128 * b.x as i128 - a.x as i128 * b.z as i128,
        a.x as i128 * b.y as i128 - a.y as i128 * b.x as i128,
    )
}

/// A cofactor over the determinant, as a clamped fixed-point entry.
fn inverse_value(cofactor: i128, det: i128) -> (r: i64)
    requires
        -2 * AFFINE_BOUND * AFFINE_BOUND <= cofactor <= 2 * AFFINE_BOUND * AFFINE_BOUND,
        det != 0,
        det > i128::MIN,
    ensures
        r == vec3(inverse_entry(cofactor as int, det as int), 0, 0).x,
{
    let s: i128 = SCALE as i128;
    assert(-2 * AFFINE_BOUND * AFFINE_BOUND * SCALE * SCALE <= cofactor * SCALE * SCALE
        <= 2 * AFFINE_BOUND * AFFINE_BOUND * SCALE * SCALE) by (nonlinear_arith)
        requires
            -2 * AFFINE_BOUND * AFFINE_BOUND <= cofactor <= 2 * AFFINE_BOUND * AFFINE_BOUND,
    ;
    let n: i128 = cofactor * s * s;
    if det > 0 {
        clamp_wide(div_trunc(n, det))
    } else {
        let q = div_trunc(n, -det);
        proof {
            let m = 2 * AFFINE_BOUND * AFFINE_BOUND * SCALE * SCALE;
            assert(-m * (-det) <= n <= m * (-det)) by (nonlinear_arith)
                requires -m <= n <= m, -det >= 1, m >= 0;
            lemma_div_trunc_bound(n as int, -det as int, m);
        }
        clamp_wide(-q)
    }
}

/// Row `k` of the matrix applied to `p`, in squared units.
fn row_value(a: &Affine, k: usize, p: &Vec3) -> (r: i128)
    requires
        a.x_axis.wf(),
        a.y_axis.wf(),
        a.z_axis.wf(),
        p.wf(),
        k < 3,
    ensures
        r as int == row_dot(*a, k as int, *p),
        -3 * LIMIT * LIMIT <= r <= 3 * LIMIT * LIMIT,
{
    let (c0, c1, c2) = if k == 0 {
        (a.x_axis.x, a.y_axis.x, a.z_axis.x)
    } else if k == 1 {
        (a.x_axis.y, a.y_axis.y, a.z_axis.y)
    } else {
        (a.x_axis.z, a.y_axis.z, a.z_axis.z)
    };
    proof {
        lemma_mul_bound(c0 as int, p.x as int);
        lemma_mul_bound(c1 as int, p.y as int);
        lemma_mul_bound(c2 as int, p.z as int);
    }
    c0 as i128 * p.x as i128 + c1 as i128 * p.y as i128 + c2 as i128 * p.z as i128
}

impl Affine {
    pub open spec fn wf(self) -> bool {
        self.x_axis.wf() && self.y_axis.wf() && self.z_axis.wf() && self.translation.wf()
    }

    /// The matrix entries are small enough to invert, and the matrix is regular.
    pub open spec fn invertible(self) -> bool {
        bounded(self.x_axis) && bounded(self.y_axis) && bounded(self.z_axis)
            && self.translation.wf() && determinant(self) != 0
    }

    /// The map that moves every point by `t`.
    pub fn from_translation(t: Vec3) -> (r: Affine)
        ensures
            r == (Affine {
                x_axis: Vec3 { x: SCALE, y: 0, z: 0 },
                y_axis: Vec3 { x: 0, y: SCALE, z: 0 },
                z_axis: Vec3 { x: 0, y: 0, z: SCALE },
                translation: t,
            }),
    {
        Affine {
            x_axis: Vec3 { x: SCALE, y: 0, z: 0 },
            y_axis: Vec3 { x: 0, y: SCALE, z: 0 },
            z_axis: Vec3 { x: 0, y: 0, z: SCALE },
            translation: t,
        }
    }

    /// The image of `p`.
    pub fn transform_point(&self, p: &Vec3) -> (r: Vec3)
        requires
            self.wf(),
            p.wf(),
        ensures
            r == affine_apply(*self, *p),
            r.wf(),
    {
        let s: i128 = SCALE as i128;
        let x = clamp_wide(div_trunc(row_value(self, 0, p), s) + self.translation.x as i128);
        let y = clamp_wide(div_trunc(row_value(self, 1, p), s) + self.translation.y as i128);
        let z = clamp_wide(div_trunc(row_value(self, 2, p), s) + self.translation.z as i128);
        proof {
            lemma_div_trunc_bound(row_dot(*self, 0, *p), SCALE as int, 3 * LIMIT * LIMIT);
        }
        Vec3 { x, y, z }
    }

    /// The inverse map, by cofactors.
    pub fn inverse(&self) -> (r: Affine)
        requires
            self.invertible(),
        ensures
            r == affine_inverse(*self),
            r.wf(),
    {
        let r0 = cross_wide(&self.y_axis, &self.z_axis);
        let r1 = cross_wide(&self.z_axis, &self.x_axis);
        let r2 = cross_wide(&self.x_axis, &self.y_axis);
        let ghost bd = AFFINE_BOUND as int;
        proof {
            lemma_product_bound(self.x_axis.x as int, r0.0 as int, bd, 2 * bd * bd);
            lemma_product_bound(self.x_axis.y as int, r0.1 as int, bd, 2 * bd * bd);
            lemma_product_bound(self.x_axis.z as int, r0.2 as int, bd, 2 * bd * bd);
        }
        let det: i128 = self.x_axis.x as i128 * r0.0 + self.x_axis.y as i128 * r0.1
            + self.x_axis.z as i128 * r0.2;
        let m = Affine {
            x_axis: Vec3 {
                x: inverse_value(r0.0, det),
                y: inverse_value(r1.0, det),
                z: inverse_value(r2.0, det),
            },
            y_axis: Vec3 {
                x: inverse_value(r0.1, det),
                y: inverse_value(r1.1, det),
                z: inverse_value(r2.1, det),
            },
            z_axis: Vec3 {
                x: inverse_value(r0.2, det),
                y: inverse_value(r1.2, det),
                z: inverse_value(r2.2, det),
            },
            translation: self.translation,
        };
        proof {
            assert(m == inverse_linear(*self));
        }
        let s: i128 = SCALE as i128;
        let t = self.translation;
        let tx = clamp_wide(-div_trunc(row_value(&m, 0, &t), s));
        let ty = clamp_wide(-div_trunc(row_value(&m, 1, &t), s));
        let tz = clamp_wide(-div_trunc(row_value(&m, 2, &t), s));
        proof {
            lemma_div_trunc_bound(row_dot(m, 0, t), SCALE as int, 3 * LIMIT * LIMIT);
            lemma_div_trunc_bound(row_dot(m, 1, t), SCALE as int, 3 * LIMIT * LIMIT);
            lemma_div_trunc_bound(row_dot(m, 2, t), SCALE as int, 3 * LIMIT * LIMIT);
        }
        Affine { translation: Vec3 { x: tx, y: ty, z: tz }, ..m }
    }
}

/// The map that moves every point by `t`.
pub open spec fn translation_spec(t: Vec3) -> Affine {
    Affine {
        x_axis: Vec3 { x: SCALE, y: 0, z: 0 },
        y_axis: Vec3 { x: 0, y: SCALE, z: 0 },
        z_axis: Vec3 { x: 0, y: 0, z: SCALE },
        translation: t,
    }
}

/// Scaling by the unit and dividing by it again gives the value back.
proof fn lemma_unit_scale(v: int)
    ensures
        div_trunc_spec(SCALE * v, SCALE as int) == v,
{
    assert(SCALE * v == v * SCALE) by (nonlinear_arith);
    if v >= 0 {
        lemma_div_by_multiple(v, SCALE as int);
    } else {
        assert(-(v * SCALE) == (-v) * SCALE) by (nonlinear_arith);
        lemma_div_by_multiple(-v, SCALE as int);
    }
}

proof fn lemma_unit_row(m: Affine, k: int, v: Vec3)
    requires
        m.x_axis == (Vec3 { x: SCALE, y: 0, z: 0 }),
        m.y_axis == (Vec3 { x: 0, y: SCALE, z: 0 }),
        m.z_axis == (Vec3 { x: 0, y: 0, z: SCALE }),
        0 <= k < 3,
    ensures
        row_dot(m, k, v) == SCALE * (if k == 0 { v.x } else if k == 1 { v.y } else { v.z }),
{
    let (a, b, c) = (m.x_axis, m.y_axis, m.z_axis);
    assert(a.y * v.x == 0 && a.z * v.x == 0 && b.x * v.y == 0 && b.z * v.y == 0 && c.x * v.z == 0
        && c.y * v.z == 0) by (nonlinear_arith)
        requires a.y == 0, a.z == 0, b.x == 0, b.z == 0, c.x == 0, c.y == 0;
}

/// Inverting a translation by `t` gives the map that subtracts `t`.
pub proof fn lemma_translation_inverse(t: Vec3, p: Vec3)
    requires
        t.wf(),
        p.wf(),
    ensures
        translation_spec(t).invertible(),
        affine_apply(affine_inverse(translation_spec(t)), p) == v_sub(p, t),
{
    let a = translation_spec(t);
    let s = SCALE as int;
    assert(cross_exact(a.y_axis, a.z_axis) == (s * s, 0int, 0int));
    assert(cross_exact(a.z_axis, a.x_axis) == (0int, s * s, 0int));
    assert(cross_exact(a.x_axis, a.y_axis) == (0int, 0int, s * s));
    assert(a.x_axis.x * (s * s) == s * s * s) by (nonlinear_arith)
        requires a.x_axis.x == s;
    assert(determinant(a) == s * s * s);
    assert(inverse_entry(s * s, s * s * s) == s);
    assert(inverse_entry(0, s * s * s) == 0);
    let m = affine_inverse(a);
    assert(m.x_axis == Vec3 { x: SCALE, y: 0, z: 0 });
    assert(m.y_axis == Vec3 { x: 0, y: SCALE, z: 0 });
    assert(m.z_axis == Vec3 { x: 0, y: 0, z: SCALE });
    lemma_unit_scale(t.x as int);
    lemma_unit_scale(t.y as int);
    lemma_unit_scale(t.z as int);
    let mi = inverse_linear(a);
    assert(mi.x_axis == m.x_axis && mi.y_axis == m.y_axis && mi.z_axis == m.z_axis);
    lemma_unit_row(mi, 0, t);
    lemma_unit_row(mi, 1, t);
    lemma_unit_row(mi, 2, t);
    lemma_unit_row(m, 0, p);
    lemma_unit_row(m, 1, p);
    lemma_unit_row(m, 2, p);
    lemma_unit_scale(p.x as int);
    lemma_unit_scale(p.y as int);
    lemma_unit_scale(p.z as int);
}

} // verus!
