// Three-component fixed-point vectors and their arithmetic.
use vstd::prelude::*;
use vstd::arithmetic::div_mod::{lemma_div_by_multiple, lemma_fundamental_div_mod};
use crate::fixed::{
    clamp_spec, clamp_wide, div_spec, div_trunc, div_trunc_spec, floor_sqrt, fx_add,
    fx_div, fx_mul, in_range, isqrt, lemma_floor_sqrt, lemma_floor_sqrt_unique, lemma_mul_bound, mul_spec, LIMIT, SCALE, SQRT_DOMAIN,
};

verus! {

/// A point or direction in fixed-point world units.
#[derive(Clone, Copy, Debug, PartialEq, Eq, Structural)]
pub struct Vec3 {
    pub x: i64,
    pub y: i64,
    pub z: i64,
}

/// A point on the image plane in fixed-point units.
#[derive(Clone, Copy, Debug, PartialEq, Eq, Structural)]
pub struct Vec2 {
    pub x: i64,
    pub y: i64,
}

/// The clamped value of `v` as a stored coordinate.
pub open spec fn fx(v: int) -> i64 {
    clamp_spec(v) as i64
}

pub open spec fn vec3(x: int, y: int, z: int) -> Vec3 {
    Vec3 { x: fx(x), y: fx(y), z: fx(z) }
}

pub open spec fn v_add(a: Vec3, b: Vec3) -> Vec3 {
    vec3(a.x + b.x, a.y + b.y, a.z + b.z)
}

pub open spec fn v_sub(a: Vec3, b: Vec3) -> Vec3 {
    vec3(a.x - b.x, a.y - b.y, a.z - b.z)
}

pub open spec fn v_scale(a: Vec3, s: int) -> Vec3 {
    vec3(mul_spec(a.x as int, s), mul_spec(a.y as int, s), mul_spec(a.z as int, s))
}

pub open spec fn v_div(a: Vec3, s: int) -> Vec3 {
    vec3(div_spec(a.x as int, s), div_spec(a.y as int, s), div_spec(a.z as int, s))
}

pub open spec fn abs_spec(v: int) -> int {
    if v < 0 {
        -v
    } else {
        v
    }
}

pub open spec fn v_abs(a: Vec3) -> Vec3 {
    vec3(abs_spec(a.x as int), abs_spec(a.y as int), abs_spec(a.z as int))
}

pub open spec fn max_spec(a: int, b: int) -> int {
    if a >= b {
        a
    } else {
        b
    }
}

pub open spec fn min_spec(a: int, b: int) -> int {
    if a <= b {
        a
    } else {
        b
    }
}

pub open spec fn v_max_zero(a: Vec3) -> Vec3 {
    vec3(max_spec(a.x as int, 0), max_spec(a.y as int, 0), max_spec(a.z as int, 0))
}

/// Exact dot product in squared units.
pub open spec fn dot_wide(a: Vec3, b: Vec3) -> int {
    a.x * b.x + a.y * b.y + a.z * b.z
}

pub open spec fn dot_spec(a: Vec3, b: Vec3) -> int {
    clamp_spec(div_trunc_spec(dot_wide(a, b), SCALE as int))
}

pub open spec fn v_cross(a: Vec3, b: Vec3) -> Vec3 {
    vec3(
        div_trunc_spec(a.y * b.z - a.z * b.y, SCALE as int),
        div_trunc_spec(a.z * b.x - a.x * b.z, SCALE as int),
        div_trunc_spec(a.x * b.y - a.y * b.x, SCALE as int),
    )
}

/// Squared Euclidean norm in squared units.
pub open spec fn norm_sq(a: Vec3) -> nat {
    dot_wide(a, a) as nat
}

/// Euclidean length, rounded down.
pub open spec fn length_spec(a: Vec3) -> int {
    clamp_spec(floor_sqrt(norm_sq(a)) as int)
}

/// How far below `SCALE` the length of a normalized vector may fall.
pub const UNIT_TOLERANCE: i64 = 4;

/// `v` has unit length, up to the rounding of `normalize`.
pub open spec fn is_unit(v: Vec3) -> bool {
    SCALE - UNIT_TOLERANCE <= length_spec(v) <= SCALE
}

/// Lower end of the range into which `lift` brings a squared norm (2^114).
pub const LIFT_LOW: u128 = 0x4_0000_0000_0000_0000_0000_0000_0000;

/// A positive `n` multiplied by 4 until it reaches `LIFT_LOW`, with `p` doubled
/// alongside, so that the root of the result is `p` times the root of `n` at a
/// precision of at least 57 bits.
pub open spec fn lift(n: nat, p: nat) -> (nat, nat)
    decreases (if n < LIFT_LOW { LIFT_LOW - n } else { 0 }),
{
    if n == 0 || n >= LIFT_LOW {
        (n, p)
    } else {
        lift(4 * n, 2 * p)
    }
}

pub proof fn lemma_lift(n: nat, p: nat)
    requires
        n < SQRT_DOMAIN,
    ensures
        lift(n, p).0 * p * p == n * lift(n, p).1 * lift(n, p).1,
        lift(n, p).1 >= p,
        n > 0 ==> LIFT_LOW <= lift(n, p).0 < SQRT_DOMAIN,
        n == 0 ==> lift(n, p).0 == 0,
    decreases (if n < LIFT_LOW { LIFT_LOW - n } else { 0 }),
{
    if !(n == 0 || n >= LIFT_LOW) {
        lemma_lift(4 * n, 2 * p);
        let (m, q) = lift(4 * n, 2 * p);
        assert(m * p * p == n * q * q) by (nonlinear_arith)
            requires m * (2 * p) * (2 * p) == 4 * n * q * q;
    }
}

/// `a` scaled to unit length; the zero vector stays zero. The squared norm is
/// first lifted by a power of 4 so that its root is precise.
pub open spec fn v_normalize(a: Vec3) -> Vec3 {
    let (m, p) = lift(norm_sq(a), 1);
    let n = floor_sqrt(m) as int;
    if n == 0 {
        vec3(0, 0, 0)
    } else {
        vec3(
            div_trunc_spec(a.x * SCALE * p, n),
            div_trunc_spec(a.y * SCALE * p, n),
            div_trunc_spec(a.z * SCALE * p, n),
        )
    }
}

impl Vec3 {
    /// Every coordinate lies in the representable range.
    pub open spec fn wf(self) -> bool {
        in_range(self.x as int) && in_range(self.y as int) && in_range(self.z as int)
    }

    pub fn new(x: i64, y: i64, z: i64) -> (r: Vec3)
        ensures
            r == (Vec3 { x, y, z }),
    {
        Vec3 { x, y, z }
    }

    pub fn zero() -> (r: Vec3)
        ensures
            r == vec3(0, 0, 0),
            r.wf(),
    {
        Vec3 { x: 0, y: 0, z: 0 }
    }

    pub fn add(&self, o: &Vec3) -> (r: Vec3)
        requires
            self.wf(),
            o.wf(),
        ensures
            r == v_add(*self, *o),
            r.wf(),
    {
        Vec3 { x: fx_add(self.x, o.x), y: fx_add(self.y, o.y), z: fx_add(self.z, o.z) }
    }

    pub fn sub(&self, o: &Vec3) -> (r: Vec3)
        requires
            self.wf(),
            o.wf(),
        ensures
            r == v_sub(*self, *o),
            r.wf(),
    {
        Vec3 { x: fx_add(self.x, -o.x), y: fx_add(self.y, -o.y), z: fx_add(self.z, -o.z) }
    }

    /// Each coordinate multiplied by the fixed-point factor `s`.
    pub fn scale(&self, s: i64) -> (r: Vec3)
        requires
            self.wf(),
            in_range(s as int),
        ensures
            r == v_scale(*self, s as int),
            r.wf(),
    {
        Vec3 { x: fx_mul(self.x, s), y: fx_mul(self.y, s), z: fx_mul(self.z, s) }
    }

    /// Each coordinate divided by the positive fixed-point factor `s`.
    pub fn div(&self, s: i64) -> (r: Vec3)
        requires
            self.wf(),
            s > 0,
        ensures
            r == v_div(*self, s as int),
            r.wf(),
    {
        Vec3 { x: fx_div(self.x, s), y: fx_div(self.y, s), z: fx_div(self.z, s) }
    }

    pub fn abs(&self) -> (r: Vec3)
        requires
            self.wf(),
        ensures
            r == v_abs(*self),
            r.wf(),
    {
        let x: i64 = if self.x < 0 { -self.x } else { self.x };
        let y: i64 = if self.y < 0 { -self.y } else { self.y };
        let z: i64 = if self.z < 0 { -self.z } else { self.z };
        Vec3 { x, y, z }
    }

    /// Each coordinate raised to at least zero.
    pub fn max_zero(&self) -> (r: Vec3)
        requires
            self.wf(),
        ensures
            r == v_max_zero(*self),
            r.wf(),
    {
        let x: i64 = if self.x >= 0 { self.x } else { 0 };
        let y: i64 = if self.y >= 0 { self.y } else { 0 };
        let z: i64 = if self.z >= 0 { self.z } else { 0 };
        Vec3 { x, y, z }
    }

    pub fn dot(&self, o: &Vec3) -> (r: i64)
        requires
            self.wf(),
            o.wf(),
        ensures
            r as int == dot_spec(*self, *o),
    {
        proof {
            lemma_mul_bound(self.x as int, o.x as int);
            lemma_mul_bound(self.y as int, o.y as int);
            lemma_mul_bound(self.z as int, o.z as int);
        }
        let w: i128 = self.x as i128 * o.x as i128 + self.y as i128 * o.y as i128 + self.z as i128
            * o.z as i128;
        clamp_wide(div_trunc(w, SCALE as i128))
    }

    pub fn cross(&self, o: &Vec3) -> (r: Vec3)
        requires
            self.wf(),
            o.wf(),
        ensures
            r == v_cross(*self, *o),
            r.wf(),
    {
        proof {
            lemma_mul_bound(self.x as int, o.y as int);
            lemma_mul_bound(self.x as int, o.z as int);
            lemma_mul_bound(self.y as int, o.x as int);
            lemma_mul_bound(self.y as int, o.z as int);
            lemma_mul_bound(self.z as int, o.x as int);
            lemma_mul_bound(self.z as int, o.y as int);
        }
        let cx: i128 = self.y as i128 * o.z as i128 - self.z as i128 * o.y as i128;
        let cy: i128 = self.z as i128 * o.x as i128 - self.x as i128 * o.z as i128;
        let cz: i128 = self.x as i128 * o.y as i128 - self.y as i128 * o.x as i128;
        let s: i128 = SCALE as i128;
        Vec3 {
            x: clamp_wide(div_trunc(cx, s)),
            y: clamp_wide(div_trunc(cy, s)),
            z: clamp_wide(div_trunc(cz, s)),
        }
    }

    /// The squared norm, exact.
    fn norm_sq(&self) -> (r: u128)
        requires
            self.wf(),
        ensures
            r as nat == norm_sq(*self),
            r < SQRT_DOMAIN,
    {
        proof {
            lemma_mul_bound(self.x as int, self.x as int);
            lemma_mul_bound(self.y as int, self.y as int);
            lemma_mul_bound(self.z as int, self.z as int);
            assert(self.x * self.x >= 0) by (nonlinear_arith);
            assert(self.y * self.y >= 0) by (nonlinear_arith);
            assert(self.z * self.z >= 0) by (nonlinear_arith);
            assert(dot_wide(*self, *self) <= 3 * (LIMIT as int) * (LIMIT as int));
            assert(3 * (LIMIT as int) * (LIMIT as int) < SQRT_DOMAIN);
        }
        let w: i128 = self.x as i128 * self.x as i128 + self.y as i128 * self.y as i128
            + self.z as i128 * self.z as i128;
        w as u128
    }

    pub fn length(&self) -> (r: i64)
        requires
            self.wf(),
        ensures
            r as int == length_spec(*self),
            in_range(r as int),
    {
        let n = isqrt(self.norm_sq());
        clamp_wide(n as i128)
    }

    pub fn normalize(&self) -> (r: Vec3)
        requires
            self.wf(),
        ensures
            r == v_normalize(*self),
            r.wf(),
            norm_sq(*self) > 0 ==> is_unit(r),
    {
        let n = self.norm_sq();
        if n == 0 {
            proof {
                assert(floor_sqrt(0) == 0);
            }
            return Vec3 { x: 0, y: 0, z: 0 };
        }
        let mut m: u128 = n;
        let mut p: u128 = 1;
        while m < LIFT_LOW
            invariant
                0 < m < SQRT_DOMAIN,
                0 < n,
                1 <= p < 0x400_0000_0000_0000,
                m == n * p * p,
                n == norm_sq(*self),
                lift(m as nat, p as nat) == lift(n as nat, 1),
            decreases (if m < LIFT_LOW { LIFT_LOW - m } else { 0 }),
        {
            assert(4 * m == n * (2 * p) * (2 * p)) by (nonlinear_arith)
                requires m == n * p * p;
            assert(2 * p < 0x400_0000_0000_0000) by (nonlinear_arith)
                requires 4 * m == n * (2 * p) * (2 * p), n >= 1, m < LIFT_LOW;
            m = 4 * m;
            p = 2 * p;
        }
        proof {
            assert(p * p <= m) by (nonlinear_arith)
                requires m == n * p * p, n >= 1;
            assert(p < 0x400_0000_0000_0000) by (nonlinear_arith)
                requires p * p <= m, m < SQRT_DOMAIN, p >= 1;
            assert(self.x * self.x >= 0 && self.y * self.y >= 0 && self.z * self.z >= 0)
                by (nonlinear_arith);
            lemma_component_bound(self.x as int, n as int, p as int);
            lemma_component_bound(self.y as int, n as int, p as int);
            lemma_component_bound(self.z as int, n as int, p as int);
        }
        let d = isqrt(m);
        proof {
            lemma_floor_sqrt(m as nat);
            assert(d > 0) by (nonlinear_arith)
                requires m < (d + 1) * (d + 1), m >= LIFT_LOW;
        }
        proof {
            lemma_normalize_unit(*self);
        }
        let d: i128 = d as i128;
        let s: i128 = SCALE as i128;
        let pi: i128 = p as i128;
        Vec3 {
            x: clamp_wide(div_trunc(self.x as i128 * s * pi, d)),
            y: clamp_wide(div_trunc(self.y as i128 * s * pi, d)),
            z: clamp_wide(div_trunc(self.z as i128 * s * pi, d)),
        }
    }
}

/// Integer facts behind the unit length of a normalized vector: with `a` the
/// scaled coordinates and `q` their quotients by the root `r`, the squares of
/// `q` sum to between `(s - 4)^2` and `s^2`.
proof fn lemma_unit_core(
    s: int,
    r: int,
    m: int,
    ax: int,
    ay: int,
    az: int,
    qx: int,
    qy: int,
    qz: int,
)
    requires
        s >= 10,
        r >= 2 * s * s + 1,
        r * r <= m < (r + 1) * (r + 1),
        ax * ax + ay * ay + az * az == s * s * m,
        0 <= qx,
        0 <= qy,
        0 <= qz,
        qx * r <= ax < (qx + 1) * r,
        qy * r <= ay < (qy + 1) * r,
        qz * r <= az < (qz + 1) * r,
    ensures
        (s - 4) * (s - 4) <= qx * qx + qy * qy + qz * qz <= s * s,
        qx <= s,
        qy <= s,
        qz <= s,
{
    let x = qx * qx + qy * qy + qz * qz;
    assert(qx * qx * (r * r) <= ax * ax) by (nonlinear_arith)
        requires 0 <= qx * r <= ax, r >= 0;
    assert(qy * qy * (r * r) <= ay * ay) by (nonlinear_arith)
        requires 0 <= qy * r <= ay, r >= 0;
    assert(qz * qz * (r * r) <= az * az) by (nonlinear_arith)
        requires 0 <= qz * r <= az, r >= 0;
    assert(x * (r * r) < s * s * ((r + 1) * (r + 1))) by (nonlinear_arith)
        requires
            x == qx * qx + qy * qy + qz * qz,
            qx * qx * (r * r) + qy * qy * (r * r) + qz * qz * (r * r) <= s * s * m,
            m < (r + 1) * (r + 1),
            s >= 1,
    ;
    assert(x <= s * s) by (nonlinear_arith)
        requires
            x * (r * r) < s * s * ((r + 1) * (r + 1)),
            r >= 2 * s * s + 1,
            s >= 10,
            x >= 0,
    ;
    assert(qx <= s && qy <= s && qz <= s) by (nonlinear_arith)
        requires x == qx * qx + qy * qy + qz * qz, x <= s * s, qx >= 0, qy >= 0, qz >= 0, s >= 0;
    assert(ax * ax < (qx + 1) * (qx + 1) * (r * r)) by (nonlinear_arith)
        requires 0 <= ax < (qx + 1) * r;
    assert(ay * ay < (qy + 1) * (qy + 1) * (r * r)) by (nonlinear_arith)
        requires 0 <= ay < (qy + 1) * r;
    assert(az * az < (qz + 1) * (qz + 1) * (r * r)) by (nonlinear_arith)
        requires 0 <= az < (qz + 1) * r;
    let y = (qx + 1) * (qx + 1) + (qy + 1) * (qy + 1) + (qz + 1) * (qz + 1);
    assert(s * s * (r * r) < y * (r * r)) by (nonlinear_arith)
        requires
            y == (qx + 1) * (qx + 1) + (qy + 1) * (qy + 1) + (qz + 1) * (qz + 1),
            ax * ax + ay * ay + az * az < (qx + 1) * (qx + 1) * (r * r) + (qy + 1) * (qy + 1)
                * (r * r) + (qz + 1) * (qz + 1) * (r * r),
            ax * ax + ay * ay + az * az == s * s * m,
            r * r <= m,
            s >= 1,
    ;
    assert(s * s < y) by (nonlinear_arith)
        requires s * s * (r * r) < y * (r * r), r >= 1;
    assert(y == x + 2 * (qx + qy + qz) + 3) by (nonlinear_arith)
        requires
            y == (qx + 1) * (qx + 1) + (qy + 1) * (qy + 1) + (qz + 1) * (qz + 1),
            x == qx * qx + qy * qy + qz * qz,
    ;
    assert((s - 4) * (s - 4) <= x) by (nonlinear_arith)
        requires
            s * s < y,
            y == x + 2 * (qx + qy + qz) + 3,
            qx <= s,
            qy <= s,
            qz <= s,
            s >= 10,
    ;
}

proof fn lemma_abs_square(c: int)
    ensures
        abs_spec(c) * abs_spec(c) == c * c,
{
    assert((-c) * (-c) == c * c) by (nonlinear_arith);
}

/// The quotient of `c * k` by `r`, rounded toward zero, in magnitude.
proof fn lemma_quotient(c: int, k: int, r: int)
    requires
        k > 0,
        r > 0,
    ensures
        abs_spec(div_trunc_spec(c * k, r)) * r <= abs_spec(c) * k < (abs_spec(
            div_trunc_spec(c * k, r),
        ) + 1) * r,
        abs_spec(div_trunc_spec(c * k, r)) * abs_spec(div_trunc_spec(c * k, r)) == div_trunc_spec(
            c * k,
            r,
        ) * div_trunc_spec(c * k, r),
{
    let a = abs_spec(c) * k;
    assert(a >= 0) by (nonlinear_arith)
        requires a == abs_spec(c) * k, k > 0, abs_spec(c) >= 0;
    if c >= 0 {
        assert(c * k >= 0) by (nonlinear_arith)
            requires c >= 0, k > 0;
    } else {
        assert(c * k < 0) by (nonlinear_arith)
            requires c < 0, k > 0;
        assert(-(c * k) == (-c) * k) by (nonlinear_arith);
    }
    lemma_fundamental_div_mod(a, r);
    vstd::arithmetic::div_mod::lemma_div_pos_is_pos(a, r);
    let q = a / r;
    assert(q * r <= a < (q + 1) * r) by (nonlinear_arith)
        requires a == r * q + a % r, 0 <= a % r < r;
    assert((-q) * (-q) == q * q) by (nonlinear_arith);
}

/// A non-zero vector normalizes to length between `SCALE - 4` and `SCALE`.
pub proof fn lemma_normalize_unit(a: Vec3)
    requires
        a.wf(),
        norm_sq(a) > 0,
    ensures
        is_unit(v_normalize(a)),
{
    let n = norm_sq(a);
    assert(a.x * a.x >= 0 && a.y * a.y >= 0 && a.z * a.z >= 0) by (nonlinear_arith);
    assert(n <= 3 * (LIMIT as int) * (LIMIT as int)) by {
        lemma_mul_bound(a.x as int, a.x as int);
        lemma_mul_bound(a.y as int, a.y as int);
        lemma_mul_bound(a.z as int, a.z as int);
    }
    lemma_lift(n, 1);
    let (m, p) = lift(n, 1);
    let r = floor_sqrt(m) as int;
    lemma_floor_sqrt(m);
    assert(r >= 0x200_0000_0000_0000) by (nonlinear_arith)
        requires m < (r + 1) * (r + 1), m >= LIFT_LOW, r >= 0;
    let s = SCALE as int;
    let k = s * p;
    assert(k > 0) by (nonlinear_arith)
        requires k == s * p, s > 0, p >= 1;
    lemma_quotient(a.x as int, k, r);
    lemma_quotient(a.y as int, k, r);
    lemma_quotient(a.z as int, k, r);
    assert(a.x * SCALE * p == a.x * k && a.y * SCALE * p == a.y * k && a.z * SCALE * p == a.z * k)
        by (nonlinear_arith)
        requires k == SCALE * p;
    let qx = div_trunc_spec(a.x * k, r);
    let qy = div_trunc_spec(a.y * k, r);
    let qz = div_trunc_spec(a.z * k, r);
    lemma_abs_square(a.x as int);
    lemma_abs_square(a.y as int);
    lemma_abs_square(a.z as int);
    let (ax, ay, az) = (abs_spec(a.x as int) * k, abs_spec(a.y as int) * k, abs_spec(a.z as int) * k);
    let (ux, uy, uz) = (abs_spec(a.x as int), abs_spec(a.y as int), abs_spec(a.z as int));
    assert(ax * ax == (ux * ux) * (k * k)) by (nonlinear_arith)
        requires ax == ux * k;
    assert(ay * ay == (uy * uy) * (k * k)) by (nonlinear_arith)
        requires ay == uy * k;
    assert(az * az == (uz * uz) * (k * k)) by (nonlinear_arith)
        requires az == uz * k;
    assert(ax * ax + ay * ay + az * az == n * (k * k)) by (nonlinear_arith)
        requires
            ax * ax == (ux * ux) * (k * k),
            ay * ay == (uy * uy) * (k * k),
            az * az == (uz * uz) * (k * k),
            n == ux * ux + uy * uy + uz * uz,
    ;
    assert(n * (k * k) == s * s * m) by (nonlinear_arith)
        requires m == n * p * p, k == s * p;
    lemma_unit_core(
        s,
        r,
        m as int,
        ax,
        ay,
        az,
        abs_spec(qx),
        abs_spec(qy),
        abs_spec(qz),
    );
    let x = qx * qx + qy * qy + qz * qz;
    assert(-s <= qx <= s && -s <= qy <= s && -s <= qz <= s);
    let v = v_normalize(a);
    assert(v == Vec3 { x: qx as i64, y: qy as i64, z: qz as i64 });
    assert(norm_sq(v) == x);
    let f = floor_sqrt(x as nat) as int;
    lemma_floor_sqrt(x as nat);
    assert(s - 4 <= f <= s) by (nonlinear_arith)
        requires f * f <= x < (f + 1) * (f + 1), (s - 4) * (s - 4) <= x <= s * s, f >= 0, s >= 10;
}

/// Coordinate `j` (x, y, z) of the direction of axis ray `k`: the six
/// directions +x, -x, +y, -y, +z, -z in turn.
pub open spec fn axis_coord(k: int, j: int) -> int {
    if k / 2 != j {
        0
    } else if k % 2 == 0 {
        1
    } else {
        -1
    }
}

/// The point `a` along axis direction `k`.
pub open spec fn axis_point(k: int, a: int) -> Vec3 {
    Vec3 {
        x: (axis_coord(k, 0) * a) as i64,
        y: (axis_coord(k, 1) * a) as i64,
        z: (axis_coord(k, 2) * a) as i64,
    }
}

pub proof fn lemma_axis_coord_product(k: int, j: int, a: int)
    requires
        0 <= k < 6,
    ensures
        axis_coord(k, j) * a == 0 || axis_coord(k, j) * a == a || axis_coord(k, j) * a == -a,
        (axis_coord(k, j) * a) * (axis_coord(k, j) * a) == axis_coord(k, j) * axis_coord(k, j) * (
        a * a),
{
    assert((axis_coord(k, j) * a) * (axis_coord(k, j) * a) == axis_coord(k, j) * axis_coord(k, j)
        * (a * a)) by (nonlinear_arith);
}

/// The squared norm of a vector with the given coordinates.
pub proof fn lemma_norm_sq_of(v: Vec3, a: int, b: int, c: int)
    requires
        v.x == a,
        v.y == b,
        v.z == c,
    ensures
        norm_sq(v) == a * a + b * b + c * c,
{
    assert(a * a >= 0 && b * b >= 0 && c * c >= 0) by (nonlinear_arith);
}

/// A point on an axis lies as far from the origin as its coordinate says.
pub proof fn lemma_axis_norm(k: int, a: int)
    requires
        0 <= k < 6,
        in_range(a),
    ensures
        norm_sq(axis_point(k, a)) == a * a,
        axis_point(k, a).wf(),
{
    lemma_axis_coord_product(k, 0, a);
    lemma_axis_coord_product(k, 1, a);
    lemma_axis_coord_product(k, 2, a);
    assert(a * a >= 0) by (nonlinear_arith);
    let v = axis_point(k, a);
    let (c0, c1, c2) = (axis_coord(k, 0), axis_coord(k, 1), axis_coord(k, 2));
    assert(v.x == c0 * a && v.y == c1 * a && v.z == c2 * a);
    assert(c0 * c0 + c1 * c1 + c2 * c2 == 1) by {
        if k == 0 {
        } else if k == 1 {
        } else if k == 2 {
        } else if k == 3 {
        } else if k == 4 {
        } else {
        }
    }
    assert(v.x * v.x + v.y * v.y + v.z * v.z == a * a) by (nonlinear_arith)
        requires
            v.x * v.x == c0 * c0 * (a * a),
            v.y * v.y == c1 * c1 * (a * a),
            v.z * v.z == c2 * c2 * (a * a),
            c0 * c0 + c1 * c1 + c2 * c2 == 1,
    ;
}

proof fn lemma_unit_coordinate(c: int, a: int, p: int)
    requires
        c == 0 || c == 1 || c == -1,
        a > 0,
        p >= 1,
    ensures
        div_trunc_spec((c * a) * SCALE * p, a * p) == c * SCALE,
{
    let r = a * p;
    assert(r > 0) by (nonlinear_arith)
        requires a > 0, p >= 1, r == a * p;
    assert((c * a) * SCALE * p == c * (SCALE * r)) by (nonlinear_arith)
        requires r == a * p;
    lemma_div_by_multiple(SCALE as int, r);
    assert(SCALE * r == (SCALE as int) * r);
    if c == 0 {
        assert(0int / r == 0);
    } else if c == -1 {
        assert(-1 * (SCALE * r) == -(SCALE * r));
    }
}

/// A positive length along an axis direction normalizes to the unit vector of
/// that direction.
pub proof fn lemma_normalize_axis(k: int, a: int)
    requires
        0 <= k < 6,
        0 < a <= LIMIT,
    ensures
        v_normalize(axis_point(k, a)) == axis_point(k, SCALE as int),
{
    let v = axis_point(k, a);
    lemma_axis_norm(k, a);
    assert(a * a <= (LIMIT as int) * (LIMIT as int)) by (nonlinear_arith)
        requires 0 < a <= LIMIT;
    let n = norm_sq(v);
    lemma_lift(n, 1);
    let (m, p) = lift(n, 1);
    let r = a * p;
    assert(m == r * r) by (nonlinear_arith)
        requires m * 1 * 1 == n * p * p, n == a * a, r == a * p;
    assert(r > 0) by (nonlinear_arith)
        requires a > 0, p >= 1, r == a * p;
    assert(r * r <= r * r < (r + 1) * (r + 1)) by (nonlinear_arith)
        requires r > 0;
    lemma_floor_sqrt_unique(m, r as nat);
    lemma_axis_coord_product(k, 0, a);
    lemma_axis_coord_product(k, 1, a);
    lemma_axis_coord_product(k, 2, a);
    lemma_unit_coordinate(axis_coord(k, 0), a, p as int);
    lemma_unit_coordinate(axis_coord(k, 1), a, p as int);
    lemma_unit_coordinate(axis_coord(k, 2), a, p as int);
}

/// A coordinate times the lift factor stays below 2^58 in magnitude.
proof fn lemma_component_bound(c: int, n: int, p: int)
    requires
        c * c <= n,
        n * p * p < SQRT_DOMAIN,
        p >= 1,
    ensures
        -0x400_0000_0000_0000 < c * p < 0x400_0000_0000_0000,
        -0x400_0000_0000_0000 * SCALE < c * SCALE * p < 0x400_0000_0000_0000 * SCALE,
{
    assert((c * p) * (c * p) < SQRT_DOMAIN) by (nonlinear_arith)
        requires c * c <= n, n * p * p < SQRT_DOMAIN, p >= 1;
    assert(-0x400_0000_0000_0000 < c * p < 0x400_0000_0000_0000) by (nonlinear_arith)
        requires (c * p) * (c * p) < 0x10_0000_0000_0000_0000_0000_0000_0000int;
    assert(c * SCALE * p == (c * p) * SCALE) by (nonlinear_arith);
}

} // verus!
