// Shading of single rays and the supersampled colour of a pixel.
use vstd::prelude::*;
use vstd::arithmetic::div_mod::{lemma_div_by_multiple, lemma_fundamental_div_mod_converse};
use crate::camera::{world_up, Camera};
use crate::fixed::{lemma_div_trunc_bound, clamp_spec, clamp_wide, div_trunc, div_trunc_spec, in_range, LIMIT, SCALE};
use crate::scene::{models_valid, nearest_spec, Model, Rgb};
use crate::trace::{Ray, RayHit};
use crate::camera::camera_ray;
use crate::vector::{Vec2, dot_spec, v_add, v_cross, v_normalize, v_scale, v_sub, Vec3};

verus! {

/// Offset of a shadow ray's origin from the surface, along the normal (0.00001).
pub const SHADOW_BIAS: i64 = 10;

/// An 8-bit RGBA colour.
#[derive(Clone, Copy, Debug, PartialEq, Eq, Structural)]
pub struct Rgba {
    pub r: u8,
    pub g: u8,
    pub b: u8,
    pub a: u8,
}

/// `v` saturated into a colour channel.
pub open spec fn channel(v: int) -> u8 {
    if v < 0 {
        0
    } else if v > 255 {
        255
    } else {
        v as u8
    }
}

/// A fixed-point value in `[-1, 1]` mapped linearly onto `[0, 255]`.
pub open spec fn unit_to_channel(v: int) -> u8 {
    channel(div_trunc_spec((v + SCALE) * 255, 2 * SCALE))
}

/// The sky behind a ray that meets nothing: each direction coordinate mapped
/// from `[-1, 1]` onto `[0, 255]`, fully opaque.
pub open spec fn sky_spec(dir: Vec3) -> Rgba {
    Rgba {
        r: unit_to_channel(dir.x as int),
        g: unit_to_channel(dir.y as int),
        b: unit_to_channel(dir.z as int),
        a: 255,
    }
}

/// The normal at `hit` in the frame of an eye at `eye` that faces the hit,
/// shown as a colour.
pub open spec fn normal_color_spec(eye: Vec3, hit: RayHit) -> Rgba {
    let forward = v_normalize(v_sub(eye, hit.position));
    let right = v_cross(world_up(), forward);
    let up = v_cross(right, forward);
    Rgba {
        r: unit_to_channel(SCALE - dot_spec(hit.normal, right)),
        g: unit_to_channel(SCALE - dot_spec(hit.normal, forward)),
        b: unit_to_channel(SCALE - dot_spec(hit.normal, up)),
        a: 255,
    }
}

/// The ray from just above the hit towards the light.
pub open spec fn shadow_ray_spec(hit: RayHit, light: Vec3) -> Ray {
    Ray { origin: v_add(hit.position, v_scale(hit.normal, SHADOW_BIAS as int)), direction: light }
}

/// How much light reaches a hit: one half when the shadow ray is blocked,
/// otherwise one half plus half the occlusion estimate.
pub open spec fn light_factor(shadow: Result<(RayHit, Rgb), i64>) -> int {
    match shadow {
        Ok(_) => SCALE / 2,
        Err(o) => clamp_spec(div_trunc_spec(o as int, 2) + SCALE / 2),
    }
}

/// A colour channel multiplied by the fixed-point factor `f`.
pub open spec fn lit_channel(c: u8, f: int) -> u8 {
    channel(div_trunc_spec(c * f, SCALE as int))
}

pub open spec fn lit_spec(color: Rgb, f: int) -> Rgba {
    Rgba { r: lit_channel(color.r, f), g: lit_channel(color.g, f), b: lit_channel(color.b, f), a: 255 }
}

/// The colour one ray contributes to a pixel.
pub open spec fn sample_spec(
    models: Seq<Model>,
    eye: Vec3,
    light: Vec3,
    ray: Ray,
    normals: bool,
    transparent: bool,
) -> Rgba {
    match nearest_spec(models, ray) {
        Ok((hit, color)) => {
            if normals {
                normal_color_spec(eye, hit)
            } else {
                lit_spec(color, light_factor(nearest_spec(models, shadow_ray_spec(hit, light))))
            }
        },
        Err(_) => {
            if transparent {
                Rgba { r: 0, g: 0, b: 0, a: 0 }
            } else {
                sky_spec(ray.direction)
            }
        },
    }
}

/// A ray that meets no model shows the sky along its direction, or nothing in
/// transparent mode, whatever the display mode.
pub proof fn lemma_miss_shows_sky(
    models: Seq<Model>,
    eye: Vec3,
    light: Vec3,
    ray: Ray,
    normals: bool,
    transparent: bool,
)
    requires
        nearest_spec(models, ray) is Err,
    ensures
        sample_spec(models, eye, light, ray, normals, transparent) == (if transparent {
            Rgba { r: 0, g: 0, b: 0, a: 0 }
        } else {
            sky_spec(ray.direction)
        }),
{
}

fn to_channel(v: i128) -> (r: u8)
    ensures
        r == channel(v as int),
{
    if v < 0 {
        0
    } else if v > 255 {
        255
    } else {
        v as u8
    }
}

fn unit_channel(v: i64) -> (r: u8)
    ensures
        r == unit_to_channel(v as int),
{
    to_channel(div_trunc((v as i128 + SCALE as i128) * 255, 2 * SCALE as i128))
}

/// The sky colour seen along `dir`.
pub fn sky_color(dir: Vec3) -> (r: Rgba)
    requires
        dir.wf(),
    ensures
        r == sky_spec(dir),
{
    Rgba { r: unit_channel(dir.x), g: unit_channel(dir.y), b: unit_channel(dir.z), a: 255 }
}

/// The normal of `hit` as a colour, in the frame of an eye at `eye`.
pub fn normal_color(eye: Vec3, hit: &RayHit) -> (r: Rgba)
    requires
        eye.wf(),
        hit.position.wf(),
        hit.normal.wf(),
    ensures
        r == normal_color_spec(eye, *hit),
{
    let forward = eye.sub(&hit.position).normalize();
    let up_axis = Vec3 { x: 0, y: SCALE, z: 0 };
    let right = up_axis.cross(&forward);
    let up = right.cross(&forward);
    let x = hit.normal.dot(&right);
    let y = hit.normal.dot(&forward);
    let z = hit.normal.dot(&up);
    Rgba { r: unit_channel(SCALE - x), g: unit_channel(SCALE - y), b: unit_channel(SCALE - z), a: 255 }
}

fn lit_value(c: u8, f: i64) -> (r: u8)
    requires
        in_range(f as int),
    ensures
        r == lit_channel(c, f as int),
{
    assert(-255 * LIMIT <= c * f <= 255 * LIMIT) by (nonlinear_arith)
        requires 0 <= c <= 255, -LIMIT <= f <= LIMIT;
    to_channel(div_trunc(c as i128 * f as i128, SCALE as i128))
}

/// The lit colour of a hit of `color`: the hit is shaded by how much light a shadow
/// ray towards `light` lets through.
pub fn shade_hit(models: &[Model], light: Vec3, hit: &RayHit, color: Rgb) -> (r: Rgba)
    requires
        models_valid(models@),
        light.wf(),
        hit.position.wf(),
        hit.normal.wf(),
    ensures
        r == lit_spec(color, light_factor(nearest_spec(models@, shadow_ray_spec(*hit, light)))),
{
    let shadow_ray = Ray { origin: hit.position.add(&hit.normal.scale(SHADOW_BIAS)), direction: light };
    let factor: i64 = match Model::nearest_hit(models, shadow_ray) {
        Ok(_) => SCALE / 2,
        Err(o) => clamp_wide(div_trunc(o as i128, 2) + SCALE as i128 / 2),
    };
    Rgba {
        r: lit_value(color.r, factor),
        g: lit_value(color.g, factor),
        b: lit_value(color.b, factor),
        a: 255,
    }
}

/// The colour one ray contributes to a pixel: the nearest hit lit or shown as its
/// normal, or on a miss the sky or nothing.
pub fn sample_color(
    models: &[Model],
    camera: &Camera,
    light: Vec3,
    ray: Ray,
    normals: bool,
    transparent: bool,
) -> (r: Rgba)
    requires
        models_valid(models@),
        camera.wf(),
        light.wf(),
        ray.wf(),
    ensures
        r == sample_spec(models@, camera.origin, light, ray, normals, transparent),
{
    match Model::nearest_hit(models, ray) {
        Ok((hit, color)) => {
            if normals {
                normal_color(camera.origin, &hit)
            } else {
                shade_hit(models, light, &hit, color)
            }
        },
        Err(_) => {
            if transparent {
                Rgba { r: 0, g: 0, b: 0, a: 0 }
            } else {
                sky_color(ray.direction)
            }
        },
    }
}

pub open spec fn channel_of(c: Rgba, k: int) -> u8 {
    if k == 0 {
        c.r
    } else if k == 1 {
        c.g
    } else if k == 2 {
        c.b
    } else {
        c.a
    }
}

/// The sum of channel `k` over `s`.
pub open spec fn channel_sum(s: Seq<Rgba>, k: int) -> int
    decreases s.len(),
{
    if s.len() == 0 {
        0
    } else {
        channel_sum(s.drop_last(), k) + channel_of(s.last(), k)
    }
}

/// The channel-wise mean of `s`, rounded down.
pub open spec fn average_spec(s: Seq<Rgba>) -> Rgba {
    Rgba {
        r: (channel_sum(s, 0) / s.len() as int) as u8,
        g: (channel_sum(s, 1) / s.len() as int) as u8,
        b: (channel_sum(s, 2) / s.len() as int) as u8,
        a: (channel_sum(s, 3) / s.len() as int) as u8,
    }
}

pub proof fn lemma_channel_sum_bound(s: Seq<Rgba>, k: int)
    ensures
        0 <= channel_sum(s, k) <= 255 * s.len(),
    decreases s.len(),
{
    if s.len() > 0 {
        lemma_channel_sum_bound(s.drop_last(), k);
    }
}

/// Samples that are all one colour average to that colour, whatever their number.
pub proof fn lemma_uniform_average(s: Seq<Rgba>, c: Rgba)
    requires
        s.len() > 0,
        forall|i: int| 0 <= i < s.len() ==> s[i] == c,
    ensures
        average_spec(s) == c,
{
    lemma_uniform_sum(s, c, 0);
    lemma_uniform_sum(s, c, 1);
    lemma_uniform_sum(s, c, 2);
    lemma_uniform_sum(s, c, 3);
    lemma_div_by_multiple(c.r as int, s.len() as int);
    lemma_div_by_multiple(c.g as int, s.len() as int);
    lemma_div_by_multiple(c.b as int, s.len() as int);
    lemma_div_by_multiple(c.a as int, s.len() as int);
}

proof fn lemma_uniform_sum(s: Seq<Rgba>, c: Rgba, k: int)
    requires
        forall|i: int| 0 <= i < s.len() ==> s[i] == c,
    ensures
        channel_sum(s, k) == channel_of(c, k) * s.len(),
    decreases s.len(),
{
    if s.len() > 0 {
        lemma_uniform_sum(s.drop_last(), c, k);
        assert(s.last() == c);
        assert(channel_of(c, k) * (s.len() - 1) + channel_of(c, k) == channel_of(c, k) * s.len())
            by (nonlinear_arith);
    }
}

/// The channel-wise mean of the samples, rounded down.
pub fn average(samples: &Vec<Rgba>) -> (r: Rgba)
    requires
        0 < samples@.len() <= 0xffff_ffff,
    ensures
        r == average_spec(samples@),
{
    let mut sums: [u64; 4] = [0, 0, 0, 0];
    let mut i: usize = 0;
    while i < samples.len()
        invariant
            i <= samples@.len() <= 0xffff_ffff,
            forall|k: int| 0 <= k < 4 ==> sums[k] == channel_sum(samples@.subrange(0, i as int), k),
        decreases samples@.len() - i,
    {
        let c = samples[i];
        proof {
            assert(samples@.subrange(0, i + 1).drop_last() == samples@.subrange(0, i as int));
            assert forall|k: int| 0 <= k < 4 implies channel_sum(samples@.subrange(0, i as int), k)
                <= 255 * i by {
                lemma_channel_sum_bound(samples@.subrange(0, i as int), k);
            }
        }
        sums[0] = sums[0] + c.r as u64;
        sums[1] = sums[1] + c.g as u64;
        sums[2] = sums[2] + c.b as u64;
        sums[3] = sums[3] + c.a as u64;
        i = i + 1;
    }
    proof {
        assert(samples@.subrange(0, samples@.len() as int) == samples@);
        assert forall|k: int| 0 <= k < 4 implies channel_sum(samples@, k) / samples@.len() as int
            <= 255 by {
            lemma_channel_sum_bound(samples@, k);
            vstd::arithmetic::div_mod::lemma_div_is_ordered(
                channel_sum(samples@, k),
                255 * (samples@.len() as int),
                samples@.len() as int,
            );
            lemma_div_by_multiple(255, samples@.len() as int);
            assert(255 * samples@.len() == 255 * (samples@.len() as int));
        }
    }
    let n = samples.len() as u64;
    Rgba {
        r: (sums[0] / n) as u8,
        g: (sums[1] / n) as u8,
        b: (sums[2] / n) as u8,
        a: (sums[3] / n) as u8,
    }
}

/// The image size and the display modes of a render.
#[derive(Clone, Copy, Debug, PartialEq, Eq, Structural)]
pub struct RenderOptions {
    pub width: u32,
    pub height: u32,
    /// Show surface normals instead of lit colours, one sample per pixel.
    pub normals: bool,
    /// Leave pixels that see no surface transparent instead of showing the sky.
    pub transparent: bool,
}

impl RenderOptions {
    pub open spec fn wf(self) -> bool {
        2 <= self.width && 2 <= self.height
    }
}

/// Pixel index `i` of `dim` mapped onto `[-1/2, 1/2]`.
pub open spec fn ndc_spec(i: int, dim: int) -> int {
    div_trunc_spec(i * SCALE, dim - 1) - SCALE / 2
}

/// A quarter of the distance between neighbouring pixels.
pub open spec fn subpixel_spec(dim: int) -> int {
    div_trunc_spec(SCALE as int, 4 * (dim - 1))
}

/// Samples per pixel along each axis.
pub open spec fn grid_size(normals: bool) -> int {
    if normals {
        1
    } else {
        3
    }
}

/// Offset, in quarter pixels, of sample column or row `j`.
pub open spec fn grid_offset(normals: bool, j: int) -> int {
    if normals {
        0
    } else {
        j - 1
    }
}

/// Device coordinates of sample `k` of pixel `(x, y)`; samples go row by row.
pub open spec fn sample_ndc(o: RenderOptions, x: int, y: int, k: int) -> Vec2 {
    let n = grid_size(o.normals);
    Vec2 {
        x: (ndc_spec(x, o.width as int) + grid_offset(o.normals, k % n) * subpixel_spec(
            o.width as int,
        )) as i64,
        y: (ndc_spec(y, o.height as int) + grid_offset(o.normals, k / n) * subpixel_spec(
            o.height as int,
        )) as i64,
    }
}

/// The colours of the samples of pixel `(x, y)`.
pub open spec fn pixel_samples(
    models: Seq<Model>,
    camera: Camera,
    light: Vec3,
    o: RenderOptions,
    x: int,
    y: int,
) -> Seq<Rgba> {
    let n = grid_size(o.normals);
    Seq::new(
        (n * n) as nat,
        |k: int|
            sample_spec(
                models,
                camera.origin,
                light,
                camera_ray(camera, sample_ndc(o, x, y, k)),
                o.normals,
                o.transparent,
            ),
    )
}

proof fn lemma_ndc_bounds(i: int, dim: int)
    requires
        0 <= i < dim,
        2 <= dim,
    ensures
        -SCALE / 2 <= ndc_spec(i, dim) <= SCALE / 2,
        0 <= subpixel_spec(dim) <= SCALE,
{
    assert(0 <= i * SCALE <= SCALE * (dim - 1)) by (nonlinear_arith)
        requires 0 <= i <= dim - 1;
    lemma_div_trunc_bound(i * SCALE, dim - 1, SCALE as int);
    vstd::arithmetic::div_mod::lemma_div_pos_is_pos(i * SCALE, dim - 1);
    assert(SCALE <= SCALE * (4 * (dim - 1))) by (nonlinear_arith)
        requires dim >= 2;
    lemma_div_trunc_bound(SCALE as int, 4 * (dim - 1), SCALE as int);
    vstd::arithmetic::div_mod::lemma_div_pos_is_pos(SCALE as int, 4 * (dim - 1));
}

/// The colour of pixel `(x, y)`: the mean of its samples, a single one in normals
/// mode and otherwise a 3 by 3 grid a quarter pixel apart.
pub fn render_pixel(
    models: &[Model],
    camera: &Camera,
    light: Vec3,
    options: &RenderOptions,
    x: u32,
    y: u32,
) -> (r: Rgba)
    requires
        models_valid(models@),
        camera.wf(),
        light.wf(),
        options.wf(),
        x < options.width,
        y < options.height,
    ensures
        r == average_spec(pixel_samples(models@, *camera, light, *options, x as int, y as int)),
{
    let ghost o = *options;
    let wd: i128 = options.width as i128 - 1;
    let hd: i128 = options.height as i128 - 1;
    let half: i128 = SCALE as i128 / 2;
    let base_x: i128 = div_trunc(x as i128 * SCALE as i128, wd) - half;
    let base_y: i128 = div_trunc(y as i128 * SCALE as i128, hd) - half;
    let sub_x: i128 = div_trunc(SCALE as i128, 4 * wd);
    let sub_y: i128 = div_trunc(SCALE as i128, 4 * hd);
    proof {
        lemma_ndc_bounds(x as int, options.width as int);
        lemma_ndc_bounds(y as int, options.height as int);
    }
    let n: usize = if options.normals { 1 } else { 3 };
    let ghost expected = pixel_samples(models@, *camera, light, o, x as int, y as int);
    let mut samples: Vec<Rgba> = Vec::new();
    let mut iy: usize = 0;
    while iy < n
        invariant
            n == grid_size(o.normals),
            iy <= n,
            samples@.len() == iy * n,
            forall|k: int| 0 <= k < samples@.len() ==> samples@[k] == expected[k],
            expected.len() == n * n,
            expected == pixel_samples(models@, *camera, light, o, x as int, y as int),
            o == *options,
            models_valid(models@),
            camera.wf(),
            light.wf(),
            base_x == ndc_spec(x as int, o.width as int),
            base_y == ndc_spec(y as int, o.height as int),
            sub_x == subpixel_spec(o.width as int),
            sub_y == subpixel_spec(o.height as int),
            -SCALE / 2 <= base_x <= SCALE / 2,
            -SCALE / 2 <= base_y <= SCALE / 2,
            0 <= sub_x <= SCALE,
            0 <= sub_y <= SCALE,
        decreases n - iy,
    {
        let oy: i128 = if options.normals { 0 } else { iy as i128 - 1 };
        let mut ix: usize = 0;
        while ix < n
            invariant
                n == grid_size(o.normals),
                iy < n,
                ix <= n,
                samples@.len() == iy * n + ix,
                forall|k: int| 0 <= k < samples@.len() ==> samples@[k] == expected[k],
                expected.len() == n * n,
                expected == pixel_samples(models@, *camera, light, o, x as int, y as int),
                o == *options,
                oy == grid_offset(o.normals, iy as int),
                models_valid(models@),
                camera.wf(),
                light.wf(),
                base_x == ndc_spec(x as int, o.width as int),
                base_y == ndc_spec(y as int, o.height as int),
                sub_x == subpixel_spec(o.width as int),
                sub_y == subpixel_spec(o.height as int),
                -SCALE / 2 <= base_x <= SCALE / 2,
                -SCALE / 2 <= base_y <= SCALE / 2,
                0 <= sub_x <= SCALE,
                0 <= sub_y <= SCALE,
            decreases n - ix,
        {
            let ox: i128 = if options.normals { 0 } else { ix as i128 - 1 };
            let k: usize = iy * n + ix;
            proof {
                assert(iy * n + ix < n * n) by (nonlinear_arith)
                    requires iy < n, ix < n;
                lemma_fundamental_div_mod_converse(k as int, n as int, iy as int, ix as int);
                assert(-SCALE <= ox * sub_x <= SCALE) by (nonlinear_arith)
                    requires -1 <= ox <= 1, 0 <= sub_x <= SCALE;
                assert(-SCALE <= oy * sub_y <= SCALE) by (nonlinear_arith)
                    requires -1 <= oy <= 1, 0 <= sub_y <= SCALE;
            }
            let ndc = Vec2 { x: (base_x + ox * sub_x) as i64, y: (base_y + oy * sub_y) as i64 };
            proof {
                assert(ndc == sample_ndc(o, x as int, y as int, k as int));
            }
            let ray = camera.get_ray(ndc);
            let c = sample_color(models, camera, light, ray, options.normals, options.transparent);
            proof {
                assert(expected[k as int] == c);
            }
            samples.push(c);
            ix = ix + 1;
        }
        iy = iy + 1;
    }
    proof {
        assert(samples@ == expected);
    }
    average(&samples)
}

} // verus!
