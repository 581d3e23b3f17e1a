use sdf_render::affine::Affine;
use sdf_render::camera::Camera;
use sdf_render::fixed::{isqrt, SCALE};
use sdf_render::render::{average, render_pixel, sample_color, sky_color, RenderOptions, Rgba};
use sdf_render::scene::{Model, Rgb};
use sdf_render::sdf::{sd_box, sd_sphere, DistanceFn, Sdf};
use sdf_render::trace::Ray;
use sdf_render::vector::{Vec2, Vec3};

const S: i64 = SCALE;

fn v(x: i64, y: i64, z: i64) -> Vec3 {
    Vec3::new(x, y, z)
}

fn unit_sphere_scene() -> Vec<Model> {
    vec![Model::new(Rgb { r: 200, g: 100, b: 50 }, sd_sphere(S))]
}

fn light() -> Vec3 {
    v(S, S, S).normalize()
}

#[test]
fn integer_square_root() {
    assert_eq!(isqrt(0), 0);
    assert_eq!(isqrt(24), 4);
    assert_eq!(isqrt(25), 5);
    assert_eq!(isqrt(1 << 100), 1 << 50);
}

#[test]
fn sphere_at_center_is_minus_radius() {
    assert_eq!(sd_sphere(S).eval(v(0, 0, 0)), -S);
    assert_eq!(sd_sphere(3 * S / 2).eval(v(0, 0, 0)), -3 * S / 2);
}

#[test]
fn sphere_at_distance_is_distance_minus_radius() {
    // (3, 4, 0) is 5 away from the origin.
    assert_eq!(sd_sphere(S).eval(v(3 * S, 4 * S, 0)), 4 * S);
    assert_eq!(sd_sphere(2 * S).eval(v(0, 0, -2 * S)), 0);
    assert_eq!(sd_sphere(2 * S).eval(v(0, S, 0)), -S);
}

#[test]
fn box_distance() {
    let b = sd_box(v(S, S, S));
    assert_eq!(b.eval(v(0, 0, 0)), -S);
    assert_eq!(b.eval(v(3 * S, 0, 0)), 2 * S);
    assert_eq!(b.eval(v(0, -S / 2, 0)), -S / 2);
    // Outside a corner the distance is to the corner: sqrt(2).
    assert_eq!(b.eval(v(2 * S, 2 * S, 0)), 1_414_213);
}

#[test]
fn boolean_combinators() {
    let p = v(S / 2, 0, 0);
    let a = || sd_sphere(S);
    let b = || sd_sphere(S).translate(v(S, 0, 0));
    let da = a().eval(p);
    let db = b().eval(p);
    assert_eq!(da, -S / 2);
    assert_eq!(db, -S / 2);
    let q = v(-S, 0, 0);
    assert_eq!(a().union(b()).eval(q), a().eval(q).min(b().eval(q)));
    assert_eq!(a().intersection(b()).eval(q), a().eval(q).max(b().eval(q)));
    assert_eq!(a().difference(b()).eval(q), (-a().eval(q)).max(b().eval(q)));
    assert_eq!(a().union(b()).eval(q), 0);
    assert_eq!(a().intersection(b()).eval(q), S);
    assert_eq!(a().difference(b()).eval(q), S);
}

#[test]
fn smooth_union_blends_the_seam() {
    let u = sd_sphere(S).smooth_union(S, sd_sphere(S));
    // Both fields are 0 here: h = 1/2, lerp 0, minus blend / 4.
    assert_eq!(u.eval(v(S, 0, 0)), -S / 4);
    // Far apart fields fall back to the smaller one.
    let w = sd_sphere(S).smooth_union(S / 10, sd_sphere(S).translate(v(10 * S, 0, 0)));
    assert_eq!(w.eval(v(-2 * S, 0, 0)), S);
}

#[test]
fn scale_and_translate() {
    assert_eq!(sd_sphere(S).scale(2 * S).eval(v(3 * S, 0, 0)), S);
    assert_eq!(sd_sphere(S).translate(v(0, 2 * S, 0)).eval(v(0, 2 * S, 0)), -S);
    let floor = Sdf::plane(v(0, S, 0)).translate(v(0, -S, 0));
    assert_eq!(floor.eval(v(5 * S, 0, -3 * S)), S);
}

#[test]
fn normal_on_sphere_points_outward() {
    let s = sd_sphere(S);
    assert_eq!(s.eval_normal(v(S, 0, 0)), v(S, 0, 0));
    assert_eq!(s.eval_normal(v(0, S, 0)), v(0, S, 0));
    assert_eq!(s.eval_normal(v(0, 0, -S)), v(0, 0, -S));
}

#[test]
fn axis_ray_hits_sphere_at_distance_minus_radius() {
    let ray = Ray { origin: v(0, 0, 5 * S), direction: v(0, 0, -S) };
    let hit = ray.hit(&sd_sphere(S)).expect("the ray must hit");
    assert!((hit.distance - 4 * S).abs() <= 10);
    assert_eq!(hit.position, v(0, 0, S));
    assert_eq!(hit.normal, v(0, 0, S));
}

#[test]
fn ray_from_points_normalizes() {
    let r = Ray::from_points(v(S, 0, 0), v(S, 0, 10 * S));
    assert_eq!(r.origin, v(S, 0, 0));
    assert_eq!(r.direction, v(0, 0, S));
}

#[test]
fn camera_frame_along_z() {
    let c = Camera::from_points(v(0, 0, 0), v(0, 0, S), S);
    assert_eq!(c.forward, v(0, 0, S));
    assert_eq!(c.right.dot(&c.forward), 0);
    assert_eq!(c.up.dot(&c.forward), 0);
    assert_eq!(c.right.dot(&c.up), 0);
}

#[test]
fn camera_center_ray_is_forward() {
    let c = Camera::from_points(v(0, 0, 5 * S), v(0, 0, 0), S * 16 / 9);
    let r = c.get_ray(Vec2 { x: 0, y: 0 });
    assert_eq!(r.origin, v(0, 0, 5 * S));
    assert_eq!(r.direction, v(0, 0, -S));
}

#[test]
fn ray_away_from_scene_misses_and_shows_sky() {
    let models = unit_sphere_scene();
    let ray = Ray { origin: v(0, 0, 5 * S), direction: v(0, 0, S) };
    assert!(Model::nearest_hit(&models, ray).is_err());
    let cam = Camera::from_points(v(0, 0, 5 * S), v(0, 0, 0), S);
    let c = sample_color(&models, &cam, light(), ray, false, false);
    assert_eq!(c, sky_color(ray.direction));
    assert_eq!(c, Rgba { r: 127, g: 127, b: 255, a: 255 });
    let t = sample_color(&models, &cam, light(), ray, false, true);
    assert_eq!(t, Rgba { r: 0, g: 0, b: 0, a: 0 });
}

#[test]
fn sky_color_formula() {
    assert_eq!(sky_color(v(0, 0, -S)), Rgba { r: 127, g: 127, b: 0, a: 255 });
    assert_eq!(sky_color(v(S, 0, 0)), Rgba { r: 255, g: 127, b: 127, a: 255 });
    assert_eq!(sky_color(v(0, -S, 0)), Rgba { r: 127, g: 0, b: 127, a: 255 });
}

#[test]
fn nearest_hit_prefers_the_closer_model() {
    let near = Rgb { r: 1, g: 2, b: 3 };
    let far = Rgb { r: 4, g: 5, b: 6 };
    let models = vec![
        Model::new(far, sd_sphere(S).translate(v(0, 0, -3 * S))),
        Model::new(near, sd_sphere(S)),
    ];
    let ray = Ray { origin: v(0, 0, 5 * S), direction: v(0, 0, -S) };
    let (hit, color) = Model::nearest_hit(&models, ray).expect("hit");
    assert_eq!(color, near);
    assert!((hit.distance - 4 * S).abs() <= 10);
}

#[test]
fn nearest_hit_keeps_the_first_of_equal_hits() {
    let first = Rgb { r: 10, g: 0, b: 0 };
    let second = Rgb { r: 0, g: 10, b: 0 };
    let models = vec![Model::new(first, sd_sphere(S)), Model::new(second, sd_sphere(S))];
    let ray = Ray { origin: v(0, 0, 5 * S), direction: v(0, 0, -S) };
    let (_, color) = Model::nearest_hit(&models, ray).expect("hit");
    assert_eq!(color, first);
}

#[test]
fn empty_scene_misses() {
    let ray = Ray { origin: v(0, 0, 0), direction: v(S, 0, 0) };
    assert!(Model::nearest_hit(&[], ray).is_err());
}

#[test]
fn lit_hit_in_shadow_is_halved() {
    // The light comes from (1, 1, 1); the far side of the sphere is in its shadow.
    let models = unit_sphere_scene();
    let cam = Camera::from_points(v(0, 0, -5 * S), v(0, 0, 0), S);
    let ray = cam.get_ray(Vec2 { x: 0, y: 0 });
    let c = sample_color(&models, &cam, light(), ray, false, false);
    assert_eq!(c, Rgba { r: 100, g: 50, b: 25, a: 255 });
}

#[test]
fn end_to_end_unit_sphere() {
    let models = unit_sphere_scene();
    let cam = Camera::from_points(v(0, 0, 5 * S), v(0, 0, 0), S * 16 / 9);
    let center = cam.get_ray(Vec2 { x: 0, y: 0 });
    let (hit, _) = Model::nearest_hit(&models, center).expect("the centre must hit");
    assert!((hit.distance - 4 * S).abs() <= 1000);
    let opts = RenderOptions { width: 640, height: 360, normals: true, transparent: false };
    for (x, y) in [(0u32, 0u32), (639, 0), (0, 359), (639, 359)] {
        let ndc = Vec2 {
            x: x as i64 * S / 639 - S / 2,
            y: y as i64 * S / 359 - S / 2,
        };
        let ray = cam.get_ray(ndc);
        assert!(Model::nearest_hit(&models, ray).is_err());
        let pixel = render_pixel(&models, &cam, light(), &opts, x, y);
        assert_eq!(pixel, sky_color(ray.direction));
    }
}

#[test]
fn one_and_nine_samples_agree_on_a_flat_region() {
    let models = unit_sphere_scene();
    let cam = Camera::from_points(v(0, 0, 5 * S), v(0, 0, 0), S * 16 / 9);
    let one = RenderOptions { width: 640, height: 360, normals: true, transparent: true };
    let nine = RenderOptions { width: 640, height: 360, normals: false, transparent: true };
    let a = render_pixel(&models, &cam, light(), &one, 5, 5);
    let b = render_pixel(&models, &cam, light(), &nine, 5, 5);
    assert_eq!(a, b);
    assert_eq!(a, Rgba { r: 0, g: 0, b: 0, a: 0 });
    let c = Rgba { r: 225, g: 225, b: 255, a: 255 };
    assert_eq!(average(&vec![c]), average(&vec![c; 9]));
    assert_eq!(average(&vec![c; 9]), c);
}

#[test]
fn average_rounds_down() {
    let a = Rgba { r: 0, g: 10, b: 255, a: 255 };
    let b = Rgba { r: 1, g: 11, b: 0, a: 255 };
    assert_eq!(average(&vec![a, b]), Rgba { r: 0, g: 10, b: 127, a: 255 });
}

#[test]
fn transform_by_translation_matches_translate() {
    let t = v(S, -2 * S, S / 2);
    let a = sd_sphere(S).transform(Affine::from_translation(t));
    let b = sd_sphere(S).translate(t);
    for p in [v(0, 0, 0), v(S, -2 * S, S / 2), v(3 * S, S, -S)] {
        assert_eq!(a.eval(p), b.eval(p));
    }
    assert_eq!(a.eval(v(S, -2 * S, S / 2)), -S);
}

#[test]
fn transform_by_scaling_and_rotation() {
    let stretch = Affine {
        x_axis: v(2 * S, 0, 0),
        y_axis: v(0, 2 * S, 0),
        z_axis: v(0, 0, 2 * S),
        translation: v(0, 0, 0),
    };
    let inv = stretch.inverse();
    assert_eq!(inv.x_axis, v(S / 2, 0, 0));
    assert_eq!(inv.transform_point(&v(3 * S, 0, 0)), v(3 * S / 2, 0, 0));
    assert_eq!(sd_sphere(S).transform(stretch).eval(v(3 * S, 0, 0)), S / 2);
    // A quarter turn about z maps the long x side of the box onto y.
    let turn = Affine {
        x_axis: v(0, S, 0),
        y_axis: v(-S, 0, 0),
        z_axis: v(0, 0, S),
        translation: v(0, 0, 0),
    };
    let long = sd_box(v(2 * S, S / 2, S / 2)).transform(turn);
    assert_eq!(long.eval(v(0, 3 * S, 0)), S);
    assert_eq!(long.eval(v(3 * S, 0, 0)), 5 * S / 2);
}

#[test]
fn normalize_gives_unit_length_for_short_vectors() {
    for w in [v(1, 1, 1), v(3, -1, 2), v(0, 0, 7), v(S, S, S), v(-5 * S, 2, 9 * S)] {
        let n = w.normalize();
        let len = n.length();
        assert!(S - 4 <= len && len <= S, "{:?} has length {}", n, len);
    }
    assert_eq!(v(1, 1, 1).normalize(), v(577350, 577350, 577350));
    assert_eq!(v(0, 0, 0).normalize(), v(0, 0, 0));
}

#[test]
fn plane_normal_estimate_is_unit() {
    let n = v(S, S, S).normalize();
    let plane = Sdf::plane(n);
    let e = plane.eval_normal(v(0, 0, 0));
    let len = e.length();
    assert!(S - 4 <= len && len <= S, "length {}", len);
    assert!((e.x - n.x).abs() <= 2 && (e.y - n.y).abs() <= 2 && (e.z - n.z).abs() <= 2);
}

#[test]
fn miss_occlusion_is_positive_and_at_most_one() {
    let far = Ray { origin: v(0, 0, 5 * S), direction: v(0, 0, S) };
    match far.hit(&sd_sphere(S)) {
        Err(o) => assert!(0 < o && o <= S, "occlusion {}", o),
        Ok(_) => panic!("the ray points away from the sphere"),
    }
    let graze = Ray { origin: v(-5 * S, 11 * S / 10, 0), direction: v(S, 0, 0) };
    match graze.hit(&sd_sphere(S)) {
        Err(o) => assert!(0 < o && o < S, "occlusion {}", o),
        Ok(_) => panic!("the ray passes above the sphere"),
    }
}

#[test]
fn axis_rays_from_all_six_directions_hit_the_sphere() {
    let dirs = [v(S, 0, 0), v(-S, 0, 0), v(0, S, 0), v(0, -S, 0), v(0, 0, S), v(0, 0, -S)];
    for u in dirs {
        let ray = Ray { origin: u.scale(7 * S), direction: u.scale(-S) };
        let hit = ray.hit(&sd_sphere(2 * S)).expect("the ray must hit");
        assert_eq!(hit.distance, 5 * S);
        assert_eq!(hit.position, u.scale(2 * S));
        assert_eq!(hit.normal, u);
        assert_eq!(sd_sphere(2 * S).eval_normal(u.scale(2 * S)), u);
    }
}
