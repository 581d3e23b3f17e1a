// The camera and the rays it casts through the viewport.
use vstd::prelude::*;
use crate::fixed::{in_range, SCALE};
use crate::trace::Ray;
use crate::vector::{v_add, v_cross, v_normalize, v_scale, v_sub, Vec2, Vec3};

verus! {

/// The fixed world up axis.
pub open spec fn world_up() -> Vec3 {
    Vec3 { x: 0, y: SCALE, z: 0 }
}

/// An eye with a viewing frame and the width-over-height ratio of the image.
#[derive(Clone, Copy, Debug, PartialEq, Eq, Structural)]
pub struct Camera {
    pub origin: Vec3,
    pub forward: Vec3,
    pub right: Vec3,
    pub up: Vec3,
    pub aspect: i64,
}

/// The camera at `origin` looking at `target`: `forward` is the unit direction
/// to the target, `right` is world up crossed with it, and `up` is `right`
/// crossed with `forward`.
pub open spec fn camera_spec(origin: Vec3, target: Vec3, aspect: i64) -> Camera {
    let forward = v_normalize(v_sub(target, origin));
    let right = v_cross(world_up(), forward);
    Camera { origin, forward, right, up: v_cross(right, forward), aspect }
}

/// The point on the viewport, one unit in front of the eye, that `ndc` names.
pub open spec fn viewport_point(c: Camera, ndc: Vec2) -> Vec3 {
    v_add(
        v_add(v_add(c.origin, c.forward), v_scale(v_scale(c.right, ndc.x as int), c.aspect as int)),
        v_scale(c.up, ndc.y as int),
    )
}

/// The ray from the eye through the viewport point that `ndc` names.
pub open spec fn camera_ray(c: Camera, ndc: Vec2) -> Ray {
    let p = viewport_point(c, ndc);
    Ray { origin: c.origin, direction: v_normalize(v_sub(p, c.origin)) }
}

impl Camera {
    pub open spec fn wf(self) -> bool {
        self.origin.wf() && self.forward.wf() && self.right.wf() && self.up.wf() && in_range(
            self.aspect as int,
        )
    }

    pub fn from_points(origin: Vec3, target: Vec3, aspect_ratio: i64) -> (r: Camera)
        requires
            origin.wf(),
            target.wf(),
            in_range(aspect_ratio as int),
        ensures
            r == camera_spec(origin, target, aspect_ratio),
            r.wf(),
    {
        let forward = target.sub(&origin).normalize();
        let up_axis = Vec3 { x: 0, y: SCALE, z: 0 };
        let right = up_axis.cross(&forward);
        let up = right.cross(&forward);
        Camera { origin, forward, right, up, aspect: aspect_ratio }
    }

    /// The ray through the viewport at normalized device coordinates `ndc`.
    pub fn get_ray(&self, ndc: Vec2) -> (r: Ray)
        requires
            self.wf(),
            in_range(ndc.x as int),
            in_range(ndc.y as int),
        ensures
            r == camera_ray(*self, ndc),
            r.wf(),
    {
        let center = self.origin.add(&self.forward);
        let across = self.right.scale(ndc.x).scale(self.aspect);
        let point = center.add(&across).add(&self.up.scale(ndc.y));
        Ray::from_points(self.origin, point)
    }
}

} // verus!
