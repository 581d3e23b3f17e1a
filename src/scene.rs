// Models of a scene and the search for the nearest hit.
use vstd::prelude::*;
use crate::fixed::{LIMIT, SCALE};
use crate::sdf::{sdf_valid, Sdf};
use crate::trace::{trace_spec, Ray, RayHit};
use crate::vector::min_spec;

verus! {

/// An 8-bit RGB colour.
#[derive(Clone, Copy, Debug, PartialEq, Eq, Structural)]
pub struct Rgb {
    pub r: u8,
    pub g: u8,
    pub b: u8,
}

/// A surface of one flat colour.
#[derive(Debug)]
pub struct Model {
    pub color: Rgb,
    pub sdf: Sdf,
}

/// The best hit so far with its colour, and the least occlusion of the misses.
pub type Nearest = (Option<(RayHit, Rgb)>, int);

/// Folds the trace of `ray` against `m` into `acc`: a hit replaces the best one only
/// when strictly nearer, a miss lowers the occlusion.
pub open spec fn nearest_step(acc: Nearest, m: Model, ray: Ray) -> Nearest {
    match trace_spec(ray, &m.sdf) {
        Ok(h) => {
            if acc.0 is Some && acc.0->Some_0.0.distance <= h.distance {
                acc
            } else {
                (Some((h, m.color)), acc.1)
            }
        },
        Err(o) => (acc.0, min_spec(acc.1, o as int)),
    }
}

/// `nearest_step` over `models` in order, from no hit and occlusion `LIMIT`.
pub open spec fn nearest_fold(models: Seq<Model>, ray: Ray) -> Nearest
    decreases models.len(),
{
    if models.len() == 0 {
        (None, LIMIT as int)
    } else {
        nearest_step(nearest_fold(models.drop_last(), ray), models.last(), ray)
    }
}

/// The nearest hit over `models`, or the least occlusion when all of them miss.
pub open spec fn nearest_spec(models: Seq<Model>, ray: Ray) -> Result<(RayHit, Rgb), i64> {
    let n = nearest_fold(models, ray);
    match n.0 {
        Some(x) => Ok(x),
        None => Err(n.1 as i64),
    }
}

pub open spec fn models_valid(models: Seq<Model>) -> bool {
    forall|i: int| 0 <= i < models.len() ==> sdf_valid(#[trigger] models[i].sdf)
}

impl Model {
    pub fn new(color: Rgb, sdf: Sdf) -> (r: Model)
        ensures
            r.color == color,
            r.sdf == sdf,
    {
        Model { color, sdf }
    }

    /// Traces `ray` against every model and keeps the nearest hit, the first one
    /// among equally near hits; when every model misses, the least occlusion.
    pub fn nearest_hit(models: &[Model], ray: Ray) -> (r: Result<(RayHit, Rgb), i64>)
        requires
            models_valid(models@),
            ray.wf(),
        ensures
            r == nearest_spec(models@, ray),
            r is Ok ==> r->Ok_0.0.position.wf() && r->Ok_0.0.normal.wf(),
            r is Err ==> 0 < r->Err_0 && (models@.len() > 0 ==> r->Err_0 <= SCALE),
    {
        let mut nearest: Option<(RayHit, Rgb)> = None;
        let mut min_occlusion: i64 = LIMIT;
        let mut i: usize = 0;
        while i < models.len()
            invariant
                i <= models.len(),
                models_valid(models@),
                ray.wf(),
                nearest_fold(models@.subrange(0, i as int), ray) == (nearest, min_occlusion as int),
                nearest is Some ==> nearest->Some_0.0.position.wf() && nearest->Some_0.0.normal.wf(),
                0 < min_occlusion <= LIMIT,
                nearest is None && i > 0 ==> min_occlusion <= SCALE,
            decreases models.len() - i,
        {
            let model = &models[i];
            proof {
                assert(models@.subrange(0, i + 1).drop_last() == models@.subrange(0, i as int));
                assert(models@.subrange(0, i + 1).last() == models@[i as int]);
                assert(sdf_valid(models@[i as int].sdf));
            }
            match ray.hit(&model.sdf) {
                Ok(hit) => {
                    let keep = match nearest {
                        Some((best, _)) => best.distance <= hit.distance,
                        None => false,
                    };
                    if !keep {
                        nearest = Some((hit, model.color));
                    }
                },
                Err(occlusion) => {
                    if occlusion < min_occlusion {
                        min_occlusion = occlusion;
                    }
                },
            }
            i = i + 1;
        }
        proof {
            assert(models@.subrange(0, models@.len() as int) == models@);
        }
        match nearest {
            Some(x) => Ok(x),
            None => Err(min_occlusion),
        }
    }
}

} // verus!
