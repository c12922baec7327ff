use vstd::prelude::*;
use crate::color::{average_channel, average_color, blend, blend_color, scale_color, update_color, Color};
use crate::lighting::{
    ambient_lighting, ambient_sum, compute_lighting, lighting_at, lights_wf, reflect, reflect_exec, scene_wf, Light,
};
use crate::math::{
    is_bounded, bounded, div_toward_zero, dot, lemma_dot_bound, negate, normalize, v_normalize, tdiv, v_neg, Point, V3, COORD_LIMIT,
    DIR_LIMIT, SCALE,
};
use crate::shapes::{
    point_at, shape_color, shape_hit, shape_normal, shape_specular, world_point,
    Intersection, Ray, T_UNBOUNDED,
};

verus! {

/// The object with the smallest hit parameter among the first `k` objects of the
/// scene, with that parameter; on equal parameters the earlier object wins.
pub open spec fn nearest_hit(scene: Seq<Intersection>, o: V3, d: V3, tmin: int, k: nat) -> Option<(int, int)>
    decreases k,
{
    if k == 0 {
        None
    } else {
        let prev = nearest_hit(scene, o, d, tmin, (k - 1) as nat);
        match shape_hit(scene[k - 1], o, d, tmin, T_UNBOUNDED as int) {
            Some(t) => match prev {
                Some((_, best)) => if t < best {
                    Some(((k - 1) as int, t))
                } else {
                    prev
                },
                None => Some(((k - 1) as int, t)),
            },
            None => prev,
        }
    }
}

/// The color seen along the ray `(o, d)` with `depth` reflections left.
pub open spec fn trace(
    scene: Seq<Intersection>,
    lights: Seq<Light>,
    o: V3,
    d: V3,
    tmin: int,
    depth: nat,
) -> Color
    decreases depth,
{
    match nearest_hit(scene, o, d, tmin, scene.len()) {
        None => scale_color(shape_color(scene[0]), ambient_sum(lights)),
        Some((i, t)) => {
            let shape = scene[i];
            let local = scale_color(shape_color(shape), lighting_at(scene, lights, o, d, shape, t));
            let weight = shape_specular(shape);
            if weight == 0 || depth == 0 {
                local
            } else {
                let p = point_at(o, d, t);
                let r = v_normalize(reflect(shape_normal(shape, p), v_neg(d)));
                blend_color(local, trace(scene, lights, p, r, tmin, (depth - 1) as nat), weight as int)
            }
        },
    }
}

/// The nearest-hit search finds a hit exactly when some object is hit, and the hit
/// it finds is one of the object's and no farther than any other.
pub proof fn lemma_nearest_hit(scene: Seq<Intersection>, o: V3, d: V3, tmin: int, k: nat)
    requires
        k <= scene.len(),
    ensures
        nearest_hit(scene, o, d, tmin, k) is None <==> forall|j: int|
            0 <= j < k ==> (#[trigger] shape_hit(scene[j], o, d, tmin, T_UNBOUNDED as int)) is None,
        match nearest_hit(scene, o, d, tmin, k) {
            Some((i, t)) => {
                &&& 0 <= i < k
                &&& shape_hit(scene[i], o, d, tmin, T_UNBOUNDED as int) == Some(t)
                &&& forall|j: int|
                    0 <= j < k && (#[trigger] shape_hit(scene[j], o, d, tmin, T_UNBOUNDED as int)) is Some
                        ==> t <= shape_hit(scene[j], o, d, tmin, T_UNBOUNDED as int)->0
            },
            None => true,
        },
    decreases k,
{
    if k > 0 {
        lemma_nearest_hit(scene, o, d, tmin, (k - 1) as nat);
    }
}

/// The first object, by position, with the smallest hit parameter, if any object is hit.
fn closest_hit(scene: &Vec<Intersection>, ray: &Ray, t_min: i64) -> (r: Option<(usize, i64)>)
    requires
        scene_wf(scene@),
        ray.wf(),
    ensures
        match r {
            Some((i, t)) => nearest_hit(scene@, ray.origin@, ray.direction@, t_min as int, scene.len() as nat)
                == Some((i as int, t as int)),
            None => nearest_hit(scene@, ray.origin@, ray.direction@, t_min as int, scene.len() as nat) is None,
        },
{
    let mut best: Option<(usize, i64)> = None;
    let mut i: usize = 0;
    while i < scene.len()
        invariant
            scene_wf(scene@),
            ray.wf(),
            i <= scene.len(),
            match best {
                Some((b, t)) => nearest_hit(scene@, ray.origin@, ray.direction@, t_min as int, i as nat)
                    == Some((b as int, t as int)),
                None => nearest_hit(scene@, ray.origin@, ray.direction@, t_min as int, i as nat) is None,
            },
        decreases scene.len() - i,
    {
        let hit = scene[i].is_intersect(ray, t_min, T_UNBOUNDED);
        if hit.0 {
            match best {
                Some((_, t)) => {
                    if hit.1 < t {
                        best = Some((i, hit.1));
                    }
                },
                None => {
                    best = Some((i, hit.1));
                },
            }
        }
        i += 1;
    }
    best
}

/// The color seen along a ray: the nearest object's color scaled by the light
/// reaching it, blended with the reflected color while `recursion_depth` lasts;
/// when nothing is hit, the first object's (the background's) color scaled by the
/// ambient light.
pub fn trace_ray(
    scene: &Vec<Intersection>,
    light_sources: &Vec<Light>,
    ray: &Ray,
    t_min: i64,
    recursion_depth: u8,
) -> (r: Color)
    requires
        scene.len() > 0,
        scene_wf(scene@),
        lights_wf(light_sources@),
        ray.wf(),
    ensures
        r == trace(
            scene@,
            light_sources@,
            ray.origin@,
            ray.direction@,
            t_min as int,
            recursion_depth as nat,
        ),
    decreases recursion_depth,
{
    let closest = closest_hit(scene, ray, t_min);
    proof {
        lemma_nearest_hit(scene@, ray.origin@, ray.direction@, t_min as int, scene.len() as nat);
    }
    match closest {
        None => update_color(&scene[0].get_color(), ambient_lighting(light_sources)),
        Some((i, t)) => {
            let shape = &scene[i];
            let light_intensity = compute_lighting(scene, light_sources, ray, shape, t);
            let color = update_color(&shape.get_color(), light_intensity);
            let specular = shape.get_specular_rate();
            if specular == 0 || recursion_depth == 0 {
                return color;
            }
            let intersect = match world_point(ray, t) {
                Some(p) => p,
                None => {
                    return color;
                },
            };
            let normal = shape.get_normal(&intersect);
            let inverse_direction = negate(&ray.direction);
            proof {
                lemma_dot_bound(normal@, inverse_direction@, SCALE as int, DIR_LIMIT as int);
            }
            let k = 2 * dot(&normal, &inverse_direction);
            let reflect_dir = normalize(&reflect_exec(&normal, &inverse_direction, k));
            let reflect_ray = Ray { origin: intersect, direction: reflect_dir };
            let reflected_color = trace_ray(
                scene,
                light_sources,
                &reflect_ray,
                t_min,
                recursion_depth - 1,
            );
            blend(&color, &reflected_color, specular)
        },
    }
}

/// The ray parameter below which camera and reflection rays ignore hits (one unit).
pub const NEAR_T: i64 = 1000;

/// How pixels map to camera rays and how deep reflections go.
#[derive(Clone, Copy, Debug, PartialEq, Eq, Structural)]
pub struct RenderConfig {
    pub image_width: u32,
    pub image_height: u32,
    /// Size of the viewport, in thousandths.
    pub viewport_width: i64,
    pub viewport_height: i64,
    /// Distance from the eye to the viewport, in thousandths.
    pub viewport_distance: i64,
    pub eye: Point,
    pub recursion_depth: u8,
}

impl RenderConfig {
    pub open spec fn wf(&self) -> bool {
        &&& self.image_width >= 1
        &&& self.image_height >= 1
        &&& 0 <= self.viewport_width <= COORD_LIMIT
        &&& 0 <= self.viewport_height <= COORD_LIMIT
        &&& 0 <= self.viewport_distance <= COORD_LIMIT
        &&& bounded(self.eye@, COORD_LIMIT as int)
    }
}

impl RenderConfig {
    /// Whether the image is non-empty and the viewport and eye lie in the world.
    pub fn is_valid(&self) -> (r: bool)
        ensures
            r == self.wf(),
    {
        self.image_width >= 1 && self.image_height >= 1 && 0 <= self.viewport_width
            && self.viewport_width <= COORD_LIMIT && 0 <= self.viewport_height
            && self.viewport_height <= COORD_LIMIT && 0 <= self.viewport_distance
            && self.viewport_distance <= COORD_LIMIT && is_bounded(&self.eye, COORD_LIMIT)
    }
}

/// The sub-pixel offsets of the samples, in thousandths of a pixel (a rotated grid).
pub open spec fn jitter_spec(k: int) -> (int, int) {
    if k == 0 {
        (-250, 750)
    } else if k == 1 {
        (750, 333)
    } else if k == 2 {
        (-750, -250)
    } else {
        (250, -750)
    }
}

pub fn jitter(k: usize) -> (r: (i64, i64))
    requires
        k < 4,
    ensures
        r.0 == jitter_spec(k as int).0,
        r.1 == jitter_spec(k as int).1,
{
    if k == 0 {
        (-250, 750)
    } else if k == 1 {
        (750, 333)
    } else if k == 2 {
        (-750, -250)
    } else {
        (250, -750)
    }
}

/// Maps an image coordinate (thousandths of a pixel) to a viewport coordinate.
pub open spec fn viewport_axis(x: int, pixels: int, viewport: int) -> int {
    tdiv((x - pixels * SCALE / 2) * viewport, pixels * SCALE)
}

/// The point of the viewport under image position `(x, y)` (thousandths of a pixel),
/// relative to the eye.
pub open spec fn viewport_point(cfg: RenderConfig, x: int, y: int) -> V3 {
    (
        viewport_axis(x, cfg.image_width as int, cfg.viewport_width as int),
        viewport_axis(y, cfg.image_height as int, cfg.viewport_height as int),
        cfg.viewport_distance as int,
    )
}

proof fn lemma_viewport_axis_bound(x: int, pixels: int, viewport: int)
    requires
        pixels >= 1,
        -SCALE <= x <= pixels * SCALE + SCALE,
        0 <= viewport <= COORD_LIMIT,
    ensures
        -2 * viewport <= viewport_axis(x, pixels, viewport) <= 2 * viewport,
{
    let m = pixels * 1000;
    let a = x - m / 2;
    assert(-2 * m <= a <= 2 * m);
    assert(-(2 * m * viewport) <= a * viewport <= 2 * m * viewport) by (nonlinear_arith)
        requires
            -2 * m <= a <= 2 * m,
            0 <= viewport,
    ;
    assert((2 * m * viewport) / m == 2 * viewport) by (nonlinear_arith)
        requires
            m > 0,
    ;
    if a * viewport >= 0 {
        vstd::arithmetic::div_mod::lemma_div_is_ordered(a * viewport, 2 * m * viewport, m);
    } else {
        vstd::arithmetic::div_mod::lemma_div_is_ordered(-(a * viewport), 2 * m * viewport, m);
    }
}

fn viewport_axis_exec(x: i64, pixels: u32, viewport: i64) -> (r: i64)
    requires
        pixels >= 1,
        -SCALE <= x <= pixels * SCALE + SCALE,
        0 <= viewport <= COORD_LIMIT,
    ensures
        r == viewport_axis(x as int, pixels as int, viewport as int),
        -2 * viewport <= r <= 2 * viewport,
{
    proof {
        lemma_viewport_axis_bound(x as int, pixels as int, viewport as int);
    }
    let m = (pixels as i128) * 1000;
    let a = (x as i128) - m / 2;
    proof {
        crate::math::lemma_mul_bound(a as int, viewport as int, 2 * m, COORD_LIMIT as int);
    }
    div_toward_zero(a * (viewport as i128), m) as i64
}

/// The direction from the eye through image position `(x, y)` (thousandths of a pixel).
pub fn scene_to_viewport(cfg: &RenderConfig, x: i64, y: i64) -> (r: Point)
    requires
        cfg.wf(),
        -SCALE <= x <= cfg.image_width * SCALE + SCALE,
        -SCALE <= y <= cfg.image_height * SCALE + SCALE,
    ensures
        r@ == viewport_point(*cfg, x as int, y as int),
        bounded(r@, DIR_LIMIT as int),
{
    Point(
        viewport_axis_exec(x, cfg.image_width, cfg.viewport_width),
        viewport_axis_exec(y, cfg.image_height, cfg.viewport_height),
        cfg.viewport_distance,
    )
}

/// The color traced for subsample `k` of pixel `(x, y)`.
pub open spec fn sample_color(
    scene: Seq<Intersection>,
    lights: Seq<Light>,
    cfg: RenderConfig,
    x: int,
    y: int,
    k: int,
) -> Color {
    let j = jitter_spec(k);
    let dir = viewport_point(cfg, x * SCALE + j.0, y * SCALE + j.1);
    trace(scene, lights, cfg.eye@, dir, NEAR_T as int, cfg.recursion_depth as nat)
}

/// The pixel's color: the mean of its four subsamples, channel by channel.
pub open spec fn pixel_color(scene: Seq<Intersection>, lights: Seq<Light>, cfg: RenderConfig, x: int, y: int) -> Color {
    let c0 = sample_color(scene, lights, cfg, x, y, 0);
    let c1 = sample_color(scene, lights, cfg, x, y, 1);
    let c2 = sample_color(scene, lights, cfg, x, y, 2);
    let c3 = sample_color(scene, lights, cfg, x, y, 3);
    Color(
        average_channel(c0.0 + c1.0 + c2.0 + c3.0) as u8,
        average_channel(c0.1 + c1.1 + c2.1 + c3.1) as u8,
        average_channel(c0.2 + c1.2 + c2.2 + c3.2) as u8,
    )
}

fn render_sample(
    scene: &Vec<Intersection>,
    light_sources: &Vec<Light>,
    cfg: &RenderConfig,
    x: u32,
    y: u32,
    k: usize,
) -> (r: Color)
    requires
        scene.len() > 0,
        scene_wf(scene@),
        lights_wf(light_sources@),
        cfg.wf(),
        x < cfg.image_width,
        y < cfg.image_height,
        k < 4,
    ensures
        r == sample_color(scene@, light_sources@, *cfg, x as int, y as int, k as int),
{
    let j = jitter(k);
    let px = (x as i64) * SCALE + j.0;
    let py = (y as i64) * SCALE + j.1;
    let viewport_pixel = scene_to_viewport(cfg, px, py);
    let ray = Ray { origin: cfg.eye, direction: viewport_pixel };
    trace_ray(scene, light_sources, &ray, NEAR_T, cfg.recursion_depth)
}

/// Traces the four jittered subsamples of pixel `(x, y)` and averages them.
pub fn render_pixel(
    scene: &Vec<Intersection>,
    light_sources: &Vec<Light>,
    cfg: &RenderConfig,
    x: u32,
    y: u32,
) -> (r: Color)
    requires
        scene.len() > 0,
        scene_wf(scene@),
        lights_wf(light_sources@),
        cfg.wf(),
        x < cfg.image_width,
        y < cfg.image_height,
    ensures
        r == pixel_color(scene@, light_sources@, *cfg, x as int, y as int),
{
    let c0 = render_sample(scene, light_sources, cfg, x, y, 0);
    let c1 = render_sample(scene, light_sources, cfg, x, y, 1);
    let c2 = render_sample(scene, light_sources, cfg, x, y, 2);
    let c3 = render_sample(scene, light_sources, cfg, x, y, 3);
    let color_sum: (u32, u32, u32) = (
        c0.0 as u32 + c1.0 as u32 + c2.0 as u32 + c3.0 as u32,
        c0.1 as u32 + c1.1 as u32 + c2.1 as u32 + c3.1 as u32,
        c0.2 as u32 + c1.2 as u32 + c2.2 as u32 + c3.2 as u32,
    );
    average_color(color_sum)
}

} // verus!
