use vstd::prelude::*;
use crate::color::LIGHT_CAP;
use crate::math::{
    is_bounded, bounded, div_toward_zero, dot, isqrt_spec, lemma_dot_bound, lemma_isqrt_bounds, lemma_mul_bound,
    lemma_square_nonneg, length, is_isqrt, negate, subtract, tdiv, v_dot, v_len, v_neg, v_scale, v_sub, Point,
    V3, COORD_LIMIT, DIR_LIMIT, SCALE,
};
use crate::shapes::{
    world_point, point_at, shape_hit, shape_normal, shape_reflection, Intersection, Ray, T_UNBOUNDED,
};

verus! {

/// Largest intensity of a single light, in thousandths.
pub const INTENSITY_LIMIT: i64 = 1_000_000_000;

/// Shadow rays ignore hits closer than this (thousandths), so a surface does not shade itself.
pub const SHADOW_T_MIN: i64 = 1;

/// A light source; intensities are in thousandths and add up over the lights.
#[derive(Clone, Copy, Debug, PartialEq, Eq, Structural)]
pub enum Light {
    Ambient { intensity: i64 },
    Point { intensity: i64, position: Point },
    Directional { intensity: i64, direction: Point },
}

impl Light {
    pub open spec fn wf(&self) -> bool {
        match self {
            Light::Ambient { intensity } => 0 <= *intensity <= INTENSITY_LIMIT,
            Light::Point { intensity, position } => 0 <= *intensity <= INTENSITY_LIMIT && bounded(
                position@,
                COORD_LIMIT as int,
            ),
            Light::Directional { intensity, direction } => 0 <= *intensity <= INTENSITY_LIMIT
                && bounded(direction@, COORD_LIMIT as int),
        }
    }
}

impl Light {
    /// Whether the intensity and the position or direction are in range.
    pub fn is_valid(&self) -> (r: bool)
        ensures
            r == self.wf(),
    {
        match self {
            Light::Ambient { intensity } => 0 <= *intensity && *intensity <= INTENSITY_LIMIT,
            Light::Point { intensity, position } => 0 <= *intensity && *intensity <= INTENSITY_LIMIT
                && is_bounded(position, COORD_LIMIT),
            Light::Directional { intensity, direction } => 0 <= *intensity && *intensity
                <= INTENSITY_LIMIT && is_bounded(direction, COORD_LIMIT),
        }
    }
}

/// Whether every object of the scene is valid.
pub fn scene_is_valid(scene: &Vec<Intersection>) -> (r: bool)
    ensures
        r == scene_wf(scene@),
{
    let mut i: usize = 0;
    while i < scene.len()
        invariant
            i <= scene.len(),
            forall|j: int| 0 <= j < i ==> (#[trigger] scene@[j]).wf(),
        decreases scene.len() - i,
    {
        if !scene[i].is_valid() {
            return false;
        }
        i += 1;
    }
    true
}

/// Whether every light is valid.
pub fn lights_are_valid(lights: &Vec<Light>) -> (r: bool)
    ensures
        r == lights_wf(lights@),
{
    let mut i: usize = 0;
    while i < lights.len()
        invariant
            i <= lights.len(),
            forall|j: int| 0 <= j < i ==> (#[trigger] lights@[j]).wf(),
        decreases lights.len() - i,
    {
        if !lights[i].is_valid() {
            return false;
        }
        i += 1;
    }
    true
}

pub open spec fn scene_wf(scene: Seq<Intersection>) -> bool {
    forall|i: int| 0 <= i < scene.len() ==> (#[trigger] scene[i]).wf()
}

pub open spec fn lights_wf(lights: Seq<Light>) -> bool {
    forall|i: int| 0 <= i < lights.len() ==> (#[trigger] lights[i]).wf()
}

/// Some object of the scene blocks the ray from `p` along `l` inside `(SHADOW_T_MIN, tmax)`.
pub open spec fn in_shadow_spec(scene: Seq<Intersection>, p: V3, l: V3, tmax: int) -> bool {
    exists|i: int|
        0 <= i < scene.len() && (#[trigger] shape_hit(scene[i], p, l, SHADOW_T_MIN as int, tmax)).is_some()
}

/// The cosine between normal and light direction, in thousandths; zero when the
/// light is behind, and at most `SCALE` (lengths are rounded down, so the
/// quotient may overshoot by rounding).
pub open spec fn diffuse_spec(l: V3, n: V3) -> int {
    let d = v_dot(n, l);
    let den = v_len(n) * v_len(l);
    if d > 0 && den > 0 {
        let c = d * SCALE / den;
        if c > SCALE {
            SCALE as int
        } else {
            c
        }
    } else {
        0
    }
}

/// The light direction mirrored about a normal of length `SCALE`: `2 (n . l) n - l`.
pub open spec fn reflect(n: V3, l: V3) -> V3 {
    v_sub(v_scale(n, 2 * v_dot(n, l), SCALE * SCALE), l)
}

/// `c` to the power `e`, both `c` and the result in thousandths, by repeated squaring.
pub open spec fn fx_pow(c: int, e: nat) -> int
    decreases e,
{
    if e == 0 {
        SCALE as int
    } else if e % 2 == 0 {
        let h = fx_pow(c, e / 2);
        h * h / (SCALE as int)
    } else {
        c * fx_pow(c, (e - 1) as nat) / (SCALE as int)
    }
}

/// The Phong highlight in thousandths: the cosine between the mirrored light
/// direction and the direction back to the viewer, raised to `exp`.
pub open spec fn highlight_spec(l: V3, n: V3, d: V3, exp: i32) -> int {
    if exp == -1 {
        0
    } else {
        let v = v_neg(d);
        let r = reflect(n, l);
        let rd = v_dot(r, v);
        let den = v_len(r) * v_len(v);
        if rd > 0 && den > 0 {
            let c = rd * SCALE / den;
            fx_pow(if c > SCALE { SCALE as int } else { c }, exp as nat)
        } else {
            0
        }
    }
}

/// What one unshadowed light of direction `l` adds: nothing when it lies behind the
/// surface, else diffuse and highlight, each scaled by intensity.
pub open spec fn direct_term(intensity: int, l: V3, n: V3, d: V3, exp: i32) -> int {
    if v_dot(n, l) <= 0 {
        0
    } else {
        intensity * diffuse_spec(l, n) / (SCALE as int) + intensity * highlight_spec(l, n, d, exp) / (
        SCALE as int)
    }
}

/// What one light adds at point `p` with normal `n`, seen along `d`.
pub open spec fn light_term(scene: Seq<Intersection>, light: Light, p: V3, n: V3, d: V3, exp: i32) -> int {
    match light {
        Light::Ambient { intensity } => intensity as int,
        Light::Point { intensity, position } => {
            let l = v_sub(position@, p);
            if in_shadow_spec(scene, p, l, SCALE as int) {
                0
            } else {
                direct_term(intensity as int, l, n, d, exp)
            }
        },
        Light::Directional { intensity, direction } => {
            let l = direction@;
            if in_shadow_spec(scene, p, l, T_UNBOUNDED as int) {
                0
            } else {
                direct_term(intensity as int, l, n, d, exp)
            }
        },
    }
}

/// The sum of the lights' terms, saturating at `LIGHT_CAP`.
pub open spec fn lighting_sum(scene: Seq<Intersection>, lights: Seq<Light>, p: V3, n: V3, d: V3, exp: i32) -> int
    decreases lights.len(),
{
    if lights.len() == 0 {
        0
    } else {
        let s = lighting_sum(scene, lights.drop_last(), p, n, d, exp) + light_term(
            scene,
            lights.last(),
            p,
            n,
            d,
            exp,
        );
        if s > LIGHT_CAP {
            LIGHT_CAP as int
        } else {
            s
        }
    }
}

/// The ambient lights' intensities summed, saturating at `LIGHT_CAP`: the light that
/// reaches the background, which has no surface for the other lights to shine on.
pub open spec fn ambient_sum(lights: Seq<Light>) -> int
    decreases lights.len(),
{
    if lights.len() == 0 {
        0
    } else {
        let term = match lights.last() {
            Light::Ambient { intensity } => intensity as int,
            _ => 0,
        };
        let s = ambient_sum(lights.drop_last()) + term;
        if s > LIGHT_CAP {
            LIGHT_CAP as int
        } else {
            s
        }
    }
}

/// The light intensity at the hit of `shape` at parameter `t` along the ray `(o, d)`.
pub open spec fn lighting_at(
    scene: Seq<Intersection>,
    lights: Seq<Light>,
    o: V3,
    d: V3,
    shape: Intersection,
    t: int,
) -> int {
    let p = point_at(o, d, t);
    lighting_sum(scene, lights, p, shape_normal(shape, p), d, shape_reflection(shape))
}

pub proof fn lemma_fx_pow_range(c: int, e: nat)
    requires
        0 <= c <= SCALE,
    ensures
        0 <= fx_pow(c, e) <= SCALE,
    decreases e,
{
    if e == 0 {
    } else if e % 2 == 0 {
        lemma_fx_pow_range(c, e / 2);
        let h = fx_pow(c, e / 2);
        assert(0 <= h * h / 1000 <= 1000) by (nonlinear_arith)
            requires
                0 <= h <= 1000,
        ;
    } else {
        lemma_fx_pow_range(c, (e - 1) as nat);
        let h = fx_pow(c, (e - 1) as nat);
        assert(0 <= c * h / 1000 <= 1000) by (nonlinear_arith)
            requires
                0 <= h <= 1000,
                0 <= c <= 1000,
        ;
    }
}

fn fx_pow_exec(c: i128, e: u32) -> (r: i128)
    requires
        0 <= c <= SCALE,
    ensures
        r == fx_pow(c as int, e as nat),
    decreases e,
{
    proof {
        lemma_fx_pow_range(c as int, e as nat);
    }
    if e == 0 {
        SCALE as i128
    } else if e % 2 == 0 {
        let h = fx_pow_exec(c, e / 2);
        proof {
            lemma_fx_pow_range(c as int, (e / 2) as nat);
            lemma_mul_bound(h as int, h as int, 1000, 1000);
        }
        h * h / (SCALE as i128)
    } else {
        let h = fx_pow_exec(c, e - 1);
        proof {
            lemma_fx_pow_range(c as int, (e - 1) as nat);
            lemma_mul_bound(c as int, h as int, 1000, 1000);
        }
        c * h / (SCALE as i128)
    }
}

proof fn lemma_len_bound(a: V3, lim: int)
    requires
        bounded(a, lim),
        0 <= lim,
    ensures
        0 <= v_len(a) <= 3 * (lim * lim),
        v_len(a) == 0 ==> v_dot(a, a) == 0,
{
    lemma_square_nonneg(a);
    lemma_dot_bound(a, a, lim, lim);
    lemma_isqrt_bounds(v_dot(a, a), 0);
    let n = v_dot(a, a);
    let s = isqrt_spec(n);
    assert(is_isqrt(n, s));
    if s == 0 {
        assert((s + 1) * (s + 1) == 1) by (nonlinear_arith)
            requires
                s == 0,
        ;
    }
}

/// The diffuse cosine in thousandths.
fn diffuse_light(light_dir: &Point, normal: &Point) -> (r: i128)
    requires
        bounded(light_dir@, DIR_LIMIT as int),
        bounded(normal@, SCALE as int),
    ensures
        r == diffuse_spec(light_dir@, normal@),
        0 <= r <= SCALE,
{
    proof {
        lemma_dot_bound(normal@, light_dir@, SCALE as int, DIR_LIMIT as int);
        lemma_len_bound(normal@, SCALE as int);
        lemma_len_bound(light_dir@, DIR_LIMIT as int);
    }
    let d = dot(normal, light_dir);
    let ln = length(normal);
    let ll = length(light_dir);
    proof {
        lemma_mul_bound(ln as int, ll as int, 3_000_000, 120_000_000_000_000_000);
    }
    let den = ln * ll;
    if d > 0 && den > 0 {
        proof {
            assert(0 <= (d * 1000) / (den as int) <= d * 1000) by (nonlinear_arith)
                requires
                    d > 0,
                    den > 0,
            ;
        }
        let c = div_toward_zero(d * (SCALE as i128), den);
        if c > SCALE as i128 {
            SCALE as i128
        } else {
            c
        }
    } else {
        0
    }
}

/// The Phong highlight in thousandths.
fn reflection_light(light_dir: &Point, normal: &Point, ray: &Ray, exp: i32) -> (r: i128)
    requires
        bounded(light_dir@, DIR_LIMIT as int),
        bounded(normal@, SCALE as int),
        ray.wf(),
        exp >= -1,
    ensures
        r == highlight_spec(light_dir@, normal@, ray.direction@, exp),
        0 <= r <= SCALE,
{
    if exp == -1 {
        return 0;
    }
    let opposite_ray = negate(&ray.direction);
    proof {
        lemma_dot_bound(normal@, light_dir@, SCALE as int, DIR_LIMIT as int);
    }
    let k = 2 * dot(normal, light_dir);
    let r = reflect_exec(normal, light_dir, k);
    proof {
        lemma_dot_bound(r@, opposite_ray@, 1_400_000_000, DIR_LIMIT as int);
        lemma_len_bound(r@, 1_400_000_000);
        lemma_len_bound(opposite_ray@, DIR_LIMIT as int);
    }
    let r_dot = dot(&r, &opposite_ray);
    let lr = length(&r);
    let lv = length(&opposite_ray);
    proof {
        lemma_mul_bound(lr as int, lv as int, 5_880_000_000_000_000_000, 120_000_000_000_000_000);
    }
    let den = lr * lv;
    if r_dot > 0 && den > 0 {
        let scaled = r_dot * 1000;
        let c = div_toward_zero(scaled, den);
        proof {
            assert(0 <= c);
        }
        let c = if c > SCALE as i128 {
            SCALE as i128
        } else {
            c
        };
        proof {
            lemma_fx_pow_range(c as int, exp as nat);
        }
        fx_pow_exec(c, exp as u32)
    } else {
        0
    }
}

/// The direction `l` mirrored about the normal `n`: `2 (n . l) n - l`, given `k == 2 (n . l)`.
pub fn reflect_exec(normal: &Point, light_dir: &Point, k: i128) -> (r: Point)
    requires
        bounded(light_dir@, DIR_LIMIT as int),
        bounded(normal@, SCALE as int),
        k == 2 * v_dot(normal@, light_dir@),
    ensures
        r@ == reflect(normal@, light_dir@),
        bounded(r@, 1_400_000_000),
{
    proof {
        lemma_dot_bound(normal@, light_dir@, SCALE as int, DIR_LIMIT as int);
    }
    let x = reflect_component(normal.0, light_dir.0, k);
    let y = reflect_component(normal.1, light_dir.1, k);
    let z = reflect_component(normal.2, light_dir.2, k);
    Point(x, y, z)
}

fn reflect_component(n: i64, l: i64, k: i128) -> (r: i64)
    requires
        -SCALE <= n <= SCALE,
        -DIR_LIMIT <= l <= DIR_LIMIT,
        -1_200_000_000_000 <= k <= 1_200_000_000_000,
    ensures
        r == tdiv(n * k, SCALE * SCALE) - l,
        -1_400_000_000 <= r <= 1_400_000_000,
{
    proof {
        lemma_mul_bound(n as int, k as int, 1000, 1_200_000_000_000);
    }
    let q = div_toward_zero((n as i128) * k, (SCALE as i128) * (SCALE as i128));
    proof {
        let a = n * k;
        if a >= 0 {
            vstd::arithmetic::div_mod::lemma_div_is_ordered(a, 1_200_000_000_000_000, 1_000_000);
        } else {
            vstd::arithmetic::div_mod::lemma_div_is_ordered(-a, 1_200_000_000_000_000, 1_000_000);
        }
    }
    (q - l as i128) as i64
}

/// Whether an object of the scene blocks the ray from `intersection` along `light` inside `(SHADOW_T_MIN, tmax)`.
pub fn in_shadow(scene: &Vec<Intersection>, intersection: &Point, light: &Point, tmax: i64) -> (r: bool)
    requires
        scene_wf(scene@),
        bounded(intersection@, COORD_LIMIT as int),
        bounded(light@, DIR_LIMIT as int),
    ensures
        r == in_shadow_spec(scene@, intersection@, light@, tmax as int),
{
    let shadow_ray = Ray { origin: *intersection, direction: *light };
    let mut i: usize = 0;
    while i < scene.len()
        invariant
            scene_wf(scene@),
            shadow_ray.wf(),
            shadow_ray.origin@ == intersection@,
            shadow_ray.direction@ == light@,
            i <= scene.len(),
            forall|j: int|
                0 <= j < i ==> (#[trigger] shape_hit(
                    scene@[j],
                    intersection@,
                    light@,
                    SHADOW_T_MIN as int,
                    tmax as int,
                )).is_none(),
        decreases scene.len() - i,
    {
        let hit = scene[i].is_intersect(&shadow_ray, SHADOW_T_MIN, tmax);
        if hit.0 {
            return true;
        }
        i += 1;
    }
    false
}

/// An unshadowed light adds at most twice its intensity: the diffuse and the highlight
/// factors each lie in `[0, SCALE]`.
pub proof fn lemma_direct_term_bounded(intensity: int, l: V3, n: V3, d: V3, exp: i32)
    requires
        0 <= intensity <= INTENSITY_LIMIT,
    ensures
        0 <= direct_term(intensity, l, n, d, exp) <= 2 * intensity,
{
    if v_dot(n, l) > 0 {
        let dd = v_dot(n, l);
        let den = v_len(n) * v_len(l);
        if dd > 0 && den > 0 {
            assert(dd * 1000 / den >= 0) by (nonlinear_arith)
                requires
                    dd > 0,
                    den > 0,
            ;
        }
        if exp != -1 {
            let v = v_neg(d);
            let r = reflect(n, l);
            let rd = v_dot(r, v);
            let rden = v_len(r) * v_len(v);
            if rd > 0 && rden > 0 {
                let c = rd * 1000 / rden;
                assert(c >= 0) by (nonlinear_arith)
                    requires
                        rd > 0,
                        rden > 0,
                        c == rd * 1000 / rden,
                ;
                lemma_fx_pow_range(if c > SCALE { SCALE as int } else { c }, exp as nat);
            }
        }
        lemma_term_bound(intensity, diffuse_spec(l, n));
        lemma_term_bound(intensity, highlight_spec(l, n, d, exp));
    }
}

pub proof fn lemma_term_bound(intensity: int, f: int)
    requires
        0 <= intensity <= INTENSITY_LIMIT,
        0 <= f <= SCALE,
    ensures
        0 <= intensity * f <= INTENSITY_LIMIT * SCALE,
        0 <= intensity * f / 1000 <= intensity,
{
    assert(0 <= intensity * f <= intensity * 1000) by (nonlinear_arith)
        requires
            0 <= intensity,
            0 <= f <= 1000,
    ;
    lemma_mul_bound(intensity, f, INTENSITY_LIMIT as int, SCALE as int);
    vstd::arithmetic::div_mod::lemma_div_is_ordered(intensity * f, intensity * 1000, 1000);
    vstd::arithmetic::div_mod::lemma_div_multiples_vanish(intensity, 1000);
}

/// Diffuse plus highlight of an unshadowed light, each scaled by its intensity.
fn direct_light(intensity: i64, light_dir: &Point, normal: &Point, ray: &Ray, exp: i32) -> (r: i128)
    requires
        0 <= intensity <= INTENSITY_LIMIT,
        bounded(light_dir@, DIR_LIMIT as int),
        bounded(normal@, SCALE as int),
        ray.wf(),
        exp >= -1,
    ensures
        r == direct_term(intensity as int, light_dir@, normal@, ray.direction@, exp),
        0 <= r <= 2 * intensity,
{
    proof {
        lemma_dot_bound(normal@, light_dir@, SCALE as int, DIR_LIMIT as int);
    }
    if dot(normal, light_dir) <= 0 {
        return 0;
    }
    let diffuse = diffuse_light(light_dir, normal);
    let highlight = reflection_light(light_dir, normal, ray, exp);
    proof {
        lemma_term_bound(intensity as int, diffuse as int);
        lemma_term_bound(intensity as int, highlight as int);
    }
    let a = div_toward_zero((intensity as i128) * diffuse, 1000);
    let b = div_toward_zero((intensity as i128) * highlight, 1000);
    a + b
}

/// What one light adds at a surface point: its intensity if ambient; otherwise
/// nothing when shadowed, else diffuse plus highlight.
fn light_contribution(
    scene: &Vec<Intersection>,
    light: &Light,
    intersect: &Point,
    normal: &Point,
    ray: &Ray,
    exp: i32,
) -> (r: i128)
    requires
        scene_wf(scene@),
        light.wf(),
        bounded(intersect@, COORD_LIMIT as int),
        bounded(normal@, SCALE as int),
        ray.wf(),
        exp >= -1,
    ensures
        r == light_term(scene@, *light, intersect@, normal@, ray.direction@, exp),
        0 <= r <= 2 * INTENSITY_LIMIT,
{
    match light {
        Light::Ambient { intensity } => *intensity as i128,
        Light::Point { intensity, position } => {
            let light_dir = subtract(position, intersect);
            if in_shadow(scene, intersect, &light_dir, SCALE) {
                return 0;
            }
            direct_light(*intensity, &light_dir, normal, ray, exp)
        },
        Light::Directional { intensity, direction } => {
            if in_shadow(scene, intersect, direction, T_UNBOUNDED) {
                return 0;
            }
            direct_light(*intensity, direction, normal, ray, exp)
        },
    }
}

/// The light that reaches the background (thousandths): the ambient intensities summed,
/// saturating at `LIGHT_CAP`.
pub fn ambient_lighting(sources: &Vec<Light>) -> (r: i128)
    requires
        lights_wf(sources@),
    ensures
        r == ambient_sum(sources@),
        0 <= r <= LIGHT_CAP,
{
    let mut sum: i128 = 0;
    let mut i: usize = 0;
    while i < sources.len()
        invariant
            lights_wf(sources@),
            i <= sources.len(),
            sum == ambient_sum(sources@.take(i as int)),
            0 <= sum <= LIGHT_CAP,
        decreases sources.len() - i,
    {
        let term: i128 = match &sources[i] {
            Light::Ambient { intensity } => *intensity as i128,
            _ => 0,
        };
        let s = sum + term;
        sum = if s > LIGHT_CAP {
            LIGHT_CAP
        } else {
            s
        };
        proof {
            assert(sources@.take(i + 1).drop_last() =~= sources@.take(i as int));
            assert(sources@.take(i + 1).last() == sources@[i as int]);
        }
        i += 1;
    }
    proof {
        assert(sources@.take(sources.len() as int) =~= sources@);
    }
    sum
}

/// The total light intensity (thousandths) at the hit of `shape` at parameter `t`
/// along the ray: the sum over the lights, saturating at `LIGHT_CAP`.
pub fn compute_lighting(
    scene: &Vec<Intersection>,
    sources: &Vec<Light>,
    ray: &Ray,
    shape: &Intersection,
    t: i64,
) -> (r: i128)
    requires
        scene_wf(scene@),
        lights_wf(sources@),
        ray.wf(),
        shape.wf(),
        bounded(point_at(ray.origin@, ray.direction@, t as int), COORD_LIMIT as int),
    ensures
        r == lighting_at(scene@, sources@, ray.origin@, ray.direction@, *shape, t as int),
        0 <= r <= LIGHT_CAP,
{
    let intersect = match world_point(ray, t) {
        Some(p) => p,
        None => {
            return 0;
        },
    };
    let normal = shape.get_normal(&intersect);
    let exp = shape.get_reflection_rate();
    let ghost p = intersect@;
    let ghost n = normal@;
    let ghost d = ray.direction@;
    let mut sum: i128 = 0;
    let mut i: usize = 0;
    while i < sources.len()
        invariant
            scene_wf(scene@),
            lights_wf(sources@),
            ray.wf(),
            bounded(intersect@, COORD_LIMIT as int),
            bounded(normal@, SCALE as int),
            exp >= -1,
            p == intersect@,
            n == normal@,
            d == ray.direction@,
            i <= sources.len(),
            sum == lighting_sum(scene@, sources@.take(i as int), p, n, d, exp),
            0 <= sum <= LIGHT_CAP,
        decreases sources.len() - i,
    {
        let term = light_contribution(scene, &sources[i], &intersect, &normal, ray, exp);
        let s = sum + term;
        sum = if s > LIGHT_CAP {
            LIGHT_CAP
        } else {
            s
        };
        proof {
            assert(sources@.take(i + 1).drop_last() =~= sources@.take(i as int));
            assert(sources@.take(i + 1).last() == sources@[i as int]);
        }
        i += 1;
    }
    proof {
        assert(sources@.take(sources.len() as int) =~= sources@);
    }
    sum
}

} // verus!
