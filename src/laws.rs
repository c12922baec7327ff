use vstd::prelude::*;
use crate::color::{LIGHT_CAP, average_channel, blend_color, clamp_channel, scale_channel, scale_color};
use crate::lighting::{ambient_sum, in_shadow_spec, lemma_direct_term_bounded, lights_wf, light_term, lighting_at, lighting_sum, reflect, Light, SHADOW_T_MIN};
use crate::math::{v_normalize, isqrt_spec, is_isqrt, lemma_isqrt_is, rdiv, tdiv, v_dot, v_neg, v_sub, V3, SCALE};
use crate::render::{lemma_nearest_hit, nearest_hit, trace};
use crate::shapes::{
    point_at, shape_color, shape_hit, shape_normal, shape_specular, sphere_roots, Intersection,
    T_UNBOUNDED,
};

verus! {

/// A ray that hits no object of the scene sees the first object's color (the
/// background's clear color) scaled by the ambient light alone, whatever the depth:
/// no reflection is traced.
pub proof fn lemma_miss_shows_background(
    scene: Seq<Intersection>,
    lights: Seq<Light>,
    o: V3,
    d: V3,
    tmin: int,
    depth: nat,
)
    requires
        scene.len() > 0,
        forall|j: int|
            0 <= j < scene.len() ==> (#[trigger] shape_hit(scene[j], o, d, tmin, T_UNBOUNDED as int)) is None,
    ensures
        trace(scene, lights, o, d, tmin, depth) == scale_color(shape_color(scene[0]), ambient_sum(lights)),
{
    lemma_nearest_hit(scene, o, d, tmin, scene.len());
}

proof fn lemma_rdiv_cancel(a: int, b: int, c: int)
    requires
        a >= 0,
        b > 0,
        c > 0,
    ensures
        rdiv(a * c, b * c) == rdiv(a, b),
{
    let x = 2 * a + b;
    assert(2 * (a * c) + b * c == x * c) by (nonlinear_arith)
        requires
            x == 2 * a + b,
    ;
    assert(2 * (b * c) == c * (2 * b)) by (nonlinear_arith);
    assert(a * c >= 0) by (nonlinear_arith)
        requires
            a >= 0,
            c > 0,
    ;
    vstd::arithmetic::div_mod::lemma_div_denominator(x * c, c, 2 * b);
    assert(x * c == c * x) by (nonlinear_arith);
    vstd::arithmetic::div_mod::lemma_div_multiples_vanish(x, c);
}

proof fn lemma_rdiv_brackets(a: int, b: int)
    requires
        a >= 0,
        b > 0,
    ensures
        b * (2 * rdiv(a, b) - 1) <= 2 * a < b * (2 * rdiv(a, b) + 1),
{
    let x = 2 * a + b;
    let q = x / (2 * b);
    vstd::arithmetic::div_mod::lemma_fundamental_div_mod(x, 2 * b);
    vstd::arithmetic::div_mod::lemma_mod_bound(x, 2 * b);
    assert(b * (2 * q - 1) <= 2 * a < b * (2 * q + 1)) by (nonlinear_arith)
        requires
            x == 2 * a + b,
            x == (2 * b) * q + x % (2 * b),
            0 <= x % (2 * b) < 2 * b,
    ;
}

proof fn lemma_roots_unfold(c: V3, radius: int, o: V3, d: V3, k1: int, k2: int, disc: int)
    requires
        k1 == v_dot(d, d),
        k2 == 2 * v_dot(v_sub(o, c), d),
        disc == k2 * k2 - 4 * (k1 * (v_dot(v_sub(o, c), v_sub(o, c)) - radius * radius)),
        disc >= 0,
        k1 > 0,
    ensures
        sphere_roots(c, radius, o, d) == Some(
            (rdiv(SCALE * (-k2 - isqrt_spec(disc)), 2 * k1), rdiv(SCALE * (-k2 + isqrt_spec(disc)), 2 * k1)),
        ),
{
}

/// A ray from outside a sphere straight through its centre, along the x axis with
/// direction length `m` (thousandths), meets it at distance `dist - radius` and
/// `dist + radius`, in ray parameters `SCALE * (dist -+ radius) / m` rounded to
/// the nearest integer; with a unit direction, exactly `dist - radius` and `dist + radius`.
/// The two roots lie symmetrically about `SCALE * dist / m`, the parameter of the
/// centre's projection on the ray, up to the rounding of each.
pub proof fn lemma_sphere_roots_on_axis(o: V3, dist: int, radius: int, m: int)
    requires
        0 <= radius < dist,
        m > 0,
    ensures
        sphere_roots((o.0 + dist, o.1, o.2), radius, o, (m, 0, 0)) == Some(
            (rdiv(SCALE * (dist - radius), m), rdiv(SCALE * (dist + radius), m)),
        ),
        m == SCALE ==> sphere_roots((o.0 + dist, o.1, o.2), radius, o, (m, 0, 0)) == Some(
            (dist - radius, dist + radius),
        ),
        ({
            let near = rdiv(SCALE * (dist - radius), m);
            let far = rdiv(SCALE * (dist + radius), m);
            &&& near <= far
            &&& m * (near + far) - m <= 2 * (SCALE * dist) < m * (near + far) + m
        }),
{
    lemma_rdiv_brackets(SCALE * (dist - radius), m);
    lemma_rdiv_brackets(SCALE * (dist + radius), m);
    vstd::arithmetic::div_mod::lemma_div_is_ordered(
        2 * (SCALE * (dist - radius)) + m,
        2 * (SCALE * (dist + radius)) + m,
        2 * m,
    );
    let q1 = rdiv(SCALE * (dist - radius), m);
    let q2 = rdiv(SCALE * (dist + radius), m);
    let a1 = SCALE * (dist - radius);
    let a2 = SCALE * (dist + radius);
    assert(m * (q1 + q2) - m <= 2 * (SCALE * dist) < m * (q1 + q2) + m) by (nonlinear_arith)
        requires
            m * (2 * q1 - 1) <= 2 * a1 < m * (2 * q1 + 1),
            m * (2 * q2 - 1) <= 2 * a2 < m * (2 * q2 + 1),
            a1 + a2 == 2 * (SCALE * dist),
    ;
    let c = (o.0 + dist, o.1, o.2);
    let d = (m, 0int, 0int);
    let oc = v_sub(o, c);
    assert(oc == (-dist, 0int, 0int));
    let k1 = m * m;
    let k2 = -2 * dist * m;
    let k3 = dist * dist - radius * radius;
    let disc = 4 * (m * m) * (radius * radius);
    assert(v_dot(d, d) == k1);
    assert(2 * v_dot(oc, d) == k2) by (nonlinear_arith)
        requires
            oc == (-dist, 0int, 0int),
            d == (m, 0int, 0int),
            k2 == -2 * dist * m,
    ;
    assert((-dist) * (-dist) == dist * dist) by (nonlinear_arith);
    assert(v_dot(oc, oc) - radius * radius == k3);
    assert(k2 * k2 - 4 * (k1 * k3) == disc) by (nonlinear_arith)
        requires
            k2 == -2 * dist * m,
            k1 == m * m,
            k3 == dist * dist - radius * radius,
            disc == 4 * (m * m) * (radius * radius),
    ;
    let sq = 2 * m * radius;
    assert(is_isqrt(disc, sq)) by (nonlinear_arith)
        requires
            disc == 4 * (m * m) * (radius * radius),
            sq == 2 * m * radius,
            radius >= 0,
            m > 0,
    ;
    lemma_isqrt_is(disc, sq);
    assert(k1 > 0 && disc >= 0) by (nonlinear_arith)
        requires
            k1 == m * m,
            disc == 4 * (m * m) * (radius * radius),
            m > 0,
    ;
    assert(SCALE * (-k2 - sq) == (SCALE * (dist - radius)) * (2 * m)) by (nonlinear_arith)
        requires
            k2 == -2 * dist * m,
            sq == 2 * m * radius,
    ;
    assert(SCALE * (-k2 + sq) == (SCALE * (dist + radius)) * (2 * m)) by (nonlinear_arith)
        requires
            k2 == -2 * dist * m,
            sq == 2 * m * radius,
    ;
    assert(2 * k1 == m * (2 * m)) by (nonlinear_arith)
        requires
            k1 == m * m,
    ;
    lemma_rdiv_cancel(SCALE * (dist - radius), m, 2 * m);
    lemma_rdiv_cancel(SCALE * (dist + radius), m, 2 * m);
    assert(rdiv(SCALE * (-k2 - sq), 2 * k1) == rdiv(SCALE * (dist - radius), m));
    assert(rdiv(SCALE * (-k2 + sq), 2 * k1) == rdiv(SCALE * (dist + radius), m));
    let sk1 = v_dot(d, d);
    let sk2 = 2 * v_dot(oc, d);
    let sk3 = v_dot(oc, oc) - radius * radius;
    let sdisc = sk2 * sk2 - 4 * (sk1 * sk3);
    assert(sk1 == k1 && sk2 == k2 && sk3 == k3);
    assert(sdisc == disc);
    assert(isqrt_spec(sdisc) == sq);
    lemma_roots_unfold(c, radius, o, d, sk1, sk2, sdisc);
    if m == SCALE {
        let e = dist - radius;
        let f = dist + radius;
        vstd::arithmetic::div_mod::lemma_fundamental_div_mod_converse(2000 * e + 1000, 2000, e, 1000);
        vstd::arithmetic::div_mod::lemma_fundamental_div_mod_converse(2000 * f + 1000, 2000, f, 1000);
        assert(rdiv(SCALE * e, m) == e);
        assert(rdiv(SCALE * f, m) == f);
    }
}

/// The direction and window of the shadow ray that a light casts from `p`; none for ambient light.
pub open spec fn shadow_ray_of(light: Light, p: V3) -> Option<(V3, int)> {
    match light {
        Light::Ambient { .. } => None,
        Light::Point { position, .. } => Some((v_sub(position@, p), SCALE as int)),
        Light::Directional { direction, .. } => Some((direction@, T_UNBOUNDED as int)),
    }
}

/// Whether `occluder` stands between `p` and the light.
pub open spec fn blocks(occluder: Intersection, light: Light, p: V3) -> bool {
    match shadow_ray_of(light, p) {
        Some((l, tmax)) => shape_hit(occluder, p, l, SHADOW_T_MIN as int, tmax) is Some,
        None => false,
    }
}

proof fn lemma_shadow_push(scene: Seq<Intersection>, occluder: Intersection, p: V3, l: V3, tmax: int)
    ensures
        in_shadow_spec(scene.push(occluder), p, l, tmax) == (in_shadow_spec(scene, p, l, tmax)
            || shape_hit(occluder, p, l, SHADOW_T_MIN as int, tmax) is Some),
{
    let s2 = scene.push(occluder);
    if in_shadow_spec(scene, p, l, tmax) {
        let i = choose|i: int|
            0 <= i < scene.len() && (#[trigger] shape_hit(scene[i], p, l, SHADOW_T_MIN as int, tmax)).is_some();
        assert(s2[i] == scene[i]);
    }
    if shape_hit(occluder, p, l, SHADOW_T_MIN as int, tmax) is Some {
        assert(s2[scene.len() as int] == occluder);
    }
    if in_shadow_spec(s2, p, l, tmax) {
        let i = choose|i: int|
            0 <= i < s2.len() && (#[trigger] shape_hit(s2[i], p, l, SHADOW_T_MIN as int, tmax)).is_some();
        if i < scene.len() {
            assert(s2[i] == scene[i]);
        }
    }
}

/// An occluder placed between a surface point and a light takes away that light's
/// whole contribution there.
pub proof fn lemma_occluder_blocks_light(
    scene: Seq<Intersection>,
    occluder: Intersection,
    light: Light,
    p: V3,
    n: V3,
    d: V3,
    exp: i32,
)
    requires
        blocks(occluder, light, p),
    ensures
        light_term(scene.push(occluder), light, p, n, d, exp) == 0,
{
    match shadow_ray_of(light, p) {
        Some((l, tmax)) => lemma_shadow_push(scene, occluder, p, l, tmax),
        None => {},
    }
}

/// Adding an occluder leaves the contribution of every light that it does not
/// block unchanged, ambient light included.
pub proof fn lemma_occluder_spares_other_lights(
    scene: Seq<Intersection>,
    occluder: Intersection,
    light: Light,
    p: V3,
    n: V3,
    d: V3,
    exp: i32,
)
    requires
        !blocks(occluder, light, p),
    ensures
        light_term(scene.push(occluder), light, p, n, d, exp) == light_term(scene, light, p, n, d, exp),
{
    match shadow_ray_of(light, p) {
        Some((l, tmax)) => lemma_shadow_push(scene, occluder, p, l, tmax),
        None => {},
    }
}

/// An occluder that blocks none of the lights at `p` leaves the total light there unchanged.
pub proof fn lemma_unblocking_occluder_keeps_lighting(
    scene: Seq<Intersection>,
    occluder: Intersection,
    lights: Seq<Light>,
    p: V3,
    n: V3,
    d: V3,
    exp: i32,
)
    requires
        forall|i: int| 0 <= i < lights.len() ==> !blocks(occluder, #[trigger] lights[i], p),
    ensures
        lighting_sum(scene.push(occluder), lights, p, n, d, exp) == lighting_sum(scene, lights, p, n, d, exp),
    decreases lights.len(),
{
    if lights.len() > 0 {
        let rest = lights.drop_last();
        assert forall|i: int| 0 <= i < rest.len() implies !blocks(occluder, #[trigger] rest[i], p) by {
            assert(rest[i] == lights[i]);
        }
        lemma_unblocking_occluder_keeps_lighting(scene, occluder, rest, p, n, d, exp);
        assert(lights.last() == lights[lights.len() - 1]);
        lemma_occluder_spares_other_lights(scene, occluder, lights.last(), p, n, d, exp);
    }
}

proof fn lemma_lighting_sum_capped(scene: Seq<Intersection>, lights: Seq<Light>, p: V3, n: V3, d: V3, exp: i32)
    ensures
        lighting_sum(scene, lights, p, n, d, exp) <= LIGHT_CAP,
{
}

/// An occluder that blocks exactly one light at `p`, and no other, gives the same
/// total light there as the scene without the occluder lit by the other lights alone.
pub proof fn lemma_occluder_removes_one_light(
    scene: Seq<Intersection>,
    occluder: Intersection,
    lights: Seq<Light>,
    k: int,
    p: V3,
    n: V3,
    d: V3,
    exp: i32,
)
    requires
        0 <= k < lights.len(),
        blocks(occluder, lights[k], p),
        forall|i: int| 0 <= i < lights.len() && i != k ==> !blocks(occluder, #[trigger] lights[i], p),
    ensures
        lighting_sum(scene.push(occluder), lights, p, n, d, exp) == lighting_sum(
            scene,
            lights.remove(k),
            p,
            n,
            d,
            exp,
        ),
    decreases lights.len(),
{
    let rest = lights.drop_last();
    let last = lights.last();
    assert(last == lights[lights.len() - 1]);
    if k == lights.len() - 1 {
        assert(lights.remove(k) =~= rest);
        assert forall|i: int| 0 <= i < rest.len() implies !blocks(occluder, #[trigger] rest[i], p) by {
            assert(rest[i] == lights[i]);
        }
        lemma_unblocking_occluder_keeps_lighting(scene, occluder, rest, p, n, d, exp);
        lemma_occluder_blocks_light(scene, occluder, last, p, n, d, exp);
        lemma_lighting_sum_capped(scene.push(occluder), rest, p, n, d, exp);
    } else {
        assert forall|i: int| 0 <= i < rest.len() && i != k implies !blocks(occluder, #[trigger] rest[i], p) by {
            assert(rest[i] == lights[i]);
        }
        assert(rest[k] == lights[k]);
        lemma_occluder_removes_one_light(scene, occluder, rest, k, p, n, d, exp);
        let removed = lights.remove(k);
        assert(removed.drop_last() =~= rest.remove(k));
        assert(removed.last() == last);
        lemma_occluder_spares_other_lights(scene, occluder, last, p, n, d, exp);
    }
}

/// The most light one light can add: its intensity if ambient, else twice it
/// (diffuse plus highlight, each at most the intensity).
pub open spec fn light_bound(light: Light) -> int {
    match light {
        Light::Ambient { intensity } => intensity as int,
        Light::Point { intensity, .. } => 2 * intensity,
        Light::Directional { intensity, .. } => 2 * intensity,
    }
}

pub open spec fn lighting_bound(lights: Seq<Light>) -> int
    decreases lights.len(),
{
    if lights.len() == 0 {
        0
    } else {
        lighting_bound(lights.drop_last()) + light_bound(lights.last())
    }
}

/// The light at a surface point is never negative, and at most the ambient
/// intensities plus twice the other lights' intensities.
pub proof fn lemma_lighting_bounded(
    scene: Seq<Intersection>,
    lights: Seq<Light>,
    p: V3,
    n: V3,
    d: V3,
    exp: i32,
)
    requires
        lights_wf(lights),
    ensures
        0 <= lighting_sum(scene, lights, p, n, d, exp) <= lighting_bound(lights),
    decreases lights.len(),
{
    if lights.len() > 0 {
        let rest = lights.drop_last();
        assert forall|i: int| 0 <= i < rest.len() implies (#[trigger] rest[i]).wf() by {
            assert(rest[i] == lights[i]);
        }
        lemma_lighting_bounded(scene, rest, p, n, d, exp);
        let last = lights.last();
        assert(last == lights[lights.len() - 1]);
        assert(last.wf());
        match last {
            Light::Ambient { .. } => {},
            Light::Point { intensity, position } => {
                lemma_direct_term_bounded(intensity as int, v_sub(position@, p), n, d, exp);
            },
            Light::Directional { intensity, direction } => {
                lemma_direct_term_bounded(intensity as int, direction@, n, d, exp);
            },
        }
    }
}

/// How many reflection rays tracing follows from the ray `(o, d)` with `depth` left.
pub open spec fn reflection_steps(
    scene: Seq<Intersection>,
    lights: Seq<Light>,
    o: V3,
    d: V3,
    tmin: int,
    depth: nat,
) -> nat
    decreases depth,
{
    match nearest_hit(scene, o, d, tmin, scene.len()) {
        None => 0,
        Some((i, t)) => {
            let shape = scene[i];
            if shape_specular(shape) == 0 || depth == 0 {
                0
            } else {
                let p = point_at(o, d, t);
                let r = v_normalize(reflect(shape_normal(shape, p), v_neg(d)));
                1 + reflection_steps(scene, lights, p, r, tmin, (depth - 1) as nat)
            }
        },
    }
}

/// Tracing follows at most `depth` reflections, whatever the scene (two facing
/// mirrors included).
pub proof fn lemma_reflection_steps_bounded(
    scene: Seq<Intersection>,
    lights: Seq<Light>,
    o: V3,
    d: V3,
    tmin: int,
    depth: nat,
)
    ensures
        reflection_steps(scene, lights, o, d, tmin, depth) <= depth,
    decreases depth,
{
    if depth > 0 {
        match nearest_hit(scene, o, d, tmin, scene.len()) {
            None => {},
            Some((i, t)) => {
                let p = point_at(o, d, t);
                let r = v_normalize(reflect(shape_normal(scene[i], p), v_neg(d)));
                lemma_reflection_steps_bounded(scene, lights, p, r, tmin, (depth - 1) as nat);
            },
        }
    }
}

/// With reflections left and a reflective object hit, the traced color is the blend of
/// the object's lit color with the color traced one level deeper from the hit point
/// along the mirrored direction (scaled to unit length); with none left, it is the
/// lit color alone.
pub proof fn lemma_trace_blends_reflection(
    scene: Seq<Intersection>,
    lights: Seq<Light>,
    o: V3,
    d: V3,
    tmin: int,
    depth: nat,
    i: int,
    t: int,
)
    requires
        nearest_hit(scene, o, d, tmin, scene.len()) == Some((i, t)),
    ensures
        ({
            let shape = scene[i];
            let local = scale_color(shape_color(shape), lighting_at(scene, lights, o, d, shape, t));
            let p = point_at(o, d, t);
            let r = v_normalize(reflect(shape_normal(shape, p), v_neg(d)));
            &&& depth == 0 ==> trace(scene, lights, o, d, tmin, depth) == local
            &&& (depth > 0 && shape_specular(shape) != 0) ==> trace(scene, lights, o, d, tmin, depth) == blend_color(
                local,
                trace(scene, lights, p, r, tmin, (depth - 1) as nat),
                shape_specular(shape) as int,
            )
        }),
{
}

/// A scaled channel that would exceed 255 is 255, and one that would fall below 0 is 0;
/// every scaled channel lies in `[0, 255]`.
pub proof fn lemma_scaled_channel_clamps(ch: u8, k: int)
    ensures
        0 <= scale_channel(ch as int, k) <= 255,
        tdiv(ch * k, SCALE as int) > 255 ==> scale_channel(ch as int, k) == 255,
        tdiv(ch * k, SCALE as int) < 0 ==> scale_channel(ch as int, k) == 0,
{
}

/// Four subsample channels average to their sum divided by four, rounded down.
pub proof fn lemma_average_of_four(a: u8, b: u8, c: u8, e: u8)
    ensures
        average_channel(a + b + c + e) == (a + b + c + e) / 4,
        average_channel(a + b + c + e) == clamp_channel((a + b + c + e) / 4),
{
}

} // verus!
