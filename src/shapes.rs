use vstd::prelude::*;
use crate::color::Color;
use crate::math::{
    is_isqrt, is_bounded, bounded, div_toward_zero, dot, isqrt, isqrt_spec, lemma_dot_bound, lemma_isqrt_bounds,
    lemma_mul_bound, normalize, subtract, rdiv, div_round, v_add, v_dot, v_normalize, v_scale, v_sub, Point,
    V3, COORD_LIMIT, DIR_LIMIT, SCALE,
};

verus! {

/// The upper end of the parameter window for a ray that runs to infinity.
pub const T_UNBOUNDED: i64 = 9_223_372_036_854_775_807;

/// A plane is missed by rays whose direction has a dot product with its normal
/// of at most this (in thousandths squared, i.e. `1e-4`).
pub const PARALLEL_EPS: i128 = 100;

/// A half-line from `origin` along `direction`; the point at parameter `t`
/// (thousandths) is `origin + direction * t`.
#[derive(Clone, Copy, Debug, PartialEq, Eq, Structural)]
pub struct Ray {
    pub origin: Point,
    pub direction: Point,
}

impl Ray {
    pub open spec fn wf(&self) -> bool {
        &&& bounded(self.origin@, COORD_LIMIT as int)
        &&& bounded(self.direction@, DIR_LIMIT as int)
    }
}

/// The point at parameter `t` along a ray.
pub open spec fn point_at(o: V3, d: V3, t: int) -> V3 {
    v_add(o, v_scale(d, t, SCALE as int))
}

/// A ray parameter counts as a hit when it lies strictly inside the window
/// and its point lies inside the world.
pub open spec fn accepts(o: V3, d: V3, t: int, tmin: int, tmax: int) -> bool {
    &&& tmin < t < tmax
    &&& bounded(point_at(o, d, t), COORD_LIMIT as int)
}

/// Ties an executable `(found, t)` pair to a hit of the model.
pub open spec fn hit_matches(r: (bool, i64), h: Option<int>) -> bool {
    match h {
        Some(t) => r.0 && r.1 == t,
        None => !r.0 && r.1 == 0,
    }
}

/// A sphere; `reflection` is the highlight exponent (`-1`: none), `specular`
/// the share of the color taken from the mirror image, in thousandths.
#[derive(Clone, Copy, Debug, PartialEq, Eq, Structural)]
pub struct Sphere {
    pub center: Point,
    pub radius: i64,
    pub color: Color,
    pub reflection: i32,
    pub specular: i64,
}

/// A plane through `center` with unit `normal` (length `SCALE`).
#[derive(Clone, Copy, Debug, PartialEq, Eq, Structural)]
pub struct Plane {
    pub center: Point,
    pub normal: Point,
    pub color: Color,
    pub reflection: i32,
    pub specular: i64,
}

/// The far field: no geometry, only the clear color.
#[derive(Clone, Copy, Debug, PartialEq, Eq, Structural)]
pub struct Background {
    pub color: Color,
    pub reflection: i32,
    pub specular: i64,
}

/// An object of the scene that rays can be tested against.
#[derive(Clone, Copy, Debug, PartialEq, Eq, Structural)]
pub enum Intersection {
    Sphere(Sphere),
    Plane(Plane),
    Background(Background),
}

pub open spec fn shading_wf(reflection: i32, specular: i64) -> bool {
    reflection >= -1 && 0 <= specular <= SCALE
}

impl Sphere {
    pub open spec fn wf(&self) -> bool {
        &&& bounded(self.center@, COORD_LIMIT as int)
        &&& 0 <= self.radius <= COORD_LIMIT
        &&& shading_wf(self.reflection, self.specular)
    }
}

impl Plane {
    pub open spec fn wf(&self) -> bool {
        &&& bounded(self.center@, COORD_LIMIT as int)
        &&& bounded(self.normal@, SCALE as int)
        &&& shading_wf(self.reflection, self.specular)
    }
}

impl Intersection {
    pub open spec fn wf(&self) -> bool {
        match self {
            Intersection::Sphere(s) => s.wf(),
            Intersection::Plane(p) => p.wf(),
            Intersection::Background(b) => shading_wf(b.reflection, b.specular),
        }
    }
}

/// The two roots `(near, far)` of the sphere's quadratic along a ray, when real.
pub open spec fn sphere_roots(c: V3, radius: int, o: V3, d: V3) -> Option<(int, int)> {
    let oc = v_sub(o, c);
    let k1 = v_dot(d, d);
    let k2 = 2 * v_dot(oc, d);
    let k3 = v_dot(oc, oc) - radius * radius;
    let disc = k2 * k2 - 4 * (k1 * k3);
    if disc < 0 || k1 == 0 {
        None
    } else {
        let sq = isqrt_spec(disc);
        Some((rdiv(SCALE * (-k2 - sq), 2 * k1), rdiv(SCALE * (-k2 + sq), 2 * k1)))
    }
}

/// The near root if the window accepts it, else the far one, else no hit.
pub open spec fn sphere_hit(s: Sphere, o: V3, d: V3, tmin: int, tmax: int) -> Option<int> {
    match sphere_roots(s.center@, s.radius as int, o, d) {
        None => None,
        Some((near, far)) => if accepts(o, d, near, tmin, tmax) {
            Some(near)
        } else if accepts(o, d, far, tmin, tmax) {
            Some(far)
        } else {
            None
        },
    }
}

/// The ray parameter where the plane is crossed: `SCALE * num / den`, to the nearest integer.
pub open spec fn plane_t(num: int, den: int) -> int {
    if den > 0 {
        rdiv(SCALE * num, den)
    } else {
        rdiv(-(SCALE * num), -den)
    }
}

pub open spec fn plane_hit(p: Plane, o: V3, d: V3, tmin: int, tmax: int) -> Option<int> {
    let den = v_dot(p.normal@, d);
    if -PARALLEL_EPS <= den <= PARALLEL_EPS {
        None
    } else {
        let t = plane_t(v_dot(v_sub(p.center@, o), p.normal@), den);
        if accepts(o, d, t, tmin, tmax) {
            Some(t)
        } else {
            None
        }
    }
}

/// The hit of a ray on an object inside the window `(tmin, tmax)`, if any.
pub open spec fn shape_hit(s: Intersection, o: V3, d: V3, tmin: int, tmax: int) -> Option<int> {
    match s {
        Intersection::Sphere(sp) => sphere_hit(sp, o, d, tmin, tmax),
        Intersection::Plane(p) => plane_hit(p, o, d, tmin, tmax),
        Intersection::Background(_) => None,
    }
}

pub open spec fn shape_normal(s: Intersection, p: V3) -> V3 {
    match s {
        Intersection::Sphere(sp) => v_normalize(v_sub(p, sp.center@)),
        Intersection::Plane(pl) => pl.normal@,
        Intersection::Background(_) => (0, 0, 0),
    }
}

pub open spec fn shape_color(s: Intersection) -> Color {
    match s {
        Intersection::Sphere(sp) => sp.color,
        Intersection::Plane(p) => p.color,
        Intersection::Background(b) => b.color,
    }
}

pub open spec fn shape_reflection(s: Intersection) -> i32 {
    match s {
        Intersection::Sphere(sp) => sp.reflection,
        Intersection::Plane(p) => p.reflection,
        Intersection::Background(b) => b.reflection,
    }
}

pub open spec fn shape_specular(s: Intersection) -> i64 {
    match s {
        Intersection::Sphere(sp) => sp.specular,
        Intersection::Plane(p) => p.specular,
        Intersection::Background(b) => b.specular,
    }
}

/// The point at parameter `t` along the ray, if it lies inside the world.
pub fn world_point(ray: &Ray, t: i64) -> (r: Option<Point>)
    requires
        ray.wf(),
    ensures
        r.is_some() == bounded(point_at(ray.origin@, ray.direction@, t as int), COORD_LIMIT as int),
        r.is_some() ==> r.unwrap()@ == point_at(ray.origin@, ray.direction@, t as int),
{
    let o = ray.origin;
    let d = ray.direction;
    proof {
        let tl = T_UNBOUNDED as int + 1;
        lemma_mul_bound(d.0 as int, t as int, DIR_LIMIT as int, tl);
        lemma_mul_bound(d.1 as int, t as int, DIR_LIMIT as int, tl);
        lemma_mul_bound(d.2 as int, t as int, DIR_LIMIT as int, tl);
    }
    let x = (o.0 as i128) + div_toward_zero((d.0 as i128) * (t as i128), SCALE as i128);
    let y = (o.1 as i128) + div_toward_zero((d.1 as i128) * (t as i128), SCALE as i128);
    let z = (o.2 as i128) + div_toward_zero((d.2 as i128) * (t as i128), SCALE as i128);
    let lim = COORD_LIMIT as i128;
    if -lim <= x && x <= lim && -lim <= y && y <= lim && -lim <= z && z <= lim {
        Some(Point(x as i64, y as i64, z as i64))
    } else {
        None
    }
}

/// Whether the window and the world accept a ray parameter.
fn accepts_exec(ray: &Ray, t: i128, tmin: i64, tmax: i64) -> (r: bool)
    requires
        ray.wf(),
    ensures
        r == accepts(ray.origin@, ray.direction@, t as int, tmin as int, tmax as int),
{
    if t > tmin as i128 && t < tmax as i128 {
        world_point(ray, t as i64).is_some()
    } else {
        false
    }
}

impl Sphere {
    /// The nearest hit of the ray on the sphere inside `(tmin, tmax)`.
    pub fn is_intersect(&self, ray: &Ray, tmin: i64, tmax: i64) -> (r: (bool, i64))
        requires
            self.wf(),
            ray.wf(),
        ensures
            hit_matches(r, sphere_hit(*self, ray.origin@, ray.direction@, tmin as int, tmax as int)),
    {
        let c = &self.center;
        let rad = self.radius;
        let oc = subtract(&ray.origin, c);
        let d = &ray.direction;
        proof {
            lemma_dot_bound(d@, d@, DIR_LIMIT as int, DIR_LIMIT as int);
            lemma_dot_bound(oc@, d@, DIR_LIMIT as int, DIR_LIMIT as int);
            lemma_dot_bound(oc@, oc@, DIR_LIMIT as int, DIR_LIMIT as int);
            crate::math::lemma_square_nonneg(d@);
            crate::math::lemma_square_nonneg(oc@);
            lemma_mul_bound(rad as int, rad as int, COORD_LIMIT as int, COORD_LIMIT as int);
        }
        let k1 = dot(d, d);
        let k2 = 2 * dot(&oc, d);
        let k3 = dot(&oc, &oc) - (rad as i128) * (rad as i128);
        proof {
            lemma_mul_bound(k2 as int, k2 as int, 240_000_000_000_000_000, 240_000_000_000_000_000);
            lemma_mul_bound(k1 as int, k3 as int, 120_000_000_000_000_000, 120_000_000_000_000_000);
        }
        let disc = k2 * k2 - 4 * (k1 * k3);
        if disc < 0 || k1 == 0 {
            return (false, 0);
        }
        let sq = isqrt(disc as u128) as i128;
        proof {
            lemma_isqrt_bounds(disc as int, 0);
            assert(is_isqrt(disc as int, sq as int));
            assert(sq <= 350_000_000_000_000_000) by (nonlinear_arith)
                requires
                    sq * sq <= disc,
                    disc <= 120_000_000_000_000_000_000_000_000_000_000_000,
                    sq >= 0,
            ;
        }
        let near = div_round((SCALE as i128) * (-k2 - sq), 2 * k1);
        let far = div_round((SCALE as i128) * (-k2 + sq), 2 * k1);
        if accepts_exec(ray, near, tmin, tmax) {
            return (true, near as i64);
        }
        if accepts_exec(ray, far, tmin, tmax) {
            return (true, far as i64);
        }
        (false, 0)
    }

    /// The outward unit normal at a point of the surface.
    pub fn get_normal(&self, intersect: &Point) -> (r: Point)
        requires
            self.wf(),
            bounded(intersect@, COORD_LIMIT as int),
        ensures
            r@ == v_normalize(v_sub(intersect@, self.center@)),
            bounded(r@, SCALE as int),
    {
        let normal = subtract(intersect, &self.center);
        normalize(&normal)
    }
}

impl Plane {
    /// The hit of the ray on the plane inside `(tmin, tmax)`; rays nearly parallel miss.
    pub fn is_intersect(&self, ray: &Ray, tmin: i64, tmax: i64) -> (r: (bool, i64))
        requires
            self.wf(),
            ray.wf(),
        ensures
            hit_matches(r, plane_hit(*self, ray.origin@, ray.direction@, tmin as int, tmax as int)),
    {
        proof {
            lemma_dot_bound(self.normal@, ray.direction@, SCALE as int, DIR_LIMIT as int);
        }
        let denominator = dot(&self.normal, &ray.direction);
        if -PARALLEL_EPS <= denominator && denominator <= PARALLEL_EPS {
            return (false, 0);
        }
        let diff = subtract(&self.center, &ray.origin);
        proof {
            lemma_dot_bound(diff@, self.normal@, DIR_LIMIT as int, SCALE as int);
        }
        let num = (SCALE as i128) * dot(&diff, &self.normal);
        let t = if denominator > 0 {
            div_round(num, denominator)
        } else {
            div_round(-num, -denominator)
        };
        if accepts_exec(ray, t, tmin, tmax) {
            return (true, t as i64);
        }
        (false, 0)
    }
}

fn shading_is_valid(reflection: i32, specular: i64) -> (r: bool)
    ensures
        r == shading_wf(reflection, specular),
{
    reflection >= -1 && 0 <= specular && specular <= SCALE
}

impl Ray {
    /// Whether the origin lies in the world and the direction within `DIR_LIMIT`.
    pub fn is_valid(&self) -> (r: bool)
        ensures
            r == self.wf(),
    {
        is_bounded(&self.origin, COORD_LIMIT) && is_bounded(&self.direction, DIR_LIMIT)
    }
}

impl Intersection {
    /// Whether the object lies in the world and its shading parameters are in range.
    pub fn is_valid(&self) -> (r: bool)
        ensures
            r == self.wf(),
    {
        match self {
            Intersection::Sphere(s) => is_bounded(&s.center, COORD_LIMIT) && 0 <= s.radius
                && s.radius <= COORD_LIMIT && shading_is_valid(s.reflection, s.specular),
            Intersection::Plane(p) => is_bounded(&p.center, COORD_LIMIT) && is_bounded(
                &p.normal,
                SCALE,
            ) && shading_is_valid(p.reflection, p.specular),
            Intersection::Background(b) => shading_is_valid(b.reflection, b.specular),
        }
    }
}

impl Intersection {
    /// The nearest hit of the ray on this object inside `(tmin, tmax)`.
    pub fn is_intersect(&self, ray: &Ray, tmin: i64, tmax: i64) -> (r: (bool, i64))
        requires
            self.wf(),
            ray.wf(),
        ensures
            hit_matches(r, shape_hit(*self, ray.origin@, ray.direction@, tmin as int, tmax as int)),
    {
        match self {
            Intersection::Sphere(s) => s.is_intersect(ray, tmin, tmax),
            Intersection::Plane(p) => p.is_intersect(ray, tmin, tmax),
            Intersection::Background(_) => (false, 0),
        }
    }

    /// The unit normal of the surface at a point; zero for the background.
    pub fn get_normal(&self, intersect: &Point) -> (r: Point)
        requires
            self.wf(),
            bounded(intersect@, COORD_LIMIT as int),
        ensures
            r@ == shape_normal(*self, intersect@),
            bounded(r@, SCALE as int),
    {
        match self {
            Intersection::Sphere(s) => s.get_normal(intersect),
            Intersection::Plane(p) => p.normal,
            Intersection::Background(_) => Point(0, 0, 0),
        }
    }

    pub fn get_color(&self) -> (r: Color)
        ensures
            r == shape_color(*self),
    {
        match self {
            Intersection::Sphere(s) => s.color,
            Intersection::Plane(p) => p.color,
            Intersection::Background(b) => b.color,
        }
    }

    pub fn get_reflection_rate(&self) -> (r: i32)
        ensures
            r == shape_reflection(*self),
    {
        match self {
            Intersection::Sphere(s) => s.reflection,
            Intersection::Plane(p) => p.reflection,
            Intersection::Background(b) => b.reflection,
        }
    }

    pub fn get_specular_rate(&self) -> (r: i64)
        ensures
            r == shape_specular(*self),
    {
        match self {
            Intersection::Sphere(s) => s.specular,
            Intersection::Plane(p) => p.specular,
            Intersection::Background(b) => b.specular,
        }
    }
}

} // verus!
