use raytracer::math::{add, divide, dot, isqrt, length, multiply, normalize, subtract, Point};
use raytracer::shapes::{Background, Intersection, Plane, Ray, Sphere, T_UNBOUNDED};
use raytracer::color::Color;

fn sphere(center: Point, radius: i64) -> Sphere {
    Sphere { center, radius, color: Color(255, 0, 0), reflection: -1, specular: 0 }
}

#[test]
fn add_and_subtract_componentwise() {
    let a = Point(1000, -2000, 3500);
    let b = Point(-500, 2000, 500);
    assert_eq!(add(&a, &b), Point(500, 0, 4000));
    assert_eq!(subtract(&a, &b), Point(1500, -4000, 3000));
}

#[test]
fn dot_is_exact() {
    assert_eq!(dot(&Point(1, 2, 3), &Point(4, -5, 6)), 12);
    assert_eq!(dot(&Point(1000, 0, 0), &Point(1000, 0, 0)), 1_000_000);
}

#[test]
fn length_and_isqrt_round_down() {
    assert_eq!(length(&Point(3000, 4000, 0)), 5000);
    assert_eq!(length(&Point(1000, 1000, 0)), 1414);
    assert_eq!(isqrt(0), 0);
    assert_eq!(isqrt(15), 3);
    assert_eq!(isqrt(16), 4);
    assert_eq!(isqrt(1_000_000_000_000), 1_000_000);
}

#[test]
fn multiply_and_divide_by_fixed_point_scalars() {
    assert_eq!(multiply(&Point(2000, -3000, 1), 1500), Point(3000, -4500, 1));
    assert_eq!(divide(&Point(3000, -4500, 7), 1500), Point(2000, -3000, 4));
    assert_eq!(divide(&Point(3000, -4500, 0), -1500), Point(-2000, 3000, 0));
}

#[test]
fn normalize_scales_to_unit_length() {
    assert_eq!(normalize(&Point(0, 0, 7000)), Point(0, 0, 1000));
    assert_eq!(normalize(&Point(3, 4, 0)), Point(600, 800, 0));
    assert_eq!(normalize(&Point(0, 0, 0)), Point(0, 0, 0));
}

#[test]
fn sphere_hit_through_centre_is_distance_minus_radius() {
    let s = sphere(Point(5000, 0, 0), 1000);
    let ray = Ray { origin: Point(0, 0, 0), direction: Point(1000, 0, 0) };
    assert_eq!(s.is_intersect(&ray, 1, T_UNBOUNDED), (true, 4000));
    // With the near root outside the window, the far root is taken.
    assert_eq!(s.is_intersect(&ray, 4500, T_UNBOUNDED), (true, 6000));
    // With both outside, there is no hit.
    assert_eq!(s.is_intersect(&ray, 1, 3000), (false, 0));
}

#[test]
fn sphere_roots_scale_with_direction_length() {
    let s = sphere(Point(0, 0, 10_000), 2000);
    let ray = Ray { origin: Point(0, 0, 0), direction: Point(0, 0, 2000) };
    assert_eq!(s.is_intersect(&ray, 1, T_UNBOUNDED), (true, 4000));
}

#[test]
fn sphere_missed_by_ray_pointing_away() {
    let s = sphere(Point(5000, 0, 0), 1000);
    let ray = Ray { origin: Point(0, 0, 0), direction: Point(-1000, 0, 0) };
    assert_eq!(s.is_intersect(&ray, 1, T_UNBOUNDED), (false, 0));
    let side = Ray { origin: Point(0, 0, 0), direction: Point(0, 1000, 0) };
    assert_eq!(s.is_intersect(&side, 1, T_UNBOUNDED), (false, 0));
}

#[test]
fn sphere_normal_points_outward() {
    let s = sphere(Point(5000, 0, 0), 1000);
    assert_eq!(s.get_normal(&Point(4000, 0, 0)), Point(-1000, 0, 0));
}

#[test]
fn plane_hit_and_parallel_miss() {
    let floor = Plane {
        center: Point(0, 1000, 0),
        normal: Point(0, -1000, 0),
        color: Color(255, 255, 255),
        reflection: 20,
        specular: 0,
    };
    let down = Ray { origin: Point(0, 0, 0), direction: Point(0, 1000, 0) };
    assert_eq!(floor.is_intersect(&down, 1, T_UNBOUNDED), (true, 1000));
    let slanted = Ray { origin: Point(0, 0, 0), direction: Point(0, 500, 1000) };
    assert_eq!(floor.is_intersect(&slanted, 1, T_UNBOUNDED), (true, 2000));
    let parallel = Ray { origin: Point(0, 0, 0), direction: Point(1000, 0, 1000) };
    assert_eq!(floor.is_intersect(&parallel, 1, T_UNBOUNDED), (false, 0));
    let up = Ray { origin: Point(0, 0, 0), direction: Point(0, -1000, 0) };
    assert_eq!(floor.is_intersect(&up, 1, T_UNBOUNDED), (false, 0));
    assert_eq!(floor.is_intersect(&down, 1, 1000), (false, 0));
}

#[test]
fn background_never_hit() {
    let bg = Intersection::Background(Background { color: Color(1, 2, 3), reflection: 0, specular: 0 });
    let ray = Ray { origin: Point(0, 0, 0), direction: Point(0, 0, 1000) };
    assert_eq!(bg.is_intersect(&ray, 1, T_UNBOUNDED), (false, 0));
    assert_eq!(bg.get_normal(&Point(5, 5, 5)), Point(0, 0, 0));
    assert_eq!(bg.get_color(), Color(1, 2, 3));
}

#[test]
fn hits_outside_the_world_are_ignored() {
    let s = sphere(Point(0, 0, 99_999_000), 2000);
    let ray = Ray { origin: Point(0, 0, 0), direction: Point(0, 0, 1000) };
    // The near root lies inside the world, the far one beyond its edge.
    assert_eq!(s.is_intersect(&ray, 1, T_UNBOUNDED), (true, 99_997_000));
    assert_eq!(s.is_intersect(&ray, 99_998_000, T_UNBOUNDED), (false, 0));
}

#[test]
fn sphere_roots_round_to_nearest() {
    let s = sphere(Point(0, 0, 10_000), 2000);
    let ray = Ray { origin: Point(0, 1000, 0), direction: Point(0, 0, 1000) };
    // 10 - sqrt(3) = 8.26795 and 10 + sqrt(3) = 11.73205
    assert_eq!(s.is_intersect(&ray, 1, T_UNBOUNDED), (true, 8268));
    assert_eq!(s.is_intersect(&ray, 8268, T_UNBOUNDED), (true, 11732));
}

#[test]
fn plane_parameter_rounds_to_nearest() {
    let wall = Plane {
        center: Point(0, 0, 2000),
        normal: Point(0, 0, -1000),
        color: Color(255, 255, 255),
        reflection: -1,
        specular: 0,
    };
    // 2 / 3 = 0.6667
    let ray = Ray { origin: Point(0, 0, 0), direction: Point(0, 0, 3000) };
    assert_eq!(wall.is_intersect(&ray, 1, T_UNBOUNDED), (true, 667));
}
