use raytracer::color::{average_color, blend, update_color, Color};
use raytracer::lighting::{compute_lighting, in_shadow, Light};
use raytracer::math::Point;
use raytracer::shapes::{Background, Intersection, Plane, Ray, Sphere, T_UNBOUNDED};

fn background() -> Intersection {
    Intersection::Background(Background { color: Color(0, 0, 0), reflection: 0, specular: 0 })
}

fn floor(reflection: i32) -> Intersection {
    Intersection::Plane(Plane {
        center: Point(0, 1000, 0),
        normal: Point(0, -1000, 0),
        color: Color(255, 255, 255),
        reflection,
        specular: 0,
    })
}

fn occluder() -> Intersection {
    Intersection::Sphere(Sphere {
        center: Point(0, -2000, 0),
        radius: 500,
        color: Color(0, 255, 0),
        reflection: -1,
        specular: 0,
    })
}

fn lights() -> Vec<Light> {
    vec![
        Light::Ambient { intensity: 100 },
        Light::Point { intensity: 500, position: Point(0, -5000, 0) },
        Light::Directional { intensity: 400, direction: Point(1000, -1000, 0) },
    ]
}

fn down_ray() -> Ray {
    Ray { origin: Point(0, 0, 0), direction: Point(0, 1000, 0) }
}

#[test]
fn channel_over_255_clamps() {
    assert_eq!(update_color(&Color(200, 100, 0), 2000), Color(255, 200, 0));
}

#[test]
fn channel_scaling_rounds_toward_zero() {
    assert_eq!(update_color(&Color(200, 100, 50), 500), Color(100, 50, 25));
    assert_eq!(update_color(&Color(3, 0, 0), 333), Color(0, 0, 0));
    assert_eq!(update_color(&Color(7, 9, 255), 1000), Color(7, 9, 255));
}

#[test]
fn negative_intensity_clamps_to_zero() {
    assert_eq!(update_color(&Color(255, 255, 255), -100), Color(0, 0, 0));
}

#[test]
fn four_samples_average_by_floor() {
    let sum = (255 + 255 + 0 + 0, 0, 0);
    assert_eq!(average_color(sum), Color(127, 0, 0));
    assert_eq!(average_color((3, 4, 7)), Color(0, 1, 1));
}

#[test]
fn average_clamps_large_sums() {
    assert_eq!(average_color((1020, 1023, 4000)), Color(255, 255, 255));
}

#[test]
fn blend_mixes_by_weight() {
    assert_eq!(blend(&Color(100, 0, 200), &Color(200, 50, 0), 500), Color(150, 25, 100));
    assert_eq!(blend(&Color(255, 0, 0), &Color(0, 0, 255), 800), Color(51, 0, 204));
    assert_eq!(blend(&Color(1, 2, 3), &Color(4, 5, 6), 0), Color(1, 2, 3));
    assert_eq!(blend(&Color(1, 2, 3), &Color(4, 5, 6), 1000), Color(4, 5, 6));
}

#[test]
fn lighting_sums_ambient_point_and_directional() {
    let scene = vec![background(), floor(-1)];
    let shape = floor(-1);
    assert_eq!(compute_lighting(&scene, &lights(), &down_ray(), &shape, 1000), 882);
}

#[test]
fn occluder_removes_only_the_blocked_light() {
    let scene = vec![background(), floor(-1), occluder()];
    let shape = floor(-1);
    // 100 ambient + 0 from the blocked point light + 282 from the directional light.
    assert_eq!(compute_lighting(&scene, &lights(), &down_ray(), &shape, 1000), 382);
}

#[test]
fn point_light_shadow_window_ends_at_the_light() {
    let scene = vec![background(), floor(-1), occluder()];
    let p = Point(0, 1000, 0);
    // The occluder sits between the point and the light: blocked.
    assert!(in_shadow(&scene, &p, &Point(0, -6000, 0), 1000));
    // The same direction, but the light stands before the occluder.
    assert!(!in_shadow(&scene, &p, &Point(0, -2000, 0), 1000));
    // A directional light along the same line is blocked at any distance.
    assert!(in_shadow(&scene, &p, &Point(0, -2000, 0), T_UNBOUNDED));
}

#[test]
fn surface_does_not_shadow_itself() {
    let scene = vec![background(), floor(-1)];
    assert!(!in_shadow(&scene, &Point(0, 1000, 0), &Point(0, -6000, 0), 1000));
}

#[test]
fn highlight_adds_phong_term() {
    let scene = vec![background(), floor(2)];
    let shape = floor(2);
    let lights = vec![Light::Directional { intensity: 400, direction: Point(1000, -1000, 0) }];
    // diffuse 400 * 0.707 = 282, highlight 400 * 0.707^2 = 400 * 0.499 = 199
    assert_eq!(compute_lighting(&scene, &lights, &down_ray(), &shape, 1000), 481);
}

#[test]
fn light_behind_surface_adds_nothing() {
    let scene = vec![background(), floor(-1)];
    let shape = floor(-1);
    let lights = vec![Light::Point { intensity: 500, position: Point(0, 5000, 0) }];
    assert_eq!(compute_lighting(&scene, &lights, &down_ray(), &shape, 1000), 0);
}

#[test]
fn light_behind_surface_adds_no_highlight() {
    let scene = vec![background(), floor(2)];
    let shape = floor(2);
    let lights = vec![Light::Directional { intensity: 1000, direction: Point(1000, 10, 0) }];
    let ray = Ray { origin: Point(0, 0, 0), direction: Point(1000, 1000, 0) };
    assert_eq!(compute_lighting(&scene, &lights, &ray, &shape, 1000), 0);
}

#[test]
fn diffuse_cosine_never_exceeds_one() {
    let tilted = Intersection::Plane(Plane {
        center: Point(0, 0, 5000),
        normal: Point(577, 577, 577),
        color: Color(255, 255, 255),
        reflection: -1,
        specular: 0,
    });
    let scene = vec![background(), tilted];
    let lights = vec![Light::Directional { intensity: 1000, direction: Point(2, 2, 2) }];
    let ray = Ray { origin: Point(0, 0, 0), direction: Point(0, 0, 1000) };
    assert_eq!(tilted.is_intersect(&ray, 1, T_UNBOUNDED), (true, 5000));
    assert_eq!(compute_lighting(&scene, &lights, &ray, &tilted, 5000), 1000);
}
