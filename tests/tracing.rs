use raytracer::color::Color;
use raytracer::lighting::Light;
use raytracer::math::Point;
use raytracer::render::{jitter, render_pixel, scene_to_viewport, trace_ray, RenderConfig, NEAR_T};
use raytracer::shapes::{Background, Intersection, Plane, Ray, Sphere};

fn background(color: Color) -> Intersection {
    Intersection::Background(Background { color, reflection: 0, specular: 0 })
}

fn ahead() -> Ray {
    Ray { origin: Point(0, 0, 0), direction: Point(0, 0, 1000) }
}

fn mirror(z: i64, facing: i64, color: Color, specular: i64) -> Intersection {
    Intersection::Plane(Plane {
        center: Point(0, 0, z),
        normal: Point(0, 0, facing),
        color,
        reflection: -1,
        specular,
    })
}

fn sphere_ahead(radius: i64) -> Intersection {
    Intersection::Sphere(Sphere {
        center: Point(0, 0, 5000),
        radius,
        color: Color(200, 100, 50),
        reflection: -1,
        specular: 0,
    })
}

fn config(width: u32, height: u32) -> RenderConfig {
    RenderConfig {
        image_width: width,
        image_height: height,
        viewport_width: 1000,
        viewport_height: 1000,
        viewport_distance: 1000,
        eye: Point(0, 0, 0),
        recursion_depth: 4,
    }
}

#[test]
fn miss_returns_clear_color() {
    let scene = vec![background(Color(0, 0, 0))];
    let lights = vec![Light::Ambient { intensity: 200 }];
    assert_eq!(trace_ray(&scene, &lights, &ahead(), NEAR_T, 4), Color(0, 0, 0));
}

#[test]
fn miss_scales_clear_color_by_ambient() {
    let off_axis = Intersection::Sphere(Sphere {
        center: Point(10_000, 0, 5000),
        radius: 1000,
        color: Color(255, 255, 255),
        reflection: 10,
        specular: 0,
    });
    let scene = vec![background(Color(10, 20, 30)), off_axis];
    let lights = vec![Light::Ambient { intensity: 200 }];
    assert_eq!(trace_ray(&scene, &lights, &ahead(), NEAR_T, 4), Color(2, 4, 6));
    let half = vec![
        Light::Ambient { intensity: 300 },
        Light::Point { intensity: 900, position: Point(0, -5000, 0) },
        Light::Ambient { intensity: 200 },
    ];
    assert_eq!(trace_ray(&scene, &half, &ahead(), NEAR_T, 0), Color(5, 10, 15));
}

#[test]
fn hit_scales_color_by_light() {
    let scene = vec![background(Color(0, 0, 0)), sphere_ahead(1000)];
    let full = vec![Light::Ambient { intensity: 1000 }];
    assert_eq!(trace_ray(&scene, &full, &ahead(), NEAR_T, 4), Color(200, 100, 50));
    let double = vec![Light::Ambient { intensity: 2000 }];
    assert_eq!(trace_ray(&scene, &double, &ahead(), NEAR_T, 4), Color(255, 200, 100));
}

#[test]
fn nearer_object_wins() {
    let far = Intersection::Sphere(Sphere {
        center: Point(0, 0, 20_000),
        radius: 1000,
        color: Color(1, 1, 1),
        reflection: -1,
        specular: 0,
    });
    let scene = vec![background(Color(0, 0, 0)), far, sphere_ahead(1000)];
    let lights = vec![Light::Ambient { intensity: 1000 }];
    assert_eq!(trace_ray(&scene, &lights, &ahead(), NEAR_T, 4), Color(200, 100, 50));
}

#[test]
fn facing_mirrors_stop_after_depth_reflections() {
    let scene = vec![
        background(Color(0, 0, 0)),
        mirror(5000, -1000, Color(200, 0, 0), 1000),
        mirror(-5000, 1000, Color(0, 0, 200), 1000),
    ];
    let lights = vec![Light::Ambient { intensity: 1000 }];
    // Depth 4: front, back, front, back, front; the last one's own color is returned.
    assert_eq!(trace_ray(&scene, &lights, &ahead(), NEAR_T, 4), Color(200, 0, 0));
    assert_eq!(trace_ray(&scene, &lights, &ahead(), NEAR_T, 3), Color(0, 0, 200));
    assert_eq!(trace_ray(&scene, &lights, &ahead(), NEAR_T, 0), Color(200, 0, 0));
}

#[test]
fn half_mirror_blends_local_and_reflected() {
    let scene = vec![
        background(Color(0, 0, 0)),
        mirror(5000, -1000, Color(200, 0, 0), 500),
        mirror(-5000, 1000, Color(0, 0, 200), 0),
    ];
    let lights = vec![Light::Ambient { intensity: 1000 }];
    assert_eq!(trace_ray(&scene, &lights, &ahead(), NEAR_T, 1), Color(100, 0, 100));
}

#[test]
fn viewport_mapping_centres_the_image() {
    let cfg = config(500, 500);
    assert_eq!(scene_to_viewport(&cfg, 250_000, 250_000), Point(0, 0, 1000));
    assert_eq!(scene_to_viewport(&cfg, 0, 500_000), Point(-500, 500, 1000));
    assert_eq!(scene_to_viewport(&cfg, 125_000, 375_000), Point(-250, 250, 1000));
}

#[test]
fn jitter_pattern() {
    assert_eq!(jitter(0), (-250, 750));
    assert_eq!(jitter(1), (750, 333));
    assert_eq!(jitter(2), (-750, -250));
    assert_eq!(jitter(3), (250, -750));
}

#[test]
fn empty_pixel_shows_clear_color() {
    let scene = vec![background(Color(30, 60, 90))];
    let lights = vec![Light::Ambient { intensity: 500 }];
    assert_eq!(render_pixel(&scene, &lights, &config(2, 2), 0, 1), Color(15, 30, 45));
}

#[test]
fn covered_pixel_shows_object_color() {
    let scene = vec![background(Color(0, 0, 0)), sphere_ahead(4000)];
    let lights = vec![Light::Ambient { intensity: 1000 }];
    assert_eq!(render_pixel(&scene, &lights, &config(2, 2), 0, 0), Color(200, 100, 50));
    assert_eq!(render_pixel(&scene, &lights, &config(2, 2), 1, 1), Color(200, 100, 50));
}

#[test]
fn reflection_follows_mirrored_direction_at_unit_length() {
    let scene = vec![
        background(Color(0, 0, 0)),
        mirror(5000, -1000, Color(200, 0, 0), 500),
        mirror(-5000, 1000, Color(0, 0, 200), 0),
    ];
    let lights = vec![Light::Ambient { intensity: 1000 }];
    let long = Ray { origin: Point(0, 0, 0), direction: Point(0, 0, 2000) };
    assert_eq!(trace_ray(&scene, &lights, &long, NEAR_T, 1), Color(100, 0, 100));
}
