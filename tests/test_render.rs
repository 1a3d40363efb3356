use raytracer::camera::Camera;
use raytracer::image::Image;
use raytracer::ppm::parse_header;
use raytracer::ray::Ray;
use raytracer::render::{background_color, gamma_average, ray_color, render, render_pixel};
use raytracer::shapes::material::Lambertian;
use raytracer::shapes::sphere::Sphere;
use raytracer::shapes::ShapeVec;
use raytracer::vec3::{Vec3, UNIT};

fn eye() -> Vec3 {
    Vec3::new(0, 0, 0)
}

#[test]
fn camera_viewport_geometry() {
    let cam = Camera::new(eye(), 16, 9, 2 * UNIT, UNIT);
    assert_eq!(cam.viewport_width, 3555);
    assert_eq!(cam.horizontal, Vec3::new(3555, 0, 0));
    assert_eq!(cam.vertical, Vec3::new(0, 2000, 0));
    assert_eq!(cam.lower_left_corner, Vec3::new(-1777, -1000, -1000));
    let r = cam.get_ray(0, 0);
    assert_eq!(r.origin, eye());
    assert_eq!(r.direction, Vec3::new(-1777, -1000, -1000));
    let r = cam.get_ray(UNIT, UNIT);
    assert_eq!(r.direction, Vec3::new(1778, 1000, -1000));
}

#[test]
fn depth_zero_is_black() {
    let mut scene = ShapeVec::new();
    scene.push(Sphere::boxed(Vec3::new(0, 0, -UNIT), 500, Lambertian::boxed(Vec3::new(500, 500, 500))));
    let r = Ray::new(eye(), Vec3::new(0, 0, -UNIT));
    assert_eq!(ray_color(&r, &scene, 0), Vec3::new(0, 0, 0));
    let empty = ShapeVec::new();
    assert_eq!(ray_color(&r, &empty, 0), Vec3::new(0, 0, 0));
}

#[test]
fn empty_scene_shows_background_gradient() {
    let empty = ShapeVec::new();
    let up = Ray::new(eye(), Vec3::new(0, UNIT, 0));
    let down = Ray::new(eye(), Vec3::new(0, -UNIT, 0));
    let side = Ray::new(eye(), Vec3::new(UNIT, 0, 0));
    assert_eq!(ray_color(&up, &empty, 5), Vec3::new(500, 700, 1000));
    assert_eq!(ray_color(&down, &empty, 5), Vec3::new(1000, 1000, 1000));
    assert_eq!(ray_color(&side, &empty, 1), Vec3::new(750, 850, 1000));
    assert_eq!(background_color(Vec3::new(0, 3, 0)), Vec3::new(500, 700, 1000));
}

#[test]
fn gamma_average_of_samples() {
    assert_eq!(gamma_average(Vec3::new(4000, 1000, 0), 4), Vec3::new(1000, 500, 0));
    assert_eq!(gamma_average(Vec3::new(250, 0, 1000), 1), Vec3::new(500, 0, 1000));
}

fn ground_scene() -> ShapeVec {
    let mut scene = ShapeVec::new();
    scene.push(Sphere::boxed(
        Vec3::new(0, -100_500, -UNIT),
        100 * UNIT,
        Lambertian::boxed(Vec3::new(500, 500, 500)),
    ));
    scene
}

#[test]
fn ground_sphere_pixel_is_attenuated() {
    let scene = ground_scene();
    let cam = Camera::new(eye(), 16, 9, 2 * UNIT, UNIT);
    let c = render_pixel(&cam, &scene, 0, 0, 400, 225, 8, 10);
    assert!(0 <= c.x && c.x < UNIT, "{:?}", c);
    assert!(0 <= c.y && c.y < UNIT, "{:?}", c);
    assert!(0 <= c.z && c.z < UNIT, "{:?}", c);
    let bg = background_color(cam.get_ray(0, 0).direction);
    assert_ne!(c, bg);
    let up = Ray::new(eye(), Vec3::new(0, UNIT, 0));
    assert_eq!(ray_color(&up, &scene, 10), Vec3::new(500, 700, 1000));
}

#[test]
fn image_dimensions_and_pixels() {
    let mut img = Image::new(16, 9, 400);
    assert_eq!((img.width, img.height), (400, 225));
    assert_eq!(img.get(224, 399), Vec3::new(0, 0, 0));
    img.set(3, 5, Vec3::new(1, 2, 3));
    assert_eq!(img.get(3, 5), Vec3::new(1, 2, 3));
    assert_eq!(img.get(5, 3), Vec3::new(0, 0, 0));
}

/// The plain-text format tag followed by `rest`.
fn plain_ppm(rest: &[u8]) -> Vec<u8> {
    let mut bytes = vec![b'P', b'3', b'\n'];
    bytes.extend_from_slice(rest);
    bytes
}

#[test]
fn ppm_text_of_small_image() {
    let mut img = Image::new(2, 1, 2);
    img.set(0, 0, Vec3::new(1000, 500, 0));
    assert_eq!(img.ppm(), plain_ppm(b"2 1\n255\n255 127 0\n0 0 0\n"));
}

#[test]
fn ppm_lists_top_row_first() {
    let mut img = Image::new(1, 2, 1);
    img.set(0, 0, Vec3::new(UNIT, UNIT, UNIT));
    assert_eq!(img.ppm(), plain_ppm(b"1 2\n255\n0 0 0\n255 255 255\n"));
}

#[test]
fn ppm_header_round_trip() {
    let img = Image::new(16, 9, 400);
    assert_eq!(parse_header(&img.ppm()), Some((400, 225, 255)));
    let img = Image::new(1, 1, 7);
    assert_eq!(parse_header(&img.ppm()), Some((7, 7, 255)));
}

#[test]
fn parse_header_rejects_malformed() {
    assert_eq!(parse_header(&plain_ppm(b"12 34\n255\n")), Some((12, 34, 255)));
    let mut binary_tag = vec![b'P', b'6', b'\n'];
    binary_tag.extend_from_slice(b"12 34\n255\n");
    assert_eq!(parse_header(&binary_tag), None);
    assert_eq!(parse_header(&plain_ppm(b"12 34\n255")), None);
    assert_eq!(parse_header(&plain_ppm(b"123456 34\n255\n")), None);
    assert_eq!(parse_header(&plain_ppm(b" 12 34\n255\n")), None);
    assert_eq!(parse_header(&b"".to_vec()), None);
}

#[test]
fn render_fills_every_pixel() {
    let empty = ShapeVec::new();
    let mut img = Image::new(2, 1, 4);
    let cam = Camera::new(eye(), 2, 1, 2 * UNIT, UNIT);
    render(&cam, &empty, &mut img, 2, 3);
    for i in 0..img.height {
        for j in 0..img.width {
            let c = img.get(i, j);
            assert_eq!(c.z, UNIT);
            assert!(c.x < UNIT && c.y < UNIT);
        }
    }
}

#[test]
fn hit_with_last_bounce_is_black() {
    let mut scene = ShapeVec::new();
    scene.push(Sphere::boxed(Vec3::new(0, 0, -2000), 500, Lambertian::boxed(Vec3::new(700, 0, 0))));
    let r = Ray::new(eye(), Vec3::new(0, 0, -UNIT));
    assert_eq!(ray_color(&r, &scene, 1), Vec3::new(0, 0, 0));
    for _ in 0..20 {
        let c = ray_color(&r, &scene, 3);
        assert_eq!((c.y, c.z), (0, 0));
        assert!(0 <= c.x && c.x <= 700);
    }
}

#[test]
fn empty_image_header() {
    let img = Image::new(1, 1, 0);
    assert_eq!(img.height, 0);
    assert_eq!(img.ppm(), plain_ppm(b"0 0\n255\n"));
    assert_eq!(parse_header(&img.ppm()), Some((0, 0, 255)));
}
