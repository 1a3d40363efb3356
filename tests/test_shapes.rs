use raytracer::ray::Ray;
use raytracer::shapes::material::{scatter_with, Lambertian, Material, Scatter};
use raytracer::shapes::sphere::Sphere;
use raytracer::shapes::triangle::Triangle;
use raytracer::shapes::{Intersection, ShapeVec};
use raytracer::vec3::{Vec3, UNIT};

fn grey() -> Material {
    Lambertian::boxed(Vec3::new(500, 500, 500))
}

#[test]
fn ray_at_moves_along_direction() {
    let r = Ray::new(Vec3::new(1000, 0, 0), Vec3::new(0, 2000, -500));
    assert_eq!(r.at(500), Vec3::new(1000, 1000, -250));
    assert_eq!(r.at(0), r.origin);
}

#[test]
fn sphere_hit_in_front() {
    let s = Sphere::new(Vec3::new(0, 0, -UNIT), 500, grey());
    let r = Ray::new(Vec3::new(0, 0, 0), Vec3::new(0, 0, -UNIT));
    match s.intersects(&r, 0, i64::MAX) {
        Intersection::Hit { point, normal, t, .. } => {
            assert_eq!(t, 500);
            assert_eq!(point, Vec3::new(0, 0, -500));
            assert_eq!(normal, Vec3::new(0, 0, UNIT));
        }
        Intersection::NoHit => panic!("expected a hit"),
    }
}

#[test]
fn sphere_far_root_when_near_root_below_min() {
    let s = Sphere::new(Vec3::new(0, 0, -UNIT), 500, grey());
    let r = Ray::new(Vec3::new(0, 0, 0), Vec3::new(0, 0, -UNIT));
    match s.intersects(&r, 600, i64::MAX) {
        Intersection::Hit { t, normal, .. } => {
            assert_eq!(t, 1500);
            assert_eq!(normal, Vec3::new(0, 0, -UNIT));
        }
        Intersection::NoHit => panic!("expected the far hit"),
    }
    assert_eq!(s.intersects(&r, 0, 400), Intersection::NoHit);
}

#[test]
fn sphere_miss_from_outside_pointing_away() {
    let s = Sphere::new(Vec3::new(0, 0, 0), 500, grey());
    let r = Ray::new(Vec3::new(0, 0, 2000), Vec3::new(0, 300, 1000));
    assert_eq!(s.intersects(&r, 0, i64::MAX), Intersection::NoHit);
}

#[test]
fn sphere_roots_symmetric_for_ray_through_centre() {
    let s = Sphere::new(Vec3::new(0, 0, -3000), 1000, grey());
    let r = Ray::new(Vec3::new(0, 0, 0), Vec3::new(0, 0, -UNIT));
    let near = match s.intersects(&r, 0, i64::MAX) {
        Intersection::Hit { t, .. } => t,
        Intersection::NoHit => panic!("expected a hit"),
    };
    let far = match s.intersects(&r, near + 1, i64::MAX) {
        Intersection::Hit { t, .. } => t,
        Intersection::NoHit => panic!("expected the far hit"),
    };
    assert_eq!((near, far), (2000, 4000));
    assert_eq!(3000 - near, far - 3000);
}

#[test]
fn sphere_miss_when_ray_passes_by() {
    let s = Sphere::new(Vec3::new(0, 0, -UNIT), 500, grey());
    let r = Ray::new(Vec3::new(0, 0, 0), Vec3::new(0, UNIT, 0));
    assert_eq!(s.intersects(&r, 0, i64::MAX), Intersection::NoHit);
}

fn flat_triangle() -> Triangle {
    Triangle::new(
        Vec3::new(-1000, -1000, -1000),
        Vec3::new(1000, -1000, -1000),
        Vec3::new(0, 1000, -1000),
        grey(),
    )
}

#[test]
fn triangle_hit_at_centroid() {
    let tr = flat_triangle();
    let r = Ray::new(Vec3::new(0, 0, 0), Vec3::new(0, -333, -1000));
    match tr.intersects(&r, 0, i64::MAX) {
        Intersection::Hit { t, point, normal, .. } => {
            assert_eq!(t, 1000);
            assert_eq!(point, Vec3::new(0, -333, -1000));
            assert_eq!(normal, Vec3::new(0, 0, UNIT));
        }
        Intersection::NoHit => panic!("expected a hit"),
    }
}

#[test]
fn triangle_miss_outside_edges() {
    let tr = flat_triangle();
    let r = Ray::new(Vec3::new(0, 0, 0), Vec3::new(3000, 3000, -1000));
    assert_eq!(tr.intersects(&r, 0, i64::MAX), Intersection::NoHit);
}

#[test]
fn triangle_miss_on_edge() {
    let tr = flat_triangle();
    let r = Ray::new(Vec3::new(0, 0, 0), Vec3::new(0, -1000, -1000));
    assert_eq!(tr.intersects(&r, 0, i64::MAX), Intersection::NoHit);
}

#[test]
fn triangle_miss_when_parallel() {
    let tr = flat_triangle();
    let r = Ray::new(Vec3::new(0, 0, 0), Vec3::new(1000, 0, 0));
    assert_eq!(tr.intersects(&r, 0, i64::MAX), Intersection::NoHit);
}

#[test]
fn triangle_miss_beyond_max() {
    let tr = flat_triangle();
    let r = Ray::new(Vec3::new(0, 0, 0), Vec3::new(0, -333, -1000));
    assert_eq!(tr.intersects(&r, 0, 999), Intersection::NoHit);
}

#[test]
fn scene_keeps_closest_hit() {
    let mut scene = ShapeVec::new();
    assert_eq!(scene.len(), 0);
    let far = Lambertian::boxed(Vec3::new(100, 100, 100));
    let near = Lambertian::boxed(Vec3::new(900, 900, 900));
    scene.push(Sphere::boxed(Vec3::new(0, 0, -5000), 500, far));
    scene.push(Sphere::boxed(Vec3::new(0, 0, -2000), 500, near));
    assert_eq!(scene.len(), 2);
    let r = Ray::new(Vec3::new(0, 0, 0), Vec3::new(0, 0, -UNIT));
    match scene.intersects(&r, 1, i64::MAX) {
        Intersection::Hit { t, material, .. } => {
            assert_eq!(t, 1500);
            assert_eq!(material, near);
        }
        Intersection::NoHit => panic!("expected a hit"),
    }
}

#[test]
fn scene_keeps_first_on_equal_t() {
    let mut scene = ShapeVec::new();
    let first = Lambertian::boxed(Vec3::new(100, 0, 0));
    let second = Lambertian::boxed(Vec3::new(0, 100, 0));
    scene.push(Sphere::boxed(Vec3::new(0, 0, -2000), 500, first));
    scene.push(Sphere::boxed(Vec3::new(0, 0, -2000), 500, second));
    let r = Ray::new(Vec3::new(0, 0, 0), Vec3::new(0, 0, -UNIT));
    match scene.intersects(&r, 1, i64::MAX) {
        Intersection::Hit { material, .. } => assert_eq!(material, first),
        Intersection::NoHit => panic!("expected a hit"),
    }
}

#[test]
fn empty_scene_misses() {
    let scene = ShapeVec::new();
    let r = Ray::new(Vec3::new(0, 0, 0), Vec3::new(0, 0, -UNIT));
    assert_eq!(scene.intersects(&r, 1, i64::MAX), Intersection::NoHit);
}

#[test]
fn lambertian_scatter() {
    let albedo = Vec3::new(700, 0, 0);
    let m = Lambertian::boxed(albedo);
    assert_eq!(Lambertian::new(albedo).albedo, albedo);
    let r = Ray::new(Vec3::new(0, 0, 0), Vec3::new(0, 0, -UNIT));
    assert!(matches!(m.scatter(&r, &Intersection::NoHit), Scatter::Absorbed));
    let hit = Intersection::Hit {
        point: Vec3::new(0, 0, -500),
        normal: Vec3::new(0, 0, UNIT),
        t: 500,
        material: m,
    };
    for _ in 0..50 {
        match m.scatter(&r, &hit) {
            Scatter::Scattered { ray, attenuation } => {
                assert_eq!(attenuation, albedo);
                assert_eq!(ray.origin, Vec3::new(0, 0, -500));
                let d = ray.direction;
                assert!(!d.near_zero());
                assert!(-1000 <= d.x && d.x <= 1000 && -1000 <= d.y && d.y <= 1000);
                assert!(0 <= d.z && d.z <= 2000);
            }
            Scatter::Absorbed => panic!("a hit is never absorbed"),
        }
    }
}

#[test]
fn scatter_direction_from_drawn_vector() {
    let point = Vec3::new(0, 0, -500);
    let normal = Vec3::new(0, 0, UNIT);
    let albedo = Vec3::new(700, 0, 0);
    let direction = |u: Option<Vec3>| match scatter_with(point, normal, albedo, u) {
        Scatter::Scattered { ray, attenuation } => {
            assert_eq!(ray.origin, point);
            assert_eq!(attenuation, albedo);
            ray.direction
        }
        Scatter::Absorbed => panic!("a hit is never absorbed"),
    };
    assert_eq!(direction(Some(Vec3::new(UNIT, 0, 0))), Vec3::new(UNIT, 0, UNIT));
    assert_eq!(direction(Some(Vec3::new(0, 0, -UNIT))), normal);
    assert_eq!(direction(None), normal);
}
