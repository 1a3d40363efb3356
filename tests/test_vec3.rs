use raytracer::vec3::{accept_candidate, cross, dot, normalize, random_unit_sphere_vector, Vec3, UNIT};

#[test]
fn test_add() {
    let v = Vec3::new(1 * UNIT, 2 * UNIT, 2 * UNIT);
    let u = Vec3::new(4 * UNIT, 0, -3 * UNIT);
    assert_eq!(v.add(u), Vec3::new(5 * UNIT, 2 * UNIT, -1 * UNIT));
}

#[test]
fn sub_neg_and_getters() {
    let v = Vec3::new(7, -2, 3);
    let u = Vec3::new(1, 1, 1);
    assert_eq!(v.sub(u), Vec3::new(6, -3, 2));
    assert_eq!(v.neg(), Vec3::new(-7, 2, -3));
    assert_eq!((v.x(), v.y(), v.z()), (7, -2, 3));
    assert_eq!((v.a(), v.b(), v.c()), (7, -2, 3));
    assert_eq!(Vec3::default(), Vec3::new(0, 0, 0));
}

#[test]
fn hadamard_scale_and_div_round_down() {
    let c = Vec3::new(500, 1000, 250);
    let d = Vec3::new(500, 700, -3);
    assert_eq!(c.mul(d), Vec3::new(250, 700, -1));
    assert_eq!(Vec3::new(2000, -3, 1500).scale(500), Vec3::new(1000, -2, 750));
    assert_eq!(Vec3::new(1000, -1000, 3).div(2000), Vec3::new(500, -500, 1));
}

#[test]
fn dot_and_cross_products() {
    let x = Vec3::new(UNIT, 0, 0);
    let y = Vec3::new(0, UNIT, 0);
    assert_eq!(cross(x, y), Vec3::new(0, 0, UNIT));
    assert_eq!(cross(y, x), Vec3::new(0, 0, -UNIT));
    assert_eq!(dot(x, y), 0);
    assert_eq!(dot(Vec3::new(2000, 3000, -1000), Vec3::new(500, 1000, 1000)), 3000);
}

#[test]
fn magnitude_and_normalize() {
    let v = Vec3::new(3000, 4000, 0);
    assert_eq!(v.magnitude(), 5000);
    assert_eq!(v.length(), 5000);
    assert_eq!(normalize(v), Vec3::new(600, 800, 0));
    assert_eq!(normalize(Vec3::new(0, -7, 0)), Vec3::new(0, -1000, 0));
}

#[test]
fn near_zero_only_for_zero() {
    assert!(Vec3::new(0, 0, 0).near_zero());
    assert!(!Vec3::new(0, 1, 0).near_zero());
}

#[test]
fn random_vectors_stay_in_range_and_vary() {
    let mut seen_different = false;
    let first = Vec3::random(0, 1000);
    for _ in 0..200 {
        let v = Vec3::random(-5, 5);
        assert!(-5 <= v.x && v.x < 5 && -5 <= v.y && v.y < 5 && -5 <= v.z && v.z < 5);
        let w = Vec3::random(0, 1000);
        if w != first {
            seen_different = true;
        }
    }
    assert!(seen_different);
}

#[test]
fn random_unit_vectors_have_unit_length() {
    for _ in 0..100 {
        let v = random_unit_sphere_vector().expect("a candidate inside the ball");
        let l = v.magnitude();
        assert!(995 <= l && l <= 1002, "length {}", l);
    }
}

#[test]
fn candidates_inside_the_ball_are_normalised() {
    assert_eq!(accept_candidate(Vec3::new(300, 400, 0)), Some(Vec3::new(600, 800, 0)));
    assert_eq!(accept_candidate(Vec3::new(0, -5, 0)), Some(Vec3::new(0, -1000, 0)));
    assert_eq!(accept_candidate(Vec3::new(999, 999, 0)), None);
    assert_eq!(accept_candidate(Vec3::new(0, 0, -1000)), None);
    assert_eq!(accept_candidate(Vec3::new(0, 0, 0)), None);
}
