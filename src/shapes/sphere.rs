use vstd::prelude::*;
use crate::arith::{div_floor, floor_sqrt, isqrt};
use crate::ray::Ray;
use crate::shapes::material::Material;
use crate::shapes::triangle::cross3;
use crate::shapes::Intersection;
use crate::vec3::{len2_of, lemma_len2_bound, lemma_mul_bound, unit_of, unit_vector, Point3, LIMIT, UNIT};

verus! {

/// A sphere with its centre, radius and material.
#[derive(Clone, Copy, Debug, PartialEq, Eq, Structural)]
pub struct Sphere {
    pub origin: Point3,
    pub radius: i64,
    pub material: Material,
}

/// Coefficient `a = D . D` of the ray-sphere quadratic.
pub open spec fn quad_a(r: Ray) -> int {
    r.direction.x * r.direction.x + r.direction.y * r.direction.y + r.direction.z
        * r.direction.z
}

/// Coefficient `half_b = (O - C) . D`.
pub open spec fn quad_half_b(s: Sphere, r: Ray) -> int {
    (r.origin.x - s.origin.x) * r.direction.x + (r.origin.y - s.origin.y) * r.direction.y + (
    r.origin.z - s.origin.z) * r.direction.z
}

/// Coefficient `c = |O - C|^2 - radius^2`.
pub open spec fn quad_c(s: Sphere, r: Ray) -> int {
    len2_of(
        r.origin.x - s.origin.x,
        r.origin.y - s.origin.y,
        r.origin.z - s.origin.z,
    ) - s.radius * s.radius
}

/// Discriminant `half_b^2 - a c`.
pub open spec fn discriminant(s: Sphere, r: Ray) -> int {
    quad_half_b(s, r) * quad_half_b(s, r) - quad_a(r) * quad_c(s, r)
}

/// Numerator of the nearer root, `-half_b - sqrt(discriminant)`.
pub open spec fn near_root_num(s: Sphere, r: Ray) -> int {
    -quad_half_b(s, r) - floor_sqrt(discriminant(s, r))
}

/// Numerator of the farther root, `-half_b + sqrt(discriminant)`.
pub open spec fn far_root_num(s: Sphere, r: Ray) -> int {
    -quad_half_b(s, r) + floor_sqrt(discriminant(s, r))
}

/// A root numerator as a fixed-point ray parameter, rounded down.
pub open spec fn root_param(num: int, a: int) -> int {
    num * UNIT / a
}

/// The hit of ray `r` on sphere `s` with parameter in `[min, max]`: the nearer
/// root if it lies there, else the farther one, with the outward unit normal
/// in the direction from the centre to the hit point. A hit that falls outside
/// the coordinate bound, or rounds onto the centre, counts as a miss.
pub open spec fn sphere_hit(s: Sphere, r: Ray, min: int, max: int) -> Intersection {
    let a = quad_a(r);
    let t1 = root_param(near_root_num(s, r), a);
    let t2 = root_param(far_root_num(s, r), a);
    let t = if min <= t1 <= max {
        t1
    } else {
        t2
    };
    let p = r.point_at(t);
    let n = (p.x - s.origin.x, p.y - s.origin.y, p.z - s.origin.z);
    if a == 0 || discriminant(s, r) < 0 {
        Intersection::NoHit
    } else if !(min <= t <= max) || !r.at_in_limit(t) || len2_of(n.0, n.1, n.2) == 0 {
        Intersection::NoHit
    } else {
        Intersection::Hit { point: p, normal: unit_of(n.0, n.1, n.2), t: t as i64, material: s.material }
    }
}

impl Sphere {
    /// Centre within the coordinate bound, positive radius, valid material.
    pub open spec fn wf(self) -> bool {
        self.origin.wf() && 0 < self.radius <= LIMIT && self.material.wf()
    }

    pub fn new(origin: Point3, radius: i64, material: Material) -> (r: Self)
        ensures
            r == (Sphere { origin, radius, material }),
    {
        Sphere { origin, radius, material }
    }

    /// The nearest hit of `r` with parameter in `[min, max]`.
    pub fn intersects(&self, r: &Ray, min: i64, max: i64) -> (res: Intersection)
        requires
            self.wf(),
            r.wf(),
        ensures
            res == sphere_hit(*self, *r, min as int, max as int),
            res.wf(),
            res matches Intersection::Hit { t, .. } ==> min <= t <= max,
    {
        let ox = r.origin.x as i128 - self.origin.x as i128;
        let oy = r.origin.y as i128 - self.origin.y as i128;
        let oz = r.origin.z as i128 - self.origin.z as i128;
        let dx = r.direction.x as i128;
        let dy = r.direction.y as i128;
        let dz = r.direction.z as i128;
        let rad = self.radius as i128;
        proof {
            let m = LIMIT as int;
            lemma_quad_bounds(*self, *r);
            lemma_mul_bound(dx as int, dx as int, m);
            lemma_mul_bound(dy as int, dy as int, m);
            lemma_mul_bound(dz as int, dz as int, m);
            lemma_mul_bound(ox as int, dx as int, 2 * m);
            lemma_mul_bound(oy as int, dy as int, 2 * m);
            lemma_mul_bound(oz as int, dz as int, 2 * m);
            lemma_mul_bound(ox as int, ox as int, 2 * m);
            lemma_mul_bound(oy as int, oy as int, 2 * m);
            lemma_mul_bound(oz as int, oz as int, 2 * m);
            lemma_mul_bound(rad as int, rad as int, m);
        }
        let a = dx * dx + dy * dy + dz * dz;
        let half_b = ox * dx + oy * dy + oz * dz;
        let c = ox * ox + oy * oy + oz * oz - rad * rad;
        proof {
            lemma_mul_bound(half_b as int, half_b as int, 0x6_0000_0000_0000);
            lemma_mul_bound(a as int, c as int, 0xC_0000_0000_0000);
        }
        let disc = half_b * half_b - a * c;
        if a == 0 || disc < 0 {
            return Intersection::NoHit;
        }
        let sq0 = isqrt(disc as u128);
        proof {
            lemma_root_bound(half_b as int, sq0 as int, a as int, disc as int);
        }
        let sq = sq0 as i128;
        let t1 = div_floor((-half_b - sq) * UNIT as i128, a);
        let t2 = div_floor((-half_b + sq) * UNIT as i128, a);
        let t = if min as i128 <= t1 && t1 <= max as i128 {
            t1
        } else {
            t2
        };
        if !(min as i128 <= t && t <= max as i128) {
            return Intersection::NoHit;
        }
        let t = t as i64;
        match r.at_checked(t) {
            None => Intersection::NoHit,
            Some(p) => {
                let nx = p.x as i128 - self.origin.x as i128;
                let ny = p.y as i128 - self.origin.y as i128;
                let nz = p.z as i128 - self.origin.z as i128;
                if nx == 0 && ny == 0 && nz == 0 {
                    proof {
                        assert(len2_of(nx as int, ny as int, nz as int) == 0) by (nonlinear_arith)
                            requires
                                nx == 0 && ny == 0 && nz == 0,
                        ;
                    }
                    Intersection::NoHit
                } else {
                    proof {
                        assert(len2_of(nx as int, ny as int, nz as int) > 0) by (nonlinear_arith)
                            requires
                                !(nx == 0 && ny == 0 && nz == 0),
                        ;
                    }
                    let normal = unit_vector(nx, ny, nz);
                    Intersection::Hit { point: p, normal, t, material: self.material }
                }
            },
        }
    }
}

proof fn lemma_quad_bounds(s: Sphere, r: Ray)
    requires
        s.wf(),
        r.wf(),
    ensures
        0 <= quad_a(r) <= 0x3_0000_0000_0000,
        -0x6_0000_0000_0000 <= quad_half_b(s, r) <= 0x6_0000_0000_0000,
        -0x1_0000_0000_0000 <= quad_c(s, r) <= 0xC_0000_0000_0000,
        -0x80_0000_0000_0000_0000_0000_0000 <= discriminant(s, r) <= 0x80_0000_0000_0000_0000_0000_0000,
{
    let m = LIMIT as int;
    let (ox, oy, oz) = (
        r.origin.x - s.origin.x,
        r.origin.y - s.origin.y,
        r.origin.z - s.origin.z,
    );
    lemma_len2_bound(r.direction.x as int, r.direction.y as int, r.direction.z as int, m);
    lemma_len2_bound(ox, oy, oz, 2 * m);
    assert(-0x6_0000_0000_0000 <= quad_half_b(s, r) <= 0x6_0000_0000_0000) by (nonlinear_arith)
        requires
            -2 * m <= ox <= 2 * m,
            -2 * m <= oy <= 2 * m,
            -2 * m <= oz <= 2 * m,
            -m <= r.direction.x <= m,
            -m <= r.direction.y <= m,
            -m <= r.direction.z <= m,
            m == 4_194_304,
            quad_half_b(s, r) == ox * r.direction.x + oy * r.direction.y + oz * r.direction.z,
    ;
    assert(0 <= s.radius * s.radius <= m * m) by (nonlinear_arith)
        requires
            0 < s.radius <= m,
    ;
    let a = quad_a(r);
    let hb = quad_half_b(s, r);
    let c = quad_c(s, r);
    assert(-0x80_0000_0000_0000_0000_0000_0000 <= hb * hb - a * c <= 0x80_0000_0000_0000_0000_0000_0000)
        by (nonlinear_arith)
        requires
            0 <= a <= 0x3_0000_0000_0000,
            -0x6_0000_0000_0000 <= hb <= 0x6_0000_0000_0000,
            -0x1_0000_0000_0000 <= c <= 0xC_0000_0000_0000,
    ;
}

proof fn lemma_root_bound(hb: int, sq: int, a: int, disc: int)
    requires
        -0x6_0000_0000_0000 <= hb <= 0x6_0000_0000_0000,
        0 <= disc <= 0x80_0000_0000_0000_0000_0000_0000,
        sq == floor_sqrt(disc),
        a > 0,
    ensures
        0 <= sq <= 0x10_0000_0000_0000,
        -0x100_0000_0000_0000_0000 <= (-hb - sq) * UNIT / a <= 0x100_0000_0000_0000_0000,
        -0x100_0000_0000_0000_0000 <= (-hb + sq) * UNIT / a <= 0x100_0000_0000_0000_0000,
{
    crate::arith::lemma_floor_sqrt(disc);
    assert(sq <= 0x10_0000_0000_0000) by (nonlinear_arith)
        requires
            0 <= sq,
            sq * sq <= disc,
            disc <= 0x80_0000_0000_0000_0000_0000_0000,
    ;
    assert(-0x100_0000_0000_0000_0000 <= (-hb - sq) * 1000 / a <= 0x100_0000_0000_0000_0000)
        by (nonlinear_arith)
        requires
            -0x6_0000_0000_0000 <= hb <= 0x6_0000_0000_0000,
            0 <= sq <= 0x10_0000_0000_0000,
            a > 0,
    ;
    assert(-0x100_0000_0000_0000_0000 <= (-hb + sq) * 1000 / a <= 0x100_0000_0000_0000_0000)
        by (nonlinear_arith)
        requires
            -0x6_0000_0000_0000 <= hb <= 0x6_0000_0000_0000,
            0 <= sq <= 0x10_0000_0000_0000,
            a > 0,
    ;
}

/// A ray that starts outside a sphere (`c > 0`) and points away from its centre
/// (`half_b > 0`) does not hit it for any non-negative lower bound.
pub proof fn lemma_outside_pointing_away_misses(s: Sphere, r: Ray, min: int, max: int)
    requires
        quad_c(s, r) > 0,
        quad_half_b(s, r) > 0,
        min >= 0,
    ensures
        sphere_hit(s, r, min, max) == Intersection::NoHit,
{
    let a = quad_a(r);
    let hb = quad_half_b(s, r);
    let c = quad_c(s, r);
    let disc = discriminant(s, r);
    assert(a >= 0) by (nonlinear_arith)
        requires
            a == r.direction.x * r.direction.x + r.direction.y * r.direction.y + r.direction.z
                * r.direction.z,
    ;
    if a != 0 && disc >= 0 {
        crate::arith::lemma_floor_sqrt(disc);
        let sq = floor_sqrt(disc);
        assert(sq < hb) by (nonlinear_arith)
            requires
                0 <= sq,
                sq * sq <= disc,
                disc == hb * hb - a * c,
                a > 0,
                c > 0,
                hb > 0,
        ;
        lemma_negative_param(-hb - sq, a);
        lemma_negative_param(-hb + sq, a);
    }
}

proof fn lemma_scaled_terms(q: int, p: int, o: int, d: int)
    requires
        q * o == p * d,
    ensures
        q * (o * d) == p * (d * d),
        (q * q) * (o * o) == (p * p) * (d * d),
{
    assert(q * (o * d) == p * (d * d)) by (nonlinear_arith)
        requires
            q * o == p * d,
    ;
    assert((q * q) * (o * o) == (p * p) * (d * d)) by (nonlinear_arith)
        requires
            q * o == p * d,
    ;
}

proof fn lemma_negative_param(num: int, a: int)
    requires
        num < 0,
        a > 0,
    ensures
        root_param(num, a) < 0,
{
    assert(num * 1000 / a < 0) by (nonlinear_arith)
        requires
            num < 0,
            a > 0,
    ;
}

/// For a ray whose line passes through the sphere's centre, `q (O - C) = p D`
/// with `q != 0`, the discriminant is `a * radius^2`: the two root numerators lie
/// symmetric about `-half_b`, each at distance `sqrt(a) * radius`.
pub proof fn lemma_roots_symmetric_through_centre(s: Sphere, r: Ray, p: int, q: int)
    requires
        q != 0,
        q * (r.origin.x - s.origin.x) == p * r.direction.x,
        q * (r.origin.y - s.origin.y) == p * r.direction.y,
        q * (r.origin.z - s.origin.z) == p * r.direction.z,
    ensures
        discriminant(s, r) == quad_a(r) * (s.radius * s.radius),
        near_root_num(s, r) + far_root_num(s, r) == -2 * quad_half_b(s, r),
        far_root_num(s, r) - near_root_num(s, r) == 2 * floor_sqrt(
            quad_a(r) * (s.radius * s.radius),
        ),
{
    let (dx, dy, dz) = (r.direction.x as int, r.direction.y as int, r.direction.z as int);
    let (ox, oy, oz) = (
        r.origin.x - s.origin.x,
        r.origin.y - s.origin.y,
        r.origin.z - s.origin.z,
    );
    let a = quad_a(r);
    let hb = quad_half_b(s, r);
    let c = quad_c(s, r);
    let rr = s.radius * s.radius;
    lemma_scaled_terms(q, p, ox, dx);
    lemma_scaled_terms(q, p, oy, dy);
    lemma_scaled_terms(q, p, oz, dz);
    assert(q * hb == q * (ox * dx) + q * (oy * dy) + q * (oz * dz)) by (nonlinear_arith)
        requires
            hb == ox * dx + oy * dy + oz * dz,
    ;
    assert(q * hb == p * a) by (nonlinear_arith)
        requires
            q * hb == p * (dx * dx) + p * (dy * dy) + p * (dz * dz),
            a == dx * dx + dy * dy + dz * dz,
    ;
    let qq = q * q;
    assert(qq * (c + rr) == qq * (ox * ox) + qq * (oy * oy) + qq * (oz * oz)) by (nonlinear_arith)
        requires
            c + rr == ox * ox + oy * oy + oz * oz,
    ;
    let pp = p * p;
    assert(qq * (c + rr) == pp * a) by (nonlinear_arith)
        requires
            qq * (c + rr) == pp * (dx * dx) + pp * (dy * dy) + pp * (dz * dz),
            a == dx * dx + dy * dy + dz * dz,
    ;
    let x = q * hb;
    assert(qq * (hb * hb) == x * x) by (nonlinear_arith)
        requires
            qq == q * q,
            x == q * hb,
    ;
    assert(x * x == pp * (a * a)) by (nonlinear_arith)
        requires
            x == p * a,
            pp == p * p,
    ;
    assert(qq * (a * c) == a * (pp * a) - a * (qq * rr)) by (nonlinear_arith)
        requires
            qq * (c + rr) == pp * a,
    ;
    assert(qq * (hb * hb - a * c) == qq * (a * rr)) by (nonlinear_arith)
        requires
            qq * (hb * hb) == pp * (a * a),
            qq * (a * c) == a * (pp * a) - a * (qq * rr),
    ;
    assert(qq != 0) by (nonlinear_arith)
        requires
            qq == q * q,
            q != 0,
    ;
    vstd::arithmetic::mul::lemma_mul_equality_converse(qq, hb * hb - a * c, a * rr);
}

/// For a ray with non-zero direction `D` whose line passes through the centre
/// (`cross(O - C, D) == 0`), the discriminant is `a * radius^2` and the two
/// root numerators lie symmetric about `-half_b`, each at distance
/// `sqrt(a) * radius`.
pub proof fn lemma_roots_symmetric_collinear(s: Sphere, r: Ray)
    requires
        r.direction.x != 0 || r.direction.y != 0 || r.direction.z != 0,
        cross3(
            (r.origin.x - s.origin.x, r.origin.y - s.origin.y, r.origin.z - s.origin.z),
            (r.direction.x as int, r.direction.y as int, r.direction.z as int),
        ) == (0int, 0int, 0int),
    ensures
        discriminant(s, r) == quad_a(r) * (s.radius * s.radius),
        near_root_num(s, r) + far_root_num(s, r) == -2 * quad_half_b(s, r),
        far_root_num(s, r) - near_root_num(s, r) == 2 * floor_sqrt(
            quad_a(r) * (s.radius * s.radius),
        ),
{
    let (ox, oy, oz) = (
        r.origin.x - s.origin.x,
        r.origin.y - s.origin.y,
        r.origin.z - s.origin.z,
    );
    let (dx, dy, dz) = (r.direction.x as int, r.direction.y as int, r.direction.z as int);
    assert(dx * ox == ox * dx && dy * oy == oy * dy && dz * oz == oz * dz) by (nonlinear_arith);
    if dx != 0 {
        lemma_roots_symmetric_through_centre(s, r, ox, dx);
    } else if dy != 0 {
        lemma_roots_symmetric_through_centre(s, r, oy, dy);
    } else {
        lemma_roots_symmetric_through_centre(s, r, oz, dz);
    }
}

} // verus!
