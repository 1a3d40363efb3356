use vstd::prelude::*;
use crate::arith::div_floor;
use crate::ray::Ray;
use crate::shapes::material::Material;
use crate::shapes::Intersection;
use crate::vec3::{len2_of, lemma_mul_bound, lemma_mul_bound2, unit_of, unit_vector, Point3, Vec3, LIMIT, UNIT};

verus! {

/// A triangle with three vertices and a material.
#[derive(Clone, Copy, Debug, PartialEq, Eq, Structural)]
pub struct Triangle {
    pub v0: Point3,
    pub v1: Point3,
    pub v2: Point3,
    pub material: Material,
}

/// Exact triple of integers.
pub type Triple = (int, int, int);

pub open spec fn cross3(a: Triple, b: Triple) -> Triple {
    (a.1 * b.2 - a.2 * b.1, a.2 * b.0 - a.0 * b.2, a.0 * b.1 - a.1 * b.0)
}

pub open spec fn dot3(a: Triple, b: Triple) -> int {
    a.0 * b.0 + a.1 * b.1 + a.2 * b.2
}

/// `p - q`, exactly.
pub open spec fn diff(p: Vec3, q: Vec3) -> Triple {
    (p.x - q.x, p.y - q.y, p.z - q.z)
}

pub open spec fn wide(a: (i128, i128, i128)) -> Triple {
    (a.0 as int, a.1 as int, a.2 as int)
}

pub open spec fn bounded3(a: Triple, m: int) -> bool {
    -m <= a.0 <= m && -m <= a.1 <= m && -m <= a.2 <= m
}

/// Plane normal `cross(v1 - v0, v2 - v0)`, not normalised.
pub open spec fn plane_normal(tr: Triangle) -> Triple {
    cross3(diff(tr.v1, tr.v0), diff(tr.v2, tr.v0))
}

/// Numerator `(v0 - O) . n` of the ray-plane parameter.
pub open spec fn plane_num(tr: Triangle, r: Ray) -> int {
    dot3(diff(tr.v0, r.origin), plane_normal(tr))
}

/// Denominator `D . n` of the ray-plane parameter; zero when the ray is parallel.
pub open spec fn plane_den(tr: Triangle, r: Ray) -> int {
    dot3((r.direction.x as int, r.direction.y as int, r.direction.z as int), plane_normal(tr))
}

/// The ray-plane parameter `num / den` in fixed point, rounded down.
pub open spec fn plane_param(tr: Triangle, r: Ray) -> int {
    if plane_den(tr, r) > 0 {
        plane_num(tr, r) * UNIT / plane_den(tr, r)
    } else {
        (-plane_num(tr, r)) * UNIT / (-plane_den(tr, r))
    }
}

/// Signed test of `p` against the edge from `a` to `b`: positive when `p` lies
/// strictly on the inner side, seen along the normal `n`.
pub open spec fn edge_test(a: Vec3, b: Vec3, p: Vec3, n: Triple) -> int {
    dot3(cross3(diff(b, a), diff(p, a)), n)
}

/// `p` lies strictly inside all three edges of the triangle.
pub open spec fn inside(tr: Triangle, p: Vec3) -> bool {
    let n = plane_normal(tr);
    &&& edge_test(tr.v0, tr.v1, p, n) > 0
    &&& edge_test(tr.v1, tr.v2, p, n) > 0
    &&& edge_test(tr.v2, tr.v0, p, n) > 0
}

/// The hit of ray `r` on triangle `tr` with parameter in `[min, max]`. A ray
/// parallel to the plane misses; so does a plane point outside the coordinate
/// bound or not strictly inside the triangle.
pub open spec fn triangle_hit(tr: Triangle, r: Ray, min: int, max: int) -> Intersection {
    let t = plane_param(tr, r);
    let p = r.point_at(t);
    let n = plane_normal(tr);
    if plane_den(tr, r) == 0 || !(min <= t <= max) || !r.at_in_limit(t) || !inside(tr, p) {
        Intersection::NoHit
    } else {
        Intersection::Hit { point: p, normal: unit_of(n.0, n.1, n.2), t: t as i64, material: tr.material }
    }
}

/// Exact cross product of two wide triples.
fn cross_wide(a: (i128, i128, i128), b: (i128, i128, i128)) -> (r: (i128, i128, i128))
    requires
        bounded3(wide(a), 0x80_0000),
        bounded3(wide(b), 0x80_0000),
    ensures
        wide(r) == cross3(wide(a), wide(b)),
        bounded3(wide(r), 0x8000_0000_0000),
{
    proof {
        lemma_mul_bound(a.1 as int, b.2 as int, 0x80_0000);
        lemma_mul_bound(a.2 as int, b.1 as int, 0x80_0000);
        lemma_mul_bound(a.2 as int, b.0 as int, 0x80_0000);
        lemma_mul_bound(a.0 as int, b.2 as int, 0x80_0000);
        lemma_mul_bound(a.0 as int, b.1 as int, 0x80_0000);
        lemma_mul_bound(a.1 as int, b.0 as int, 0x80_0000);
    }
    (a.1 * b.2 - a.2 * b.1, a.2 * b.0 - a.0 * b.2, a.0 * b.1 - a.1 * b.0)
}

/// Exact dot product of two wide triples.
fn dot_wide(a: (i128, i128, i128), b: (i128, i128, i128)) -> (r: i128)
    requires
        bounded3(wide(a), 0x1_0000_0000_0000),
        bounded3(wide(b), 0x1_0000_0000_0000),
    ensures
        r == dot3(wide(a), wide(b)),
{
    proof {
        lemma_mul_bound(a.0 as int, b.0 as int, 0x1_0000_0000_0000);
        lemma_mul_bound(a.1 as int, b.1 as int, 0x1_0000_0000_0000);
        lemma_mul_bound(a.2 as int, b.2 as int, 0x1_0000_0000_0000);
    }
    a.0 * b.0 + a.1 * b.1 + a.2 * b.2
}

/// `p - q` as a wide triple.
fn diff_wide(p: Vec3, q: Vec3) -> (r: (i128, i128, i128))
    requires
        p.wf(),
        q.wf(),
    ensures
        wide(r) == diff(p, q),
        bounded3(wide(r), 0x80_0000),
{
    (p.x as i128 - q.x as i128, p.y as i128 - q.y as i128, p.z as i128 - q.z as i128)
}

impl Triangle {
    /// Vertices within the coordinate bound and a valid material.
    pub open spec fn wf(self) -> bool {
        self.v0.wf() && self.v1.wf() && self.v2.wf() && self.material.wf()
    }

    pub fn new(a: Point3, b: Point3, c: Point3, material: Material) -> (r: Self)
        ensures
            r == (Triangle { v0: a, v1: b, v2: c, material }),
    {
        Triangle { v0: a, v1: b, v2: c, material }
    }

    /// The hit of `r` with parameter in `[min, max]`, if the plane point lies
    /// strictly inside the triangle.
    pub fn intersects(&self, r: &Ray, min: i64, max: i64) -> (res: Intersection)
        requires
            self.wf(),
            r.wf(),
        ensures
            res == triangle_hit(*self, *r, min as int, max as int),
            res.wf(),
            res matches Intersection::Hit { t, .. } ==> min <= t <= max,
    {
        let n = cross_wide(diff_wide(self.v1, self.v0), diff_wide(self.v2, self.v0));
        let to_v0 = diff_wide(self.v0, r.origin);
        let d = (r.direction.x as i128, r.direction.y as i128, r.direction.z as i128);
        let num = dot_wide(to_v0, n);
        let den = dot_wide(d, n);
        proof {
            lemma_plane_bounds(wide(to_v0), wide(n), wide(d), num as int, den as int);
        }
        if den == 0 {
            return Intersection::NoHit;
        }
        let t = if den > 0 {
            div_floor(num * UNIT as i128, den)
        } else {
            div_floor(-num * UNIT as i128, -den)
        };
        if !(min as i128 <= t && t <= max as i128) {
            return Intersection::NoHit;
        }
        let t = t as i64;
        let p = match r.at_checked(t) {
            None => {
                return Intersection::NoHit;
            },
            Some(p) => p,
        };
        let e0 = dot_wide(cross_wide(diff_wide(self.v1, self.v0), diff_wide(p, self.v0)), n);
        let e1 = dot_wide(cross_wide(diff_wide(self.v2, self.v1), diff_wide(p, self.v1)), n);
        let e2 = dot_wide(cross_wide(diff_wide(self.v0, self.v2), diff_wide(p, self.v2)), n);
        if e0 > 0 && e1 > 0 && e2 > 0 {
            proof {
                assert(len2_of(n.0 as int, n.1 as int, n.2 as int) > 0) by (nonlinear_arith)
                    requires
                        den == d.0 * n.0 + d.1 * n.1 + d.2 * n.2,
                        den != 0,
                ;
            }
            let normal = unit_vector(n.0, n.1, n.2);
            Intersection::Hit { point: p, normal, t, material: self.material }
        } else {
            Intersection::NoHit
        }
    }
}

proof fn lemma_plane_bounds(o: Triple, n: Triple, d: Triple, num: int, den: int)
    requires
        bounded3(o, 0x80_0000),
        bounded3(n, 0x8000_0000_0000),
        bounded3(d, LIMIT as int),
        num == dot3(o, n),
        den == dot3(d, n),
    ensures
        -0x100_0000_0000_0000_0000 <= num <= 0x100_0000_0000_0000_0000,
        -0x100_0000_0000_0000_0000 <= den <= 0x100_0000_0000_0000_0000,
        den > 0 ==> -0x100_0000_0000_0000_0000_0000 <= num * UNIT / den
            <= 0x100_0000_0000_0000_0000_0000,
        den < 0 ==> -0x100_0000_0000_0000_0000_0000 <= (-num) * UNIT / (-den)
            <= 0x100_0000_0000_0000_0000_0000,
{
    let b = 0x100_0000_0000_0000_0000int;
    lemma_mul_bound2(o.0, n.0, 0x80_0000, 0x8000_0000_0000);
    lemma_mul_bound2(o.1, n.1, 0x80_0000, 0x8000_0000_0000);
    lemma_mul_bound2(o.2, n.2, 0x80_0000, 0x8000_0000_0000);
    lemma_mul_bound2(d.0, n.0, 0x80_0000, 0x8000_0000_0000);
    lemma_mul_bound2(d.1, n.1, 0x80_0000, 0x8000_0000_0000);
    lemma_mul_bound2(d.2, n.2, 0x80_0000, 0x8000_0000_0000);
    assert(-b <= num <= b);
    assert(-b <= den <= b);
    let bb = 0x100_0000_0000_0000_0000_0000int;
    if den > 0 {
        assert(-bb <= num * 1000 / den <= bb) by (nonlinear_arith)
            requires
                -b <= num <= b,
                den > 0,
                bb == b * 0x10000,
        ;
    } else if den < 0 {
        assert(-bb <= (-num) * 1000 / (-den) <= bb) by (nonlinear_arith)
            requires
                -b <= num <= b,
                den < 0,
                bb == b * 0x10000,
        ;
    }
}

/// A plane point that is not strictly inside all three edges is no hit.
pub proof fn lemma_outside_point_misses(tr: Triangle, r: Ray, min: int, max: int)
    requires
        !inside(tr, r.point_at(plane_param(tr, r))),
    ensures
        triangle_hit(tr, r, min, max) == Intersection::NoHit,
{
}

/// A ray that crosses the plane within `[min, max]` at a point strictly inside
/// the triangle hits it there, at the plane parameter.
pub proof fn lemma_inside_point_hits(tr: Triangle, r: Ray, min: i64, max: i64)
    requires
        plane_den(tr, r) != 0,
        min <= plane_param(tr, r) <= max,
        r.at_in_limit(plane_param(tr, r)),
        inside(tr, r.point_at(plane_param(tr, r))),
    ensures
        triangle_hit(tr, r, min as int, max as int) matches Intersection::Hit { t, point, .. } && t
            == plane_param(tr, r) && point == r.point_at(plane_param(tr, r)),
{
}

/// `q - k a`, exactly: a point given as `q / k` relative to `a`, scaled by `k`.
pub open spec fn diff_scaled(q: Triple, k: int, a: Vec3) -> Triple {
    (q.0 - k * a.x, q.1 - k * a.y, q.2 - k * a.z)
}

/// The edge test of the point `q / k`, scaled by `k`.
pub open spec fn edge_test_scaled(a: Vec3, b: Vec3, q: Triple, k: int, n: Triple) -> int {
    dot3(cross3(diff(b, a), diff_scaled(q, k, a)), n)
}

proof fn lemma_cross_shift(e1: Triple, e2: Triple)
    ensures
        cross3(e1, (e1.0 + e2.0, e1.1 + e2.1, e1.2 + e2.2)) == cross3(e1, e2),
        cross3(
            (e2.0 - e1.0, e2.1 - e1.1, e2.2 - e1.2),
            (e2.0 - 2 * e1.0, e2.1 - 2 * e1.1, e2.2 - 2 * e1.2),
        ) == cross3(e1, e2),
        cross3((-e2.0, -e2.1, -e2.2), (e1.0 - 2 * e2.0, e1.1 - 2 * e2.1, e1.2 - 2 * e2.2))
            == cross3(e1, e2),
{
    let (a0, a1, a2) = e1;
    let (b0, b1, b2) = e2;
    assert(a1 * (a2 + b2) - a2 * (a1 + b1) == a1 * b2 - a2 * b1) by (nonlinear_arith);
    assert(a2 * (a0 + b0) - a0 * (a2 + b2) == a2 * b0 - a0 * b2) by (nonlinear_arith);
    assert(a0 * (a1 + b1) - a1 * (a0 + b0) == a0 * b1 - a1 * b0) by (nonlinear_arith);
    assert((b1 - a1) * (b2 - 2 * a2) - (b2 - a2) * (b1 - 2 * a1) == a1 * b2 - a2 * b1)
        by (nonlinear_arith);
    assert((b2 - a2) * (b0 - 2 * a0) - (b0 - a0) * (b2 - 2 * a2) == a2 * b0 - a0 * b2)
        by (nonlinear_arith);
    assert((b0 - a0) * (b1 - 2 * a1) - (b1 - a1) * (b0 - 2 * a0) == a0 * b1 - a1 * b0)
        by (nonlinear_arith);
    assert((-b1) * (a2 - 2 * b2) - (-b2) * (a1 - 2 * b1) == a1 * b2 - a2 * b1)
        by (nonlinear_arith);
    assert((-b2) * (a0 - 2 * b0) - (-b0) * (a2 - 2 * b2) == a2 * b0 - a0 * b2)
        by (nonlinear_arith);
    assert((-b0) * (a1 - 2 * b1) - (-b1) * (a0 - 2 * b0) == a0 * b1 - a1 * b0)
        by (nonlinear_arith);
}

/// The centroid `(v0 + v1 + v2) / 3` of a non-degenerate triangle lies strictly
/// inside all three edges: each scaled edge test equals `|n|^2 > 0`.
pub proof fn lemma_centroid_inside(tr: Triangle)
    requires
        plane_normal(tr) != (0int, 0int, 0int),
    ensures
        ({
            let q = (
                tr.v0.x + tr.v1.x + tr.v2.x,
                tr.v0.y + tr.v1.y + tr.v2.y,
                tr.v0.z + tr.v1.z + tr.v2.z,
            );
            let n = plane_normal(tr);
            &&& edge_test_scaled(tr.v0, tr.v1, q, 3, n) > 0
            &&& edge_test_scaled(tr.v1, tr.v2, q, 3, n) > 0
            &&& edge_test_scaled(tr.v2, tr.v0, q, 3, n) > 0
        }),
{
    let e1 = diff(tr.v1, tr.v0);
    let e2 = diff(tr.v2, tr.v0);
    let n = plane_normal(tr);
    lemma_cross_shift(e1, e2);
    assert(dot3(n, n) > 0) by (nonlinear_arith)
        requires
            n != (0int, 0int, 0int),
            dot3(n, n) == n.0 * n.0 + n.1 * n.1 + n.2 * n.2,
    ;
}

proof fn lemma_edge_test_scaled(a: Vec3, b: Vec3, p: Vec3, n: Triple)
    ensures
        edge_test_scaled(a, b, (3 * p.x, 3 * p.y, 3 * p.z), 3, n) == 3 * edge_test(a, b, p, n),
{
    let e = diff(b, a);
    let d = diff(p, a);
    let q = diff_scaled((3 * p.x, 3 * p.y, 3 * p.z), 3, a);
    assert(q == (3 * d.0, 3 * d.1, 3 * d.2));
    let c = cross3(e, d);
    assert(cross3(e, q) == (3 * c.0, 3 * c.1, 3 * c.2)) by (nonlinear_arith)
        requires
            q == (3 * d.0, 3 * d.1, 3 * d.2),
            c == cross3(e, d),
    ;
    assert(dot3((3 * c.0, 3 * c.1, 3 * c.2), n) == 3 * dot3(c, n)) by (nonlinear_arith);
}

/// A ray that crosses the plane of a non-degenerate triangle within
/// `[min, max]` exactly at its centroid (`3 p == v0 + v1 + v2`) hits it there,
/// at the plane parameter.
pub proof fn lemma_centroid_hits(tr: Triangle, r: Ray, min: i64, max: i64)
    requires
        plane_den(tr, r) != 0,
        min <= plane_param(tr, r) <= max,
        r.at_in_limit(plane_param(tr, r)),
        ({
            let p = r.point_at(plane_param(tr, r));
            &&& 3 * p.x == tr.v0.x + tr.v1.x + tr.v2.x
            &&& 3 * p.y == tr.v0.y + tr.v1.y + tr.v2.y
            &&& 3 * p.z == tr.v0.z + tr.v1.z + tr.v2.z
        }),
    ensures
        triangle_hit(tr, r, min as int, max as int) matches Intersection::Hit { t, point, .. } && t
            == plane_param(tr, r) && point == r.point_at(plane_param(tr, r)),
{
    let p = r.point_at(plane_param(tr, r));
    let n = plane_normal(tr);
    assert(n != (0int, 0int, 0int)) by {
        if n == (0int, 0int, 0int) {
            assert(plane_den(tr, r) == 0) by (nonlinear_arith)
                requires
                    n == (0int, 0int, 0int),
                    plane_den(tr, r) == dot3(
                        (r.direction.x as int, r.direction.y as int, r.direction.z as int),
                        n,
                    ),
            ;
        }
    }
    lemma_centroid_inside(tr);
    lemma_edge_test_scaled(tr.v0, tr.v1, p, n);
    lemma_edge_test_scaled(tr.v1, tr.v2, p, n);
    lemma_edge_test_scaled(tr.v2, tr.v0, p, n);
    lemma_inside_point_hits(tr, r, min, max);
}

} // verus!
