use rand::Rng;
use vstd::prelude::*;
use crate::arith::{div_floor, floor_sqrt, is_floor_sqrt, isqrt, SQRT_ARG_MAX};

verus! {

/// Number of fixed-point steps in one unit of length or colour.
pub const UNIT: i64 = 1000;

/// Bound on every coordinate of a point or direction that geometry accepts.
pub const LIMIT: i64 = 4_194_304;

/// An integer lies within the coordinate bound.
pub open spec fn in_limit(v: int) -> bool {
    -LIMIT <= v <= LIMIT
}

/// A vector of three fixed-point components: a point, a direction or a colour.
#[derive(Clone, Copy, Debug, PartialEq, Eq, Structural)]
pub struct Vec3 {
    pub x: i64,
    pub y: i64,
    pub z: i64,
}

pub type Point3 = Vec3;

pub type Color = Vec3;

/// The vector with the given exact components (cast where they fit).
pub open spec fn vec3(x: int, y: int, z: int) -> Vec3 {
    Vec3 { x: x as i64, y: y as i64, z: z as i64 }
}

/// Exact dot product of the raw components, in `UNIT * UNIT` steps.
pub open spec fn dot_exact(u: Vec3, v: Vec3) -> int {
    u.x * v.x + u.y * v.y + u.z * v.z
}

/// Exact squared length of the raw components.
pub open spec fn len2(v: Vec3) -> int {
    dot_exact(v, v)
}

/// Squared length of an exact triple.
pub open spec fn len2_of(x: int, y: int, z: int) -> int {
    x * x + y * y + z * z
}

/// Direction of `(x, y, z)` scaled to length `UNIT`: each component times
/// `UNIT * UNIT` over the length in `1 / UNIT` steps, rounded down.
pub open spec fn unit_of(x: int, y: int, z: int) -> Vec3 {
    let m = floor_sqrt(len2_of(x, y, z) * (UNIT * UNIT));
    vec3((x * UNIT) * UNIT / m, (y * UNIT) * UNIT / m, (z * UNIT) * UNIT / m)
}

/// The fixed-point unit vector in the direction of `v`.
pub open spec fn normalized(v: Vec3) -> Vec3 {
    unit_of(v.x as int, v.y as int, v.z as int)
}

/// Every component lies within `[-UNIT, UNIT]`.
pub open spec fn unit_bounded(v: Vec3) -> bool {
    -UNIT <= v.x <= UNIT && -UNIT <= v.y <= UNIT && -UNIT <= v.z <= UNIT
}

/// Every component lies within `[0, UNIT]`: a colour of the displayable range.
pub open spec fn color_bounded(c: Vec3) -> bool {
    0 <= c.x <= UNIT && 0 <= c.y <= UNIT && 0 <= c.z <= UNIT
}

/// The zero vector.
pub open spec fn is_zero(v: Vec3) -> bool {
    v.x == 0 && v.y == 0 && v.z == 0
}

impl Vec3 {
    /// All three components are within the coordinate bound.
    pub open spec fn wf(self) -> bool {
        in_limit(self.x as int) && in_limit(self.y as int) && in_limit(self.z as int)
    }

    pub fn new(x: i64, y: i64, z: i64) -> (r: Self)
        ensures
            r.x == x && r.y == y && r.z == z,
    {
        Vec3 { x, y, z }
    }

    pub fn x(self) -> (r: i64)
        ensures
            r == self.x,
    {
        self.x
    }

    pub fn y(self) -> (r: i64)
        ensures
            r == self.y,
    {
        self.y
    }

    pub fn z(self) -> (r: i64)
        ensures
            r == self.z,
    {
        self.z
    }

    pub fn a(self) -> (r: i64)
        ensures
            r == self.x,
    {
        self.x
    }

    pub fn b(self) -> (r: i64)
        ensures
            r == self.y,
    {
        self.y
    }

    pub fn c(self) -> (r: i64)
        ensures
            r == self.z,
    {
        self.z
    }

    /// Euclidean length, rounded down.
    pub fn magnitude(&self) -> (r: i64)
        requires
            self.wf(),
        ensures
            r == floor_sqrt(len2(*self)),
            0 <= r,
    {
        let s = dot_exact_exec(*self, *self);
        proof {
            lemma_len2_bound(self.x as int, self.y as int, self.z as int, LIMIT as int);
            assert(3 * LIMIT * LIMIT <= SQRT_ARG_MAX);
        }
        let m = isqrt(s as u128);
        proof {
            lemma_sqrt_le(m as int, s as int, 3 * LIMIT * LIMIT);
        }
        m as i64
    }

    /// Same as `magnitude`.
    pub fn length(&self) -> (r: i64)
        requires
            self.wf(),
        ensures
            r == floor_sqrt(len2(*self)),
    {
        self.magnitude()
    }

    /// A vector whose components are drawn independently from `[min, max)`.
    pub fn random(min: i64, max: i64) -> (r: Self)
        requires
            min < max,
        ensures
            min <= r.x < max && min <= r.y < max && min <= r.z < max,
    {
        let x = random_in(min, max);
        let y = random_in(min, max);
        let z = random_in(min, max);
        Vec3 { x, y, z }
    }

    /// All components are below the smallest representable step, that is zero.
    pub fn near_zero(&self) -> (r: bool)
        ensures
            r == is_zero(*self),
    {
        self.x == 0 && self.y == 0 && self.z == 0
    }

    /// Component-wise sum.
    pub fn add(self, o: Self) -> (r: Self)
        requires
            self.wf(),
            o.wf(),
        ensures
            r == vec3(self.x + o.x, self.y + o.y, self.z + o.z),
    {
        Vec3 { x: self.x + o.x, y: self.y + o.y, z: self.z + o.z }
    }

    /// Component-wise negation.
    pub fn neg(self) -> (r: Self)
        requires
            self.wf(),
        ensures
            r == vec3(-self.x, -self.y, -self.z),
            r.wf(),
    {
        Vec3 { x: -self.x, y: -self.y, z: -self.z }
    }

    /// Component-wise difference.
    pub fn sub(self, o: Self) -> (r: Self)
        requires
            self.wf(),
            o.wf(),
        ensures
            r == vec3(self.x - o.x, self.y - o.y, self.z - o.z),
    {
        Vec3 { x: self.x - o.x, y: self.y - o.y, z: self.z - o.z }
    }

    /// Item-wise (Hadamard) product of two fixed-point vectors, rounded down.
    pub fn mul(self, o: Self) -> (r: Self)
        requires
            self.wf(),
            o.wf(),
        ensures
            r == vec3(self.x * o.x / (UNIT as int), self.y * o.y / (UNIT as int), self.z * o.z / (UNIT as int)),
    {
        proof {
            lemma_mul_bound(self.x as int, o.x as int, LIMIT as int);
            lemma_mul_bound(self.y as int, o.y as int, LIMIT as int);
            lemma_mul_bound(self.z as int, o.z as int, LIMIT as int);
        }
        let x = div_floor(self.x as i128 * o.x as i128, UNIT as i128);
        let y = div_floor(self.y as i128 * o.y as i128, UNIT as i128);
        let z = div_floor(self.z as i128 * o.z as i128, UNIT as i128);
        proof {
            lemma_div_shrinks(self.x * o.x, UNIT as int, LIMIT * LIMIT);
            lemma_div_shrinks(self.y * o.y, UNIT as int, LIMIT * LIMIT);
            lemma_div_shrinks(self.z * o.z, UNIT as int, LIMIT * LIMIT);
        }
        Vec3 { x: x as i64, y: y as i64, z: z as i64 }
    }

    /// Multiplication by a fixed-point scalar, rounded down.
    pub fn scale(self, k: i64) -> (r: Self)
        requires
            self.wf(),
            in_limit(k as int),
        ensures
            r == vec3(self.x * k / (UNIT as int), self.y * k / (UNIT as int), self.z * k / (UNIT as int)),
    {
        proof {
            lemma_mul_bound(self.x as int, k as int, LIMIT as int);
            lemma_mul_bound(self.y as int, k as int, LIMIT as int);
            lemma_mul_bound(self.z as int, k as int, LIMIT as int);
        }
        let x = div_floor(self.x as i128 * k as i128, UNIT as i128);
        let y = div_floor(self.y as i128 * k as i128, UNIT as i128);
        let z = div_floor(self.z as i128 * k as i128, UNIT as i128);
        proof {
            lemma_div_shrinks(self.x * k, UNIT as int, LIMIT * LIMIT);
            lemma_div_shrinks(self.y * k, UNIT as int, LIMIT * LIMIT);
            lemma_div_shrinks(self.z * k, UNIT as int, LIMIT * LIMIT);
        }
        Vec3 { x: x as i64, y: y as i64, z: z as i64 }
    }

    /// Division by a positive fixed-point scalar, rounded down.
    pub fn div(self, k: i64) -> (r: Self)
        requires
            self.wf(),
            0 < k <= LIMIT,
        ensures
            r == vec3(self.x * UNIT / (k as int), self.y * UNIT / (k as int), self.z * UNIT / (k as int)),
    {
        let x = div_floor(self.x as i128 * UNIT as i128, k as i128);
        let y = div_floor(self.y as i128 * UNIT as i128, k as i128);
        let z = div_floor(self.z as i128 * UNIT as i128, k as i128);
        proof {
            lemma_div_shrinks(self.x * UNIT, k as int, LIMIT * UNIT);
            lemma_div_shrinks(self.y * UNIT, k as int, LIMIT * UNIT);
            lemma_div_shrinks(self.z * UNIT, k as int, LIMIT * UNIT);
        }
        Vec3 { x: x as i64, y: y as i64, z: z as i64 }
    }
}

impl Default for Vec3 {
    fn default() -> (r: Self)
        ensures
            is_zero(r),
    {
        Vec3 { x: 0, y: 0, z: 0 }
    }
}

pub proof fn lemma_mul_bound(a: int, b: int, m: int)
    requires
        -m <= a <= m,
        -m <= b <= m,
    ensures
        -(m * m) <= a * b <= m * m,
{
    assert(-(m * m) <= a * b <= m * m) by (nonlinear_arith)
        requires
            -m <= a <= m,
            -m <= b <= m,
    ;
}

/// `|a| <= ma` and `|b| <= mb` bound `|a * b|` by `ma * mb`.
pub proof fn lemma_mul_bound2(a: int, b: int, ma: int, mb: int)
    requires
        -ma <= a <= ma,
        -mb <= b <= mb,
    ensures
        -(ma * mb) <= a * b <= ma * mb,
{
    assert(-(ma * mb) <= a * b <= ma * mb) by (nonlinear_arith)
        requires
            -ma <= a <= ma,
            -mb <= b <= mb,
    ;
}

proof fn lemma_div_shrinks(n: int, d: int, m: int)
    requires
        d > 0,
        -m <= n <= m,
    ensures
        -m <= n / d <= m,
{
    assert(-m <= n / d <= m) by (nonlinear_arith)
        requires
            d > 0,
            -m <= n <= m,
    ;
}

pub proof fn lemma_len2_bound(x: int, y: int, z: int, m: int)
    requires
        -m <= x <= m,
        -m <= y <= m,
        -m <= z <= m,
    ensures
        0 <= len2_of(x, y, z) <= 3 * m * m,
{
    lemma_mul_bound(x, x, m);
    lemma_mul_bound(y, y, m);
    lemma_mul_bound(z, z, m);
    assert(x * x >= 0 && y * y >= 0 && z * z >= 0) by (nonlinear_arith);
    assert(3 * m * m == m * m + m * m + m * m) by (nonlinear_arith);
}

proof fn lemma_sqrt_le(r: int, n: int, m: int)
    requires
        is_floor_sqrt(r, n),
        n <= m,
        m >= 0,
    ensures
        r <= m,
        r * r <= m,
{
    assert(r <= m) by (nonlinear_arith)
        requires
            0 <= r,
            r * r <= n,
            n <= m,
    ;
}

/// Exact dot product, in `UNIT * UNIT` steps.
pub fn dot_exact_exec(u: Vec3, v: Vec3) -> (r: i128)
    requires
        u.wf(),
        v.wf(),
    ensures
        r == dot_exact(u, v),
        -3 * LIMIT * LIMIT <= r <= 3 * LIMIT * LIMIT,
{
    proof {
        lemma_mul_bound(u.x as int, v.x as int, LIMIT as int);
        lemma_mul_bound(u.y as int, v.y as int, LIMIT as int);
        lemma_mul_bound(u.z as int, v.z as int, LIMIT as int);
    }
    u.x as i128 * v.x as i128 + u.y as i128 * v.y as i128 + u.z as i128 * v.z as i128
}

/// Dot product in fixed point, rounded down.
pub fn dot(u: Vec3, v: Vec3) -> (r: i64)
    requires
        u.wf(),
        v.wf(),
    ensures
        r == dot_exact(u, v) / (UNIT as int),
{
    let d = dot_exact_exec(u, v);
    let q = div_floor(d, UNIT as i128);
    proof {
        lemma_div_shrinks(d as int, UNIT as int, 3 * LIMIT * LIMIT);
    }
    q as i64
}

/// Cross product in fixed point, rounded down.
pub fn cross(u: Vec3, v: Vec3) -> (r: Vec3)
    requires
        u.wf(),
        v.wf(),
    ensures
        r == vec3(
            (u.y * v.z - u.z * v.y) / (UNIT as int),
            (u.z * v.x - u.x * v.z) / (UNIT as int),
            (u.x * v.y - u.y * v.x) / (UNIT as int),
        ),
{
    proof {
        lemma_mul_bound(u.y as int, v.z as int, LIMIT as int);
        lemma_mul_bound(u.z as int, v.y as int, LIMIT as int);
        lemma_mul_bound(u.z as int, v.x as int, LIMIT as int);
        lemma_mul_bound(u.x as int, v.z as int, LIMIT as int);
        lemma_mul_bound(u.x as int, v.y as int, LIMIT as int);
        lemma_mul_bound(u.y as int, v.x as int, LIMIT as int);
    }
    let cx = u.y as i128 * v.z as i128 - u.z as i128 * v.y as i128;
    let cy = u.z as i128 * v.x as i128 - u.x as i128 * v.z as i128;
    let cz = u.x as i128 * v.y as i128 - u.y as i128 * v.x as i128;
    let x = div_floor(cx, UNIT as i128);
    let y = div_floor(cy, UNIT as i128);
    let z = div_floor(cz, UNIT as i128);
    proof {
        lemma_div_shrinks(cx as int, UNIT as int, 2 * LIMIT * LIMIT);
        lemma_div_shrinks(cy as int, UNIT as int, 2 * LIMIT * LIMIT);
        lemma_div_shrinks(cz as int, UNIT as int, 2 * LIMIT * LIMIT);
    }
    Vec3 { x: x as i64, y: y as i64, z: z as i64 }
}

/// Relies on rand's `thread_rng` and `Rng::gen_range`: a value drawn from
/// `[lo, hi)`. `gen_range` panics only on an empty range; the thread-local
/// generator panics only where the system's random source fails, when it is
/// first opened or when the generator later reseeds from it.
#[verifier::external_body]
pub(crate) fn random_in(lo: i64, hi: i64) -> (r: i64)
    requires
        lo < hi,
    ensures
        lo <= r < hi,
{
    rand::thread_rng().gen_range(lo..hi)
}

/// Bound on the components that `unit_vector` accepts.
pub const WIDE_MAX: i128 = 0x1_0000_0000_0000;

proof fn lemma_abs_le_root(a: int, m: int, s: int)
    requires
        0 <= m,
        a * a <= s,
        s < (m + 1) * (m + 1),
    ensures
        -m <= a <= m,
{
    assert(-m <= a <= m) by (nonlinear_arith)
        requires
            0 <= m,
            a * a < (m + 1) * (m + 1),
    ;
}

proof fn lemma_ratio_bounded(a: int, m: int)
    requires
        0 < m,
        -m <= a <= m,
    ensures
        -UNIT <= a * UNIT / m <= UNIT,
{
    let q = a * UNIT / m;
    vstd::arithmetic::div_mod::lemma_fundamental_div_mod(a * UNIT, m);
    let r = (a * UNIT) % m;
    assert(-UNIT <= q <= UNIT) by (nonlinear_arith)
        requires
            0 < m,
            -m <= a <= m,
            a * UNIT == m * q + r,
            0 <= r < m,
            UNIT == 1000,
    ;
}

proof fn lemma_ratio_nonzero(a: int, m: int, s: int)
    requires
        0 < m,
        0 < a,
        m * m <= s,
        s <= 3 * a * a,
    ensures
        a * UNIT / m >= 1,
{
    assert(a * UNIT >= m) by (nonlinear_arith)
        requires
            0 < m,
            0 < a,
            m * m <= 3 * a * a,
            UNIT == 1000,
    ;
    vstd::arithmetic::div_mod::lemma_fundamental_div_mod(a * UNIT, m);
    let q = a * UNIT / m;
    let r = (a * UNIT) % m;
    assert(q >= 1) by (nonlinear_arith)
        requires
            0 < m,
            a * UNIT >= m,
            a * UNIT == m * q + r,
            0 <= r < m,
    ;
}

proof fn lemma_neg_ratio(a: int, m: int)
    requires
        0 < m,
        a < 0,
    ensures
        a * UNIT / m <= -1,
{
    assert(a * UNIT < 0) by (nonlinear_arith)
        requires
            a < 0,
            UNIT == 1000,
    ;
    vstd::arithmetic::div_mod::lemma_fundamental_div_mod(a * UNIT, m);
    let q = a * UNIT / m;
    let r = (a * UNIT) % m;
    assert(q <= -1) by (nonlinear_arith)
        requires
            0 < m,
            a * UNIT < 0,
            a * UNIT == m * q + r,
            0 <= r < m,
    ;
}

/// The unit vector of an exact triple, as `unit_of` describes it.
pub fn unit_vector(x: i128, y: i128, z: i128) -> (r: Vec3)
    requires
        -WIDE_MAX <= x <= WIDE_MAX,
        -WIDE_MAX <= y <= WIDE_MAX,
        -WIDE_MAX <= z <= WIDE_MAX,
        len2_of(x as int, y as int, z as int) > 0,
    ensures
        r == unit_of(x as int, y as int, z as int),
        unit_bounded(r),
        !is_zero(r),
{
    proof {
        lemma_len2_bound(x as int, y as int, z as int, WIDE_MAX as int);
        lemma_mul_bound(x as int, x as int, WIDE_MAX as int);
        lemma_mul_bound(y as int, y as int, WIDE_MAX as int);
        lemma_mul_bound(z as int, z as int, WIDE_MAX as int);
        assert(3 * WIDE_MAX * WIDE_MAX * 1_000_000 <= SQRT_ARG_MAX) by (nonlinear_arith)
            requires
                WIDE_MAX == 0x1_0000_0000_0000i128,
                SQRT_ARG_MAX == 0x4000_0000_0000_0000_0000_0000_0000_0000u128,
        ;
    }
    let l: i128 = x * x + y * y + z * z;
    assert(0 <= l * 1_000_000 <= 3 * WIDE_MAX * WIDE_MAX * 1_000_000) by (nonlinear_arith)
        requires
            0 <= l <= 3 * WIDE_MAX * WIDE_MAX,
    ;
    let s: i128 = l * (UNIT * UNIT) as i128;
    let m0 = isqrt(s as u128);
    proof {
        lemma_sqrt_le(m0 as int, s as int, 3 * WIDE_MAX * WIDE_MAX * 1_000_000);
    }
    let m = m0 as i128;
    let ax = x * UNIT as i128;
    let ay = y * UNIT as i128;
    let az = z * UNIT as i128;
    proof {
        assert(m > 0) by (nonlinear_arith)
            requires
                s >= 1,
                s < (m + 1) * (m + 1),
                m >= 0,
        ;
        assert(ax * ax <= s && ay * ay <= s && az * az <= s) by (nonlinear_arith)
            requires
                s == (x * x + y * y + z * z) * 1_000_000,
                ax == x * 1000,
                ay == y * 1000,
                az == z * 1000,
        ;
        lemma_abs_le_root(ax as int, m as int, s as int);
        lemma_abs_le_root(ay as int, m as int, s as int);
        lemma_abs_le_root(az as int, m as int, s as int);
        lemma_ratio_bounded(ax as int, m as int);
        lemma_ratio_bounded(ay as int, m as int);
        lemma_ratio_bounded(az as int, m as int);
        if x < 0 {
            lemma_neg_ratio(ax as int, m as int);
        } else if y < 0 {
            lemma_neg_ratio(ay as int, m as int);
        } else if z < 0 {
            lemma_neg_ratio(az as int, m as int);
        } else if x >= y && x >= z {
            assert(s <= 3 * ax * ax && ax > 0) by (nonlinear_arith)
                requires
                    0 <= y <= x,
                    0 <= z <= x,
                    s == (x * x + y * y + z * z) * 1_000_000,
                    s > 0,
                    ax == x * 1000,
            ;
            lemma_ratio_nonzero(ax as int, m as int, s as int);
        } else if y >= z {
            assert(s <= 3 * ay * ay && ay > 0) by (nonlinear_arith)
                requires
                    0 <= x <= y,
                    0 <= z <= y,
                    s == (x * x + y * y + z * z) * 1_000_000,
                    s > 0,
                    ay == y * 1000,
            ;
            lemma_ratio_nonzero(ay as int, m as int, s as int);
        } else {
            assert(s <= 3 * az * az && az > 0) by (nonlinear_arith)
                requires
                    0 <= x <= z,
                    0 <= y <= z,
                    s == (x * x + y * y + z * z) * 1_000_000,
                    s > 0,
                    az == z * 1000,
            ;
            lemma_ratio_nonzero(az as int, m as int, s as int);
        }
    }
    let ux = div_floor(ax * UNIT as i128, m);
    let uy = div_floor(ay * UNIT as i128, m);
    let uz = div_floor(az * UNIT as i128, m);
    Vec3 { x: ux as i64, y: uy as i64, z: uz as i64 }
}

/// The unit vector in the direction of a non-zero `u`.
pub fn normalize(u: Vec3) -> (r: Vec3)
    requires
        u.wf(),
        !is_zero(u),
    ensures
        r == normalized(u),
        unit_bounded(r),
        !is_zero(r),
{
    proof {
        assert(len2(u) > 0) by (nonlinear_arith)
            requires
                !is_zero(u),
                len2(u) == u.x * u.x + u.y * u.y + u.z * u.z,
        ;
    }
    unit_vector(u.x as i128, u.y as i128, u.z as i128)
}

/// A candidate of rejection sampling: a non-zero point of the cube
/// `[-UNIT, UNIT)^3` that lies strictly inside the unit ball.
pub open spec fn ball_sample(p: Vec3) -> bool {
    &&& -UNIT <= p.x < UNIT
    &&& -UNIT <= p.y < UNIT
    &&& -UNIT <= p.z < UNIT
    &&& 0 < len2(p) < UNIT * UNIT
}

/// Number of candidates drawn before `random_unit_sphere_vector` gives up.
pub const SAMPLE_TRIES: u32 = 1000;

/// What a call of `random_unit_sphere_vector` can return: nothing, or a
/// non-zero unit vector normalised from some accepted candidate.
pub open spec fn unit_sample_outcome(u: Option<Vec3>) -> bool {
    u matches Some(v) ==> unit_bounded(v) && !is_zero(v) && exists|p: Vec3|
        #![trigger normalized(p)]
        ball_sample(p) && v == normalized(p)
}

/// The rejection test on one candidate of the cube: the normalised candidate
/// if it is non-zero and lies strictly inside the unit ball, else `None`.
pub fn accept_candidate(p: Vec3) -> (r: Option<Vec3>)
    requires
        -UNIT <= p.x < UNIT,
        -UNIT <= p.y < UNIT,
        -UNIT <= p.z < UNIT,
    ensures
        r == (if ball_sample(p) {
            Some(normalized(p))
        } else {
            None::<Vec3>
        }),
        r matches Some(v) ==> unit_bounded(v) && !is_zero(v),
{
    let l = dot_exact_exec(p, p);
    if 0 < l && l < (UNIT * UNIT) as i128 {
        proof {
            if is_zero(p) {
                assert(len2(p) == 0) by (nonlinear_arith)
                    requires
                        p.x == 0 && p.y == 0 && p.z == 0,
                        len2(p) == p.x * p.x + p.y * p.y + p.z * p.z,
                ;
            }
        }
        Some(normalize(p))
    } else {
        None
    }
}

/// A random unit vector: candidates are drawn uniformly from the cube
/// `[-UNIT, UNIT)^3` until `accept_candidate` accepts one, and its result is
/// returned. `None` only when every one of `SAMPLE_TRIES` candidates was
/// rejected.
pub fn random_unit_sphere_vector() -> (r: Option<Vec3>)
    ensures
        unit_sample_outcome(r),
{
    let mut tries: u32 = 0;
    while tries < SAMPLE_TRIES
        invariant
            tries <= SAMPLE_TRIES,
        decreases SAMPLE_TRIES - tries,
    {
        let p = Vec3::random(-UNIT, UNIT);
        match accept_candidate(p) {
            Some(v) => {
                assert(ball_sample(p) && v == normalized(p));
                return Some(v);
            },
            None => {},
        }
        tries = tries + 1;
    }
    None
}

} // verus!
