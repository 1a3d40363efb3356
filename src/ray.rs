use vstd::prelude::*;
use crate::arith::div_floor;
use crate::vec3::{in_limit, vec3, Point3, Vec3, LIMIT, UNIT};

verus! {

/// A half-line: an origin and a direction, which need not have unit length.
#[derive(Clone, Copy, Debug, PartialEq, Eq, Structural)]
pub struct Ray {
    pub origin: Point3,
    pub direction: Vec3,
}

pub type Line = Ray;

impl Ray {
    /// Origin and direction are within the coordinate bound.
    pub open spec fn wf(self) -> bool {
        self.origin.wf() && self.direction.wf()
    }

    /// The exact components of `origin + t * direction`, each product rounded down.
    pub open spec fn at_x(self, t: int) -> int {
        self.origin.x + t * self.direction.x / (UNIT as int)
    }

    pub open spec fn at_y(self, t: int) -> int {
        self.origin.y + t * self.direction.y / (UNIT as int)
    }

    pub open spec fn at_z(self, t: int) -> int {
        self.origin.z + t * self.direction.z / (UNIT as int)
    }

    /// The point at parameter `t` lies within the coordinate bound.
    pub open spec fn at_in_limit(self, t: int) -> bool {
        in_limit(self.at_x(t)) && in_limit(self.at_y(t)) && in_limit(self.at_z(t))
    }

    /// The point at parameter `t`.
    pub open spec fn point_at(self, t: int) -> Point3 {
        vec3(self.at_x(t), self.at_y(t), self.at_z(t))
    }

    pub fn new(o: Point3, d: Vec3) -> (r: Self)
        ensures
            r.origin == o,
            r.direction == d,
    {
        Ray { origin: o, direction: d }
    }

    /// The point at parameter `t`.
    pub fn at(&self, t: i64) -> (r: Point3)
        requires
            self.wf(),
            self.at_in_limit(t as int),
        ensures
            r == self.point_at(t as int),
            r.wf(),
    {
        match self.at_checked(t) {
            Some(p) => p,
            None => self.origin,
        }
    }

    /// The point at parameter `t`, or `None` where it leaves the coordinate bound.
    pub fn at_checked(&self, t: i64) -> (r: Option<Point3>)
        requires
            self.wf(),
        ensures
            r == (if self.at_in_limit(t as int) {
                Some(self.point_at(t as int))
            } else {
                None
            }),
            r matches Some(p) ==> p.wf(),
    {
        let x = self.origin.x as i128 + scaled(t, self.direction.x);
        let y = self.origin.y as i128 + scaled(t, self.direction.y);
        let z = self.origin.z as i128 + scaled(t, self.direction.z);
        let lim = LIMIT as i128;
        if -lim <= x && x <= lim && -lim <= y && y <= lim && -lim <= z && z <= lim {
            Some(Vec3 { x: x as i64, y: y as i64, z: z as i64 })
        } else {
            None
        }
    }
}

/// `t * d / UNIT`, rounded down.
fn scaled(t: i64, d: i64) -> (r: i128)
    requires
        in_limit(d as int),
    ensures
        r == t * d / (UNIT as int),
        -0x100_0000_0000_0000_0000_0000 <= r <= 0x100_0000_0000_0000_0000_0000,
{
    assert(-0x100_0000_0000_0000_0000_0000 <= t * d <= 0x100_0000_0000_0000_0000_0000)
        by (nonlinear_arith)
        requires
            -0x8000_0000_0000_0000 <= t < 0x8000_0000_0000_0000,
            -LIMIT <= d <= LIMIT,
            LIMIT == 4_194_304,
    ;
    let q = div_floor(t as i128 * d as i128, UNIT as i128);
    assert(-0x100_0000_0000_0000_0000_0000 <= q <= 0x100_0000_0000_0000_0000_0000)
        by (nonlinear_arith)
        requires
            q == (t * d) / 1000,
            -0x100_0000_0000_0000_0000_0000 <= t * d <= 0x100_0000_0000_0000_0000_0000,
    ;
    q
}

} // verus!
