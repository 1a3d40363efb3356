use vstd::prelude::*;
use crate::arith::div_floor;
use crate::ray::Ray;
use crate::vec3::{is_zero, vec3, Point3, Vec3, UNIT};

verus! {

/// Bound on the coordinates and lengths that a camera is built from.
pub const CAMERA_MAX: i64 = 524_288;

/// Largest image-plane coordinate that `get_ray` accepts (twice the plane's extent).
pub const PLANE_MAX: i64 = 2000;

/// Within `[-CAMERA_MAX, CAMERA_MAX]`.
pub open spec fn in_camera_range(v: int) -> bool {
    -CAMERA_MAX <= v <= CAMERA_MAX
}

/// A pinhole camera: the viewport geometry derived once at construction.
pub struct Camera {
    pub origin: Point3,
    pub viewport_height: i64,
    pub viewport_width: i64,
    pub focal_length: i64,
    pub horizontal: Vec3,
    pub vertical: Vec3,
    pub lower_left_corner: Point3,
}

/// Width of a viewport of height `vh` for an aspect ratio `aspect_w : aspect_h`.
pub open spec fn viewport_width_of(aspect_w: int, aspect_h: int, vh: int) -> int {
    vh * aspect_w / aspect_h
}

impl Camera {
    /// The derived fields agree with origin, viewport size and focal length.
    pub open spec fn wf(self) -> bool {
        &&& in_camera_range(self.origin.x as int)
        &&& in_camera_range(self.origin.y as int)
        &&& in_camera_range(self.origin.z as int)
        &&& 0 < self.viewport_height <= CAMERA_MAX
        &&& 0 <= self.viewport_width <= CAMERA_MAX
        &&& 0 < self.focal_length <= CAMERA_MAX
        &&& self.horizontal == vec3(self.viewport_width as int, 0, 0)
        &&& self.vertical == vec3(0, self.viewport_height as int, 0)
        &&& self.lower_left_corner == vec3(
            self.origin.x - self.viewport_width / 2,
            self.origin.y - self.viewport_height / 2,
            self.origin.z - self.focal_length,
        )
    }

    /// The direction of the ray through image-plane point `(u, v)`:
    /// `lower_left_corner + u * horizontal + v * vertical - origin`.
    pub open spec fn direction_at(self, u: int, v: int) -> Vec3 {
        vec3(
            self.lower_left_corner.x + u * self.horizontal.x / (UNIT as int) + v
                * self.vertical.x / (UNIT as int) - self.origin.x,
            self.lower_left_corner.y + u * self.horizontal.y / (UNIT as int) + v
                * self.vertical.y / (UNIT as int) - self.origin.y,
            self.lower_left_corner.z + u * self.horizontal.z / (UNIT as int) + v
                * self.vertical.z / (UNIT as int) - self.origin.z,
        )
    }

    /// A camera at `origin` looking down the negative z axis, with a viewport of
    /// height `vh` and aspect ratio `aspect_w : aspect_h`, at distance `focal_length`.
    pub fn new(origin: Point3, aspect_w: u16, aspect_h: u16, vh: i64, focal_length: i64) -> (r: Self)
        requires
            in_camera_range(origin.x as int),
            in_camera_range(origin.y as int),
            in_camera_range(origin.z as int),
            aspect_h > 0,
            0 < vh <= CAMERA_MAX,
            0 < focal_length <= CAMERA_MAX,
            viewport_width_of(aspect_w as int, aspect_h as int, vh as int) <= CAMERA_MAX,
        ensures
            r.wf(),
            r.origin == origin,
            r.viewport_height == vh,
            r.viewport_width == viewport_width_of(aspect_w as int, aspect_h as int, vh as int),
            r.focal_length == focal_length,
    {
        assert(0 <= vh * aspect_w <= CAMERA_MAX * 0x10000) by (nonlinear_arith)
            requires
                0 < vh <= CAMERA_MAX,
                0 <= aspect_w < 0x10000,
        ;
        let vw_wide = div_floor(vh as i128 * aspect_w as i128, aspect_h as i128);
        assert(vw_wide >= 0) by (nonlinear_arith)
            requires
                vw_wide == vh * aspect_w / (aspect_h as int),
                vh > 0,
                aspect_h > 0,
                aspect_w >= 0,
        ;
        let vw = vw_wide as i64;
        let horizontal = Vec3::new(vw, 0, 0);
        let vertical = Vec3::new(0, vh, 0);
        let lower_left_corner = Vec3::new(
            origin.x - vw / 2,
            origin.y - vh / 2,
            origin.z - focal_length,
        );
        Camera {
            origin,
            viewport_height: vh,
            viewport_width: vw,
            focal_length,
            horizontal,
            vertical,
            lower_left_corner,
        }
    }

    /// The ray from the eye through image-plane point `(u, v)`, where `UNIT`
    /// stands for the full width or height; the direction is not normalised.
    pub fn get_ray(&self, u: i64, v: i64) -> (r: Ray)
        requires
            self.wf(),
            0 <= u <= PLANE_MAX,
            0 <= v <= PLANE_MAX,
        ensures
            r.origin == self.origin,
            r.direction == self.direction_at(u as int, v as int),
            r.wf(),
            !is_zero(r.direction),
    {
        proof {
            lemma_plane_offset(u as int, self.viewport_width as int);
            lemma_plane_offset(v as int, self.viewport_height as int);
        }
        let h = self.horizontal.scale(u);
        let w = self.vertical.scale(v);
        assert(h.y == 0 && h.z == 0 && w.x == 0 && w.z == 0);
        let d = self.lower_left_corner.add(h).add(w).sub(self.origin);
        Ray::new(self.origin, d)
    }
}

proof fn lemma_plane_offset(u: int, a: int)
    requires
        0 <= u <= PLANE_MAX,
        0 <= a <= CAMERA_MAX,
    ensures
        0 <= a * u / (UNIT as int) <= 2 * CAMERA_MAX,
        0 * u / (UNIT as int) == 0,
{
    assert(0 <= a * u / 1000 <= 2 * CAMERA_MAX) by (nonlinear_arith)
        requires
            0 <= u <= 2000,
            0 <= a <= CAMERA_MAX,
    ;
}

} // verus!
