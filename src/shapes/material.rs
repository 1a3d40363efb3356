use vstd::prelude::*;
use crate::ray::Ray;
use crate::shapes::Intersection;
use crate::vec3::{
    color_bounded, is_zero, random_unit_sphere_vector, unit_bounded, unit_sample_outcome, vec3,
    Color, Point3, Vec3,
};

verus! {

/// What a material does with a ray that hit it.
pub enum Scatter {
    /// The light is absorbed: no ray leaves.
    Absorbed,
    /// A ray leaves the surface, and its light is multiplied by `attenuation`.
    Scattered { ray: Ray, attenuation: Color },
}

/// A diffuse material of the given colour.
#[derive(Clone, Copy, Debug, PartialEq, Eq, Structural)]
pub struct Lambertian {
    pub albedo: Color,
}

/// The surface materials, dispatched by variant.
#[derive(Clone, Copy, Debug, PartialEq, Eq, Structural)]
pub enum Material {
    Lambertian(Lambertian),
}

/// The diffuse bounce direction off a surface with unit normal `normal`, given
/// the random unit vector `u` drawn for it: `normal + u`, or the normal alone
/// where that sum vanishes or no vector was drawn.
pub open spec fn bounce_direction(normal: Vec3, u: Option<Vec3>) -> Vec3 {
    match u {
        Some(v) => {
            let d = vec3(normal.x + v.x, normal.y + v.y, normal.z + v.z);
            if is_zero(d) {
                normal
            } else {
                d
            }
        },
        None => normal,
    }
}

/// A possible diffuse bounce direction: the bounce direction for some outcome
/// of `random_unit_sphere_vector`.
pub open spec fn diffuse_direction(normal: Vec3, d: Vec3) -> bool {
    exists|u: Option<Vec3>|
        #![trigger bounce_direction(normal, u)]
        unit_sample_outcome(u) && d == bounce_direction(normal, u)
}

/// The diffuse scatter at `point` with unit normal `normal` and albedo
/// `albedo`, for the drawn random unit vector `u`.
pub fn scatter_with(point: Point3, normal: Vec3, albedo: Color, u: Option<Vec3>) -> (r: Scatter)
    requires
        point.wf(),
        unit_bounded(normal),
        !is_zero(normal),
        u matches Some(v) ==> unit_bounded(v),
    ensures
        r == (Scatter::Scattered {
            ray: Ray { origin: point, direction: bounce_direction(normal, u) },
            attenuation: albedo,
        }),
        r matches Scatter::Scattered { ray, .. } ==> ray.wf() && !is_zero(ray.direction),
{
    let mut direction = normal;
    match u {
        Some(v) => {
            let d = normal.add(v);
            if !d.near_zero() {
                direction = d;
            }
        },
        None => {},
    }
    Scatter::Scattered { ray: Ray::new(point, direction), attenuation: albedo }
}

impl Lambertian {
    pub fn new(albedo: Color) -> (r: Self)
        ensures
            r.albedo == albedo,
    {
        Lambertian { albedo }
    }

    /// The material of a diffuse surface with this albedo.
    pub fn boxed(albedo: Color) -> (r: Material)
        ensures
            r == Material::Lambertian(Lambertian { albedo }),
    {
        Material::Lambertian(Lambertian { albedo })
    }
}

impl Material {
    /// The albedo is a displayable colour.
    pub open spec fn wf(self) -> bool {
        match self {
            Material::Lambertian(l) => color_bounded(l.albedo),
        }
    }

    /// The colour a bounce off this material multiplies the incoming light by.
    pub open spec fn albedo(self) -> Color {
        match self {
            Material::Lambertian(l) => l.albedo,
        }
    }

    /// Scatters a ray that hit a surface of this material. A diffuse surface
    /// sends a ray from the hit point in a random direction around the normal;
    /// a miss passed in is absorbed.
    pub fn scatter(&self, ray_in: &Ray, intersection: &Intersection) -> (r: Scatter)
        requires
            intersection.wf(),
        ensures
            match *intersection {
                Intersection::NoHit => r is Absorbed,
                Intersection::Hit { point, normal, .. } => match r {
                    Scatter::Scattered { ray, attenuation } => {
                        &&& ray.origin == point
                        &&& diffuse_direction(normal, ray.direction)
                        &&& attenuation == self.albedo()
                    },
                    Scatter::Absorbed => false,
                },
            },
            r matches Scatter::Scattered { ray, .. } ==> ray.wf() && !is_zero(ray.direction),
    {
        match self {
            Material::Lambertian(l) => match intersection {
                Intersection::NoHit => Scatter::Absorbed,
                Intersection::Hit { point, normal, .. } => {
                    let u = random_unit_sphere_vector();
                    let r = scatter_with(*point, *normal, l.albedo, u);
                    assert(unit_sample_outcome(u));
                    r
                },
            },
        }
    }
}

} // verus!
