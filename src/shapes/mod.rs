use vstd::prelude::*;
use crate::ray::Ray;
use crate::shapes::material::Material;
use crate::shapes::sphere::{sphere_hit, Sphere};
use crate::shapes::triangle::{triangle_hit, Triangle};
use crate::vec3::{is_zero, unit_bounded, Point3, Vec3};

pub mod material;
pub mod sphere;
pub mod triangle;

verus! {

/// Where and how a ray meets a surface, or that it misses.
#[derive(Clone, Copy, Debug, PartialEq, Eq, Structural)]
pub enum Intersection {
    /// The ray meets the surface at `point`, at ray parameter `t`; `normal` is
    /// the surface's unit normal there.
    Hit { point: Point3, normal: Vec3, t: i64, material: Material },
    /// No intersection in the accepted parameter range.
    NoHit,
}

impl Intersection {
    /// A hit lies within the coordinate bound and has a non-zero unit normal.
    pub open spec fn wf(self) -> bool {
        match self {
            Intersection::Hit { point, normal, material, .. } => {
                &&& point.wf()
                &&& unit_bounded(normal)
                &&& !is_zero(normal)
                &&& material.wf()
            },
            Intersection::NoHit => true,
        }
    }
}

/// The primitives a scene is made of, dispatched by variant.
#[derive(Clone, Copy, Debug, PartialEq, Eq, Structural)]
pub enum Shape {
    Sphere(Sphere),
    Triangle(Triangle),
}

impl Shape {
    pub open spec fn wf(self) -> bool {
        match self {
            Shape::Sphere(s) => s.wf(),
            Shape::Triangle(t) => t.wf(),
        }
    }

    /// The hit of `r` on this primitive with parameter in `[min, max]`.
    pub open spec fn hit(self, r: Ray, min: int, max: int) -> Intersection {
        match self {
            Shape::Sphere(s) => sphere_hit(s, r, min, max),
            Shape::Triangle(t) => triangle_hit(t, r, min, max),
        }
    }

    pub fn intersects(&self, r: &Ray, min: i64, max: i64) -> (res: Intersection)
        requires
            self.wf(),
            r.wf(),
        ensures
            res == self.hit(*r, min as int, max as int),
            res.wf(),
            res matches Intersection::Hit { t, .. } ==> min <= t <= max,
    {
        match self {
            Shape::Sphere(s) => s.intersects(r, min, max),
            Shape::Triangle(t) => t.intersects(r, min, max),
        }
    }
}

impl Sphere {
    /// The sphere as a scene primitive.
    pub fn boxed(origin: Point3, radius: i64, material: Material) -> (r: Shape)
        ensures
            r == Shape::Sphere(Sphere { origin, radius, material }),
    {
        Shape::Sphere(Sphere::new(origin, radius, material))
    }
}

impl Triangle {
    /// The triangle as a scene primitive.
    pub fn boxed(a: Point3, b: Point3, c: Point3, material: Material) -> (r: Shape)
        ensures
            r == Shape::Triangle(Triangle { v0: a, v1: b, v2: c, material }),
    {
        Shape::Triangle(Triangle::new(a, b, c, material))
    }
}

/// Keeps the closer of the best hit so far and a new record; on equal `t`
/// the earlier one stays.
pub open spec fn closer(best: Intersection, rec: Intersection) -> Intersection {
    match rec {
        Intersection::Hit { t: rt, .. } => match best {
            Intersection::Hit { t: bt, .. } => if bt > rt {
                rec
            } else {
                best
            },
            Intersection::NoHit => rec,
        },
        Intersection::NoHit => best,
    }
}

/// The closest hit of `r` over `shapes`, in order, with parameter in `[min, max]`.
pub open spec fn scene_hit(shapes: Seq<Shape>, r: Ray, min: int, max: int) -> Intersection
    decreases shapes.len(),
{
    if shapes.len() == 0 {
        Intersection::NoHit
    } else {
        closer(scene_hit(shapes.drop_last(), r, min, max), shapes.last().hit(r, min, max))
    }
}

/// The parameter of a hit.
pub open spec fn hit_t(i: Intersection) -> int {
    match i {
        Intersection::Hit { t, .. } => t as int,
        Intersection::NoHit => 0,
    }
}

/// The ordered collection of primitives that make up a scene.
pub struct ShapeVec {
    e: Vec<Shape>,
}

impl View for ShapeVec {
    type V = Seq<Shape>;

    closed spec fn view(&self) -> Seq<Shape> {
        self.e@
    }
}

impl ShapeVec {
    /// Every primitive is well formed.
    pub open spec fn wf(&self) -> bool {
        forall|i: int| 0 <= i < self@.len() ==> (#[trigger] self@[i]).wf()
    }

    /// An empty scene.
    pub fn new() -> (r: Self)
        ensures
            r@ == Seq::<Shape>::empty(),
    {
        ShapeVec { e: Vec::new() }
    }

    /// Appends a primitive.
    pub fn push(&mut self, shape: Shape)
        ensures
            final(self)@ == old(self)@.push(shape),
    {
        self.e.push(shape);
    }

    /// Number of primitives.
    pub fn len(&self) -> (r: usize)
        ensures
            r == self@.len(),
    {
        self.e.len()
    }

    /// The closest hit of `r` over all primitives with parameter in
    /// `[min, max]`; where two primitives hit at the same `t`, the one pushed
    /// first is kept.
    pub fn intersects(&self, r: &Ray, min: i64, max: i64) -> (res: Intersection)
        requires
            self.wf(),
            r.wf(),
        ensures
            res == scene_hit(self@, *r, min as int, max as int),
            res.wf(),
            res matches Intersection::Hit { t, .. } ==> min <= t <= max,
    {
        let mut closest = Intersection::NoHit;
        let mut i: usize = 0;
        while i < self.e.len()
            invariant
                i <= self@.len(),
                self.wf(),
                r.wf(),
                closest == scene_hit(self@.subrange(0, i as int), *r, min as int, max as int),
                closest.wf(),
                closest matches Intersection::Hit { t, .. } ==> min <= t <= max,
            decreases self@.len() - i,
        {
            let record = self.e[i].intersects(r, min, max);
            assert(self@.subrange(0, i as int + 1).drop_last() =~= self@.subrange(0, i as int));
            match record {
                Intersection::Hit { t: record_t, .. } => match closest {
                    Intersection::Hit { t: closest_t, .. } => {
                        if closest_t > record_t {
                            closest = record;
                        }
                    },
                    Intersection::NoHit => {
                        closest = record;
                    },
                },
                Intersection::NoHit => {},
            }
            i = i + 1;
        }
        assert(self@.subrange(0, i as int) =~= self@);
        closest
    }
}

/// The closest hit over a sequence of primitives is a hit of one of them, and
/// no primitive hits at a smaller parameter; it is a miss exactly when every
/// primitive misses.
pub proof fn lemma_scene_hit_is_closest(shapes: Seq<Shape>, r: Ray, min: int, max: int)
    ensures
        scene_hit(shapes, r, min, max) is NoHit <==> forall|i: int|
            0 <= i < shapes.len() ==> (#[trigger] shapes[i].hit(r, min, max)) is NoHit,
        scene_hit(shapes, r, min, max) is Hit ==> exists|i: int|
            0 <= i < shapes.len() && #[trigger] shapes[i].hit(r, min, max) == scene_hit(
                shapes,
                r,
                min,
                max,
            ),
        scene_hit(shapes, r, min, max) is Hit ==> forall|i: int|
            0 <= i < shapes.len() && (#[trigger] shapes[i].hit(r, min, max)) is Hit ==> hit_t(
                scene_hit(shapes, r, min, max),
            ) <= hit_t(shapes[i].hit(r, min, max)),
    decreases shapes.len(),
{
    if shapes.len() > 0 {
        let prefix = shapes.drop_last();
        lemma_scene_hit_is_closest(prefix, r, min, max);
        let last = shapes.len() - 1;
        assert(forall|i: int| 0 <= i < prefix.len() ==> prefix[i] == shapes[i]);
        let res = scene_hit(shapes, r, min, max);
        if res is Hit {
            if res == shapes[last].hit(r, min, max) {
            } else {
                let j = choose|j: int|
                    0 <= j < prefix.len() && #[trigger] prefix[j].hit(r, min, max) == scene_hit(
                        prefix,
                        r,
                        min,
                        max,
                    );
                assert(shapes[j].hit(r, min, max) == res);
            }
        }
    }
}

} // verus!
