use vstd::prelude::*;
use crate::arith::{div_floor, floor_sqrt, isqrt, lemma_floor_sqrt_unique};
use crate::camera::{Camera, PLANE_MAX};
use crate::image::{lemma_index_in_range, pixel_index, Image};
use crate::ray::Ray;
use crate::shapes::material::{diffuse_direction, Scatter};
use crate::shapes::{scene_hit, Intersection, Shape, ShapeVec};
use crate::vec3::{
    color_bounded, is_zero, normalize, normalized, random_in, vec3, Color, Vec3, UNIT,
};

verus! {

/// Lower bound of accepted hit parameters: rays leaving a surface ignore hits
/// closer than this, which would come from rounding at their own origin.
pub const T_EPSILON: i64 = 1;

/// Upper bound of accepted hit parameters, standing for infinity.
pub const T_INFINITY: i64 = i64::MAX;

/// Red component of the sky colour at the top of the background gradient.
pub const SKY_R: i64 = 500;

/// Green component of the sky colour.
pub const SKY_G: i64 = 700;

/// Blue component of the sky colour.
pub const SKY_B: i64 = 1000;

/// Position in the background gradient of a ray with direction `d`: the
/// vertical component of its unit direction, mapped from `[-UNIT, UNIT]` to
/// `[0, UNIT]`.
pub open spec fn gradient_param(d: Vec3) -> int {
    (normalized(d).y + UNIT) / 2
}

/// `(1 - t) a + t b`, each product rounded down.
pub open spec fn lerp(a: int, b: int, t: int) -> int {
    a * (UNIT - t) / (UNIT as int) + b * t / (UNIT as int)
}

/// The background seen along direction `d`: white blended towards sky blue.
pub open spec fn background(d: Vec3) -> Color {
    let t = gradient_param(d);
    vec3(lerp(UNIT as int, SKY_R as int, t), lerp(UNIT as int, SKY_G as int, t), lerp(
        UNIT as int,
        SKY_B as int,
        t,
    ))
}

/// The item-wise product of colours `a` and `b`, rounded down.
pub open spec fn hadamard(a: Color, b: Color) -> Color {
    vec3(a.x * b.x / (UNIT as int), a.y * b.y / (UNIT as int), a.z * b.z / (UNIT as int))
}

/// Black.
pub open spec fn black() -> Color {
    vec3(0, 0, 0)
}

proof fn lemma_lerp_bounded(b: int, t: int)
    requires
        0 <= b <= UNIT,
        0 <= t <= UNIT,
    ensures
        0 <= lerp(UNIT as int, b, t) <= UNIT,
{
    assert(0 <= 1000 * (1000 - t) / 1000 + b * t / 1000 <= 1000) by (nonlinear_arith)
        requires
            0 <= b <= 1000,
            0 <= t <= 1000,
    ;
}

/// The background colour for direction `d`.
pub fn background_color(d: Vec3) -> (c: Color)
    requires
        d.wf(),
        !is_zero(d),
    ensures
        c == background(d),
        color_bounded(c),
{
    let unit = normalize(d);
    let t = div_floor(unit.y as i128 + UNIT as i128, 2) as i64;
    proof {
        lemma_lerp_bounded(SKY_R as int, t as int);
        lemma_lerp_bounded(SKY_G as int, t as int);
        lemma_lerp_bounded(SKY_B as int, t as int);
    }
    let white = Vec3::new(UNIT, UNIT, UNIT);
    let sky = Vec3::new(SKY_R, SKY_G, SKY_B);
    white.scale(UNIT - t).add(sky.scale(t))
}

/// Straight up the background is pure sky blue; straight down it is pure white.
pub proof fn lemma_background_vertical(k: int)
    requires
        0 < k <= 4_194_304,
    ensures
        background(vec3(0, k, 0)) == vec3(SKY_R as int, SKY_G as int, SKY_B as int),
        background(vec3(0, -k, 0)) == vec3(UNIT as int, UNIT as int, UNIT as int),
{
    let m = k * 1000;
    assert((0 * 0 + k * k + 0 * 0) * (1000 * 1000) == m * m) by (nonlinear_arith)
        requires
            m == k * 1000,
    ;
    assert((0 * 0 + (-k) * (-k) + 0 * 0) * (1000 * 1000) == m * m) by (nonlinear_arith)
        requires
            m == k * 1000,
    ;
    assert(m * m < (m + 1) * (m + 1)) by (nonlinear_arith)
        requires
            m > 0,
    ;
    lemma_floor_sqrt_unique(m, m * m);
    assert((k * 1000) * 1000 / m == 1000) by (nonlinear_arith)
        requires
            m == k * 1000,
            k > 0,
    ;
    assert(((-k) * 1000) * 1000 / m == -1000) by (nonlinear_arith)
        requires
            m == k * 1000,
            k > 0,
    ;
    assert((0int * 1000) * 1000 / m == 0) by (nonlinear_arith)
        requires
            m > 0,
    ;
}

/// `c` is a colour that the light arriving along `r` can have, following at
/// most `depth` bounces through `shapes`: black when no bounce is left, the
/// background when the ray leaves the scene, and otherwise the hit material's
/// albedo times the light along some diffuse bounce from the hit point.
pub open spec fn possible_radiance(r: Ray, shapes: Seq<Shape>, depth: nat, c: Color) -> bool
    decreases depth,
{
    if depth == 0 {
        c == black()
    } else {
        match scene_hit(shapes, r, T_EPSILON as int, T_INFINITY as int) {
            Intersection::NoHit => c == background(r.direction),
            Intersection::Hit { point, normal, material, .. } => exists|next: Ray, l: Color|
                #![trigger diffuse_direction(normal, next.direction), hadamard(material.albedo(), l)]
                {
                    &&& next.origin == point
                    &&& diffuse_direction(normal, next.direction)
                    &&& possible_radiance(next, shapes, (depth - 1) as nat, l)
                    &&& color_bounded(l)
                    &&& c == hadamard(material.albedo(), l)
                },
        }
    }
}

/// The light arriving along `r`, following at most `depth` bounces. A path
/// that runs out of bounces contributes black; one that leaves the scene sees
/// the background; a bounce multiplies the light by the material's albedo.
pub fn ray_color(r: &Ray, objects: &ShapeVec, depth: u8) -> (c: Color)
    requires
        r.wf(),
        !is_zero(r.direction),
        objects.wf(),
    ensures
        possible_radiance(*r, objects@, depth as nat, c),
        color_bounded(c),
        depth == 0 ==> c == black(),
        depth > 0 && scene_hit(objects@, *r, T_EPSILON as int, T_INFINITY as int) is NoHit
            ==> c == background(r.direction),
        depth > 0 ==> (scene_hit(objects@, *r, T_EPSILON as int, T_INFINITY as int) matches
            Intersection::Hit { material, .. } ==> exists|l: Color|
            color_bounded(l) && c == #[trigger] hadamard(material.albedo(), l)),
    decreases depth,
{
    if depth == 0 {
        return Vec3::new(0, 0, 0);
    }
    let intersection = objects.intersects(r, T_EPSILON, T_INFINITY);
    match intersection {
        Intersection::Hit { normal, material, .. } => {
            match material.scatter(r, &intersection) {
                Scatter::Scattered { ray, attenuation } => {
                    let incoming = ray_color(&ray, objects, depth - 1);
                    let c = attenuation.mul(incoming);
                    proof {
                        lemma_product_bounded(attenuation.x as int, incoming.x as int);
                        lemma_product_bounded(attenuation.y as int, incoming.y as int);
                        lemma_product_bounded(attenuation.z as int, incoming.z as int);
                        assert(c == hadamard(material.albedo(), incoming));
                        assert(diffuse_direction(normal, ray.direction));
                    }
                    c
                },
                Scatter::Absorbed => Vec3::new(0, 0, 0),
            }
        },
        Intersection::NoHit => background_color(r.direction),
    }
}

/// Light that bounces off a surface is attenuated: every channel of a possible
/// radiance along a ray that hits a material is at most that channel of the
/// material's albedo.
pub proof fn lemma_bounce_attenuates(r: Ray, shapes: Seq<Shape>, depth: nat, c: Color)
    requires
        depth > 0,
        possible_radiance(r, shapes, depth, c),
        scene_hit(shapes, r, T_EPSILON as int, T_INFINITY as int) matches Intersection::Hit {
            material,
            ..
        } && material.wf(),
    ensures
        scene_hit(shapes, r, T_EPSILON as int, T_INFINITY as int) matches Intersection::Hit {
            material,
            ..
        } ==> c.x <= material.albedo().x && c.y <= material.albedo().y && c.z
            <= material.albedo().z,
{
    let hit = scene_hit(shapes, r, T_EPSILON as int, T_INFINITY as int);
    if let Intersection::Hit { point, normal, material, .. } = hit {
        let a = material.albedo();
        let (next, l) = choose|next: Ray, l: Color|
            #![trigger diffuse_direction(normal, next.direction), hadamard(a, l)]
            {
                &&& next.origin == point
                &&& diffuse_direction(normal, next.direction)
                &&& possible_radiance(next, shapes, (depth - 1) as nat, l)
                &&& color_bounded(l)
                &&& c == hadamard(a, l)
            };
        lemma_product_at_most(a.x as int, l.x as int);
        lemma_product_at_most(a.y as int, l.y as int);
        lemma_product_at_most(a.z as int, l.z as int);
        lemma_product_bounded(a.x as int, l.x as int);
        lemma_product_bounded(a.y as int, l.y as int);
        lemma_product_bounded(a.z as int, l.z as int);
    }
}

proof fn lemma_product_at_most(a: int, b: int)
    requires
        0 <= a <= UNIT,
        0 <= b <= UNIT,
    ensures
        a * b / (UNIT as int) <= a,
{
    assert(a * b / 1000 <= a) by (nonlinear_arith)
        requires
            0 <= a <= 1000,
            0 <= b <= 1000,
    ;
}

proof fn lemma_product_bounded(a: int, b: int)
    requires
        0 <= a <= UNIT,
        0 <= b <= UNIT,
    ensures
        0 <= a * b / (UNIT as int) <= UNIT,
{
    assert(0 <= a * b / 1000 <= 1000) by (nonlinear_arith)
        requires
            0 <= a <= 1000,
            0 <= b <= 1000,
    ;
}

/// Gamma-2 correction of the average `s / n` of a channel: `sqrt(s / n)` in
/// fixed point, rounded down.
pub open spec fn gamma_channel(s: int, n: int) -> int {
    floor_sqrt((s / n) * UNIT)
}

/// The sum of `n` displayable colours.
pub open spec fn sum_bounded(s: Color, n: int) -> bool {
    0 <= s.x <= n * UNIT && 0 <= s.y <= n * UNIT && 0 <= s.z <= n * UNIT
}

/// Averages the sum of `samples` colours and corrects it for gamma 2.
pub fn gamma_average(sum: Color, samples: u32) -> (c: Color)
    requires
        samples > 0,
        sum_bounded(sum, samples as int),
    ensures
        c == vec3(
            gamma_channel(sum.x as int, samples as int),
            gamma_channel(sum.y as int, samples as int),
            gamma_channel(sum.z as int, samples as int),
        ),
        color_bounded(c),
{
    let x = gamma_one(sum.x, samples);
    let y = gamma_one(sum.y, samples);
    let z = gamma_one(sum.z, samples);
    Vec3::new(x, y, z)
}

fn gamma_one(s: i64, n: u32) -> (g: i64)
    requires
        n > 0,
        0 <= s <= n * UNIT,
    ensures
        g == gamma_channel(s as int, n as int),
        0 <= g <= UNIT,
{
    let avg = (s as u64) / (n as u64);
    assert(avg <= 1000) by (nonlinear_arith)
        requires
            avg == (s as int) / (n as int),
            0 <= s <= n * 1000,
            n > 0,
    ;
    let g = isqrt((avg * UNIT as u64) as u128);
    assert(g <= 1000) by (nonlinear_arith)
        requires
            g * g <= avg * 1000,
            avg <= 1000,
            g >= 0,
    ;
    g as i64
}

/// Image-plane coordinate of a sample in column (or row) `j` of an image
/// `w` pixels wide (or high), offset by `d` steps into the pixel.
pub open spec fn plane_coord(j: int, d: int, w: int) -> int {
    (j * UNIT + d) / (w - 1)
}

/// The camera ray through pixel `(i, j)` of a `w` by `h` image, offset by
/// `(du, dv)` steps into the pixel.
pub open spec fn sample_ray(camera: Camera, i: int, j: int, w: int, h: int, du: int, dv: int) -> Ray {
    Ray {
        origin: camera.origin,
        direction: camera.direction_at(plane_coord(j, du, w), plane_coord(i, dv, h)),
    }
}

/// `c` is a possible colour of one sample of pixel `(i, j)`: the light along
/// the camera ray through some point of the pixel's footprint.
pub open spec fn pixel_sample(
    camera: Camera,
    shapes: Seq<Shape>,
    i: int,
    j: int,
    w: int,
    h: int,
    depth: nat,
    c: Color,
) -> bool {
    exists|du: int, dv: int|
        #![trigger sample_ray(camera, i, j, w, h, du, dv)]
        0 <= du < UNIT && 0 <= dv < UNIT && possible_radiance(
            sample_ray(camera, i, j, w, h, du, dv),
            shapes,
            depth,
            c,
        )
}

/// Component-wise sum of a sequence of colours.
pub open spec fn color_sum(cs: Seq<Color>) -> Color
    decreases cs.len(),
{
    if cs.len() == 0 {
        black()
    } else {
        let s = color_sum(cs.drop_last());
        vec3(s.x + cs.last().x, s.y + cs.last().y, s.z + cs.last().z)
    }
}

/// The gamma-corrected average of the sum `s` of `n` samples.
pub open spec fn gamma_of(s: Color, n: int) -> Color {
    vec3(gamma_channel(s.x as int, n), gamma_channel(s.y as int, n), gamma_channel(s.z as int, n))
}

/// `c` is a possible colour of pixel `(i, j)` of a `w` by `h` image: the
/// gamma-corrected average of `samples` possible sample colours.
pub open spec fn pixel_outcome(
    camera: Camera,
    shapes: Seq<Shape>,
    i: int,
    j: int,
    w: int,
    h: int,
    samples: int,
    depth: nat,
    c: Color,
) -> bool {
    &&& color_bounded(c)
    &&& exists|cs: Seq<Color>|
        {
            &&& cs.len() == samples
            &&& forall|m: int|
                0 <= m < cs.len() ==> pixel_sample(camera, shapes, i, j, w, h, depth, #[trigger] cs[m])
            &&& c == #[trigger] gamma_of(color_sum(cs), samples)
        }
}

/// The colour of pixel `(i, j)` (row `i` counted from the bottom) of a
/// `width` by `height` image: the gamma-corrected average of `samples`
/// possible colours along rays through random points of the pixel's footprint.
pub fn render_pixel(
    camera: &Camera,
    objects: &ShapeVec,
    i: u16,
    j: u16,
    width: u16,
    height: u16,
    samples: u32,
    depth: u8,
) -> (c: Color)
    requires
        camera.wf(),
        objects.wf(),
        2 <= width,
        2 <= height,
        i < height,
        j < width,
        0 < samples,
    ensures
        color_bounded(c),
        depth == 0 ==> c == black(),
        pixel_outcome(
            *camera,
            objects@,
            i as int,
            j as int,
            width as int,
            height as int,
            samples as int,
            depth as nat,
            c,
        ),
{
    let mut sum = Vec3::new(0, 0, 0);
    let ghost mut cs: Seq<Color> = Seq::empty();
    let mut k: u32 = 0;
    while k < samples
        invariant
            k <= samples,
            camera.wf(),
            objects.wf(),
            2 <= width,
            2 <= height,
            i < height,
            j < width,
            sum_bounded(sum, k as int),
            depth == 0 ==> sum == black(),
            cs.len() == k,
            sum == color_sum(cs),
            forall|m: int|
                0 <= m < cs.len() ==> pixel_sample(
                    *camera,
                    objects@,
                    i as int,
                    j as int,
                    width as int,
                    height as int,
                    depth as nat,
                    #[trigger] cs[m],
                ),
        decreases samples - k,
    {
        let du = random_in(0, UNIT);
        let dv = random_in(0, UNIT);
        let u = ((j as i64 * UNIT + du) / (width as i64 - 1)) as i64;
        let v = ((i as i64 * UNIT + dv) / (height as i64 - 1)) as i64;
        proof {
            lemma_plane_coord(j as int, du as int, width as int, u as int);
            lemma_plane_coord(i as int, dv as int, height as int, v as int);
        }
        let r = camera.get_ray(u, v);
        let c = ray_color(&r, objects, depth);
        proof {
            let sr = sample_ray(
                *camera,
                i as int,
                j as int,
                width as int,
                height as int,
                du as int,
                dv as int,
            );
            assert(sr == r);
            assert(pixel_sample(
                *camera,
                objects@,
                i as int,
                j as int,
                width as int,
                height as int,
                depth as nat,
                c,
            ));
            let old_cs = cs;
            cs = cs.push(c);
            assert(cs.drop_last() =~= old_cs);
            assert(forall|m: int| 0 <= m < old_cs.len() ==> cs[m] == old_cs[m]);
        }
        assert(k * UNIT + UNIT == (k + 1) * UNIT) by (nonlinear_arith);
        sum = Vec3::new(sum.x + c.x, sum.y + c.y, sum.z + c.z);
        k = k + 1;
    }
    let c = gamma_average(sum, samples);
    proof {
        if depth == 0 {
            assert(0int / (samples as int) == 0);
            assert(floor_sqrt(0) == 0);
        }
        assert(c == gamma_of(color_sum(cs), samples as int));
    }
    c
}

proof fn lemma_plane_coord(j: int, d: int, w: int, u: int)
    requires
        0 <= j < w,
        2 <= w,
        0 <= d < UNIT,
        u == (j * UNIT + d) / (w - 1),
    ensures
        0 <= u <= PLANE_MAX,
{
    assert(0 <= (j * 1000 + d) / (w - 1) <= 2000) by (nonlinear_arith)
        requires
            0 <= j < w,
            2 <= w,
            0 <= d < 1000,
    ;
}

/// Renders every pixel of `image`, top row first and left to right within a
/// row, each from `samples` rays of at most `depth` bounces.
pub fn render(camera: &Camera, objects: &ShapeVec, image: &mut Image, samples: u32, depth: u8)
    requires
        camera.wf(),
        objects.wf(),
        old(image).wf(),
        2 <= old(image).width,
        2 <= old(image).height,
        0 < samples,
    ensures
        final(image).wf(),
        final(image).width == old(image).width,
        final(image).height == old(image).height,
        final(image).aspect_w == old(image).aspect_w,
        final(image).aspect_h == old(image).aspect_h,
        forall|i: int, j: int|
            0 <= i < final(image).height && 0 <= j < final(image).width ==> pixel_outcome(
                *camera,
                objects@,
                i,
                j,
                final(image).width as int,
                final(image).height as int,
                samples as int,
                depth as nat,
                #[trigger] final(image).pixel(i, j),
            ),
{
    let width = image.width;
    let height = image.height;
    let ghost aw = image.aspect_w;
    let ghost ah = image.aspect_h;
    let mut i: u16 = height;
    while i > 0
        invariant
            camera.wf(),
            objects.wf(),
            image.wf(),
            image.width == width,
            image.height == height,
            image.aspect_w == aw,
            image.aspect_h == ah,
            2 <= width,
            2 <= height,
            0 < samples,
            i <= height,
            forall|i2: int, j2: int|
                i <= i2 < height && 0 <= j2 < width ==> pixel_outcome(
                    *camera,
                    objects@,
                    i2,
                    j2,
                    width as int,
                    height as int,
                    samples as int,
                    depth as nat,
                    #[trigger] image.pixel(i2, j2),
                ),
        decreases i,
    {
        i = i - 1;
        let mut j: u16 = 0;
        while j < width
            invariant
                camera.wf(),
                objects.wf(),
                image.wf(),
                image.width == width,
                image.height == height,
                image.aspect_w == aw,
                image.aspect_h == ah,
                2 <= width,
                2 <= height,
                0 < samples,
                i < height,
                j <= width,
                forall|i2: int, j2: int|
                    ((i < i2 < height && 0 <= j2 < width) || (i2 == i && 0 <= j2 < j))
                        ==> pixel_outcome(
                        *camera,
                        objects@,
                        i2,
                        j2,
                        width as int,
                        height as int,
                        samples as int,
                        depth as nat,
                        #[trigger] image.pixel(i2, j2),
                    ),
            decreases width - j,
        {
            let c = render_pixel(camera, objects, i, j, width, height, samples, depth);
            let ghost before = *image;
            proof {
                lemma_index_in_range(width as int, height as int, i as int, j as int);
            }
            image.set(i, j, c);
            proof {
                assert forall|i2: int, j2: int|
                    ((i < i2 < height && 0 <= j2 < width) || (i2 == i && 0 <= j2 <= j))
                        implies pixel_outcome(
                        *camera,
                        objects@,
                        i2,
                        j2,
                        width as int,
                        height as int,
                        samples as int,
                        depth as nat,
                        #[trigger] image.pixel(i2, j2),
                    ) by {
                    if i2 != i || j2 != j {
                        lemma_index_in_range(width as int, height as int, i2, j2);
                        lemma_index_distinct(width as int, i as int, j as int, i2, j2);
                        assert(image.pixel(i2, j2) == before.pixel(i2, j2));
                    }
                }
            }
            j = j + 1;
        }
    }
}

proof fn lemma_index_distinct(w: int, i: int, j: int, i2: int, j2: int)
    requires
        0 <= j < w,
        0 <= j2 < w,
        0 <= i,
        0 <= i2,
        i != i2 || j != j2,
    ensures
        pixel_index(w, i, j) != pixel_index(w, i2, j2),
{
    if i == i2 {
    } else if i < i2 {
        assert(i * w + j < i2 * w + j2) by (nonlinear_arith)
            requires
                i < i2,
                0 <= j < w,
                0 <= j2,
        ;
    } else {
        assert(i2 * w + j2 < i * w + j) by (nonlinear_arith)
            requires
                i2 < i,
                0 <= j2 < w,
                0 <= j,
        ;
    }
}
} // verus!
