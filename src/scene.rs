//! The scene: colours, spheres, rays and the world that holds them, and
//! where a ray meets a sphere.
use vstd::prelude::*;
use crate::fixed::{
    abs, lemma_div_scale_bound, lemma_mul_abs_bound, mul_fixed, mul_spec, SCALE,
};
use crate::algebra::quadratic::{compute_quadratic, discriminant, root_minus, root_plus};
use crate::algebra::vec3::{dot_spec, dot_wide, sub_spec, Triple, Vec3};

verus! {

/// Largest magnitude of a coordinate or radius in a scene (4096 units),
/// so that every product of the intersection test fits.
pub const COORD_LIMIT: i64 = 0x1000_0000;

/// Every component lies within `COORD_LIMIT`.
pub open spec fn in_scene_range(v: Triple) -> bool {
    abs(v.0) <= COORD_LIMIT && abs(v.1) <= COORD_LIMIT && abs(v.2) <= COORD_LIMIT
}

/// A colour as red, green, blue and alpha channels.
#[derive(Clone, Copy, PartialEq, Eq, Structural, Debug)]
pub struct Color {
    pub r: u8,
    pub g: u8,
    pub b: u8,
    pub a: u8,
}

impl Color {
    pub fn new(r: u8, g: u8, b: u8, a: u8) -> (c: Color)
        ensures
            c == (Color { r, g, b, a }),
    {
        Color { r, g, b, a }
    }
}

/// A sphere of one flat colour.
#[derive(Clone, Copy, PartialEq, Eq, Structural, Debug)]
pub struct Sphere {
    pub center: Vec3,
    pub radius: i64,
    pub color: Color,
}

/// A ray, starting at the world's origin.
#[derive(Clone, Copy, PartialEq, Eq, Structural, Debug)]
pub struct Ray {
    pub direction: Vec3,
}

/// Optional pair of roots, as integers.
pub open spec fn roots_view(r: Option<(i128, i128)>) -> Option<(int, int)> {
    match r {
        Some((t1, t2)) => Some((t1 as int, t2 as int)),
        None => None,
    }
}

/// The coefficients of `|origin + t·dir − center|² = radius²` in `t`.
pub open spec fn intersect_coeffs(center: Triple, radius: int, dir: Triple, origin: Triple) -> (
    int,
    int,
    int,
) {
    let co = sub_spec(origin, center);
    (dot_spec(dir, dir), 2 * dot_spec(co, dir), dot_spec(co, co) - mul_spec(radius, radius))
}

/// The two ray parameters at which the ray from `origin` along `dir` crosses
/// the sphere's surface, or `None` when it misses, or when `dir` is too
/// short for its square length to register.
pub open spec fn intersect_spec(s: Sphere, dir: Triple, origin: Triple) -> Option<(int, int)> {
    let (a, b, c) = intersect_coeffs(s.center@, s.radius as int, dir, origin);
    if a == 0 || discriminant(a, b, c) < 0 {
        None
    } else {
        Some((root_plus(a, b, c), root_minus(a, b, c)))
    }
}

impl Sphere {
    pub open spec fn wf(&self) -> bool {
        in_scene_range(self.center@) && 0 <= self.radius <= COORD_LIMIT
    }

    pub fn new(center: Vec3, radius: i64, color: Color) -> (s: Sphere)
        ensures
            s == (Sphere { center, radius, color }),
    {
        Sphere { center, radius, color }
    }

    /// Where the ray from `origin` meets this sphere.
    pub fn intersect(&self, ray: &Ray, origin: Vec3) -> (r: Option<(i128, i128)>)
        requires
            self.wf(),
            in_scene_range(ray.direction@),
            in_scene_range(origin@),
        ensures
            roots_view(r) == intersect_spec(*self, ray.direction@, origin@),
    {
        let d = ray.direction;
        let co = origin.sub(self.center);
        proof {
            lemma_coeff_bounds(co@, d@, self.radius as int);
        }
        let a = d.dot(d);
        let b = 2 * co.dot(d);
        let c = co.dot(co) - mul_fixed(self.radius, self.radius);
        if a == 0 {
            return None;
        }
        compute_quadratic(a, b, c)
    }
}

proof fn lemma_dot_bound(u: Triple, v: Triple, bu: int, bv: int)
    requires
        abs(u.0) <= bu && abs(u.1) <= bu && abs(u.2) <= bu,
        abs(v.0) <= bv && abs(v.1) <= bv && abs(v.2) <= bv,
    ensures
        abs(dot_wide(u, v)) <= 3 * (bu * bv),
{
    lemma_mul_abs_bound(u.0, v.0, bu, bv);
    lemma_mul_abs_bound(u.1, v.1, bu, bv);
    lemma_mul_abs_bound(u.2, v.2, bu, bv);
}

proof fn lemma_coeff_bounds(co: Triple, d: Triple, radius: int)
    requires
        abs(co.0) <= 2 * COORD_LIMIT && abs(co.1) <= 2 * COORD_LIMIT && abs(co.2) <= 2 * COORD_LIMIT,
        in_scene_range(d),
        0 <= radius <= COORD_LIMIT,
    ensures
        abs(dot_spec(d, d)) <= 0x300_0000_0000,
        abs(dot_spec(co, d)) <= 0x600_0000_0000,
        abs(dot_spec(co, co)) <= 0xC00_0000_0000,
        abs(mul_spec(radius, radius)) <= 0x100_0000_0000,
{
    let l = COORD_LIMIT as int;
    lemma_dot_bound(d, d, l, l);
    lemma_dot_bound(co, d, 2 * l, l);
    lemma_dot_bound(co, co, 2 * l, 2 * l);
    assert(2 * l * (2 * l) == 0x400_0000_0000_0000) by (nonlinear_arith)
        requires
            l == 0x1000_0000,
    ;
    assert((3 * 0x400_0000_0000_0000int) / (SCALE as int) == 0xC00_0000_0000);
    lemma_mul_abs_bound(radius, radius, l, l);
    lemma_div_scale_bound(dot_wide(d, d), 3 * (l * l));
    lemma_div_scale_bound(dot_wide(co, d), 3 * (2 * l * l));
    lemma_div_scale_bound(dot_wide(co, co), 3 * (2 * l * (2 * l)));
    lemma_div_scale_bound(radius * radius, l * l);
}

/// The scene: the eye's position, the spheres in scan order, and the
/// colour of pixels that hit nothing.
pub struct World {
    pub origin: Vec3,
    pub objects: Vec<Sphere>,
    pub background: Color,
}

impl World {
    /// Every coordinate of the world lies within `COORD_LIMIT`.
    pub open spec fn wf(&self) -> bool {
        &&& in_scene_range(self.origin@)
        &&& forall|i: int| 0 <= i < self.objects@.len() ==> #[trigger] self.objects@[i].wf()
    }

    /// A world with no spheres yet.
    pub fn new(origin: Vec3, background: Color) -> (w: World)
        ensures
            w.origin == origin,
            w.objects@ == Seq::<Sphere>::empty(),
            w.background == background,
    {
        World { origin, objects: Vec::new(), background }
    }

    /// Appends a sphere to the scene.
    pub fn add_sphere(&mut self, s: Sphere)
        ensures
            final(self).origin == old(self).origin,
            final(self).objects@ == old(self).objects@.push(s),
            final(self).background == old(self).background,
    {
        self.objects.push(s);
    }
}

} // verus!
