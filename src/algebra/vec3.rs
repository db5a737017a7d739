//! Three-component fixed-point vectors, used as points and as directions.
use vstd::prelude::*;
use crate::fixed::{
    abs, div_trunc, fits_i64, floor_sqrt, is_floor_sqrt, isqrt, div_trunc_i128, wide_mul, lemma_floor_sqrt,
    lemma_mul_abs_bound, COMPONENT_LIMIT, SCALE,
};

verus! {

/// The mathematical value of a vector: its three components as integers.
pub type Triple = (int, int, int);

pub open spec fn fits(v: Triple) -> bool {
    fits_i64(v.0) && fits_i64(v.1) && fits_i64(v.2)
}

/// Largest magnitude of a component that `normalize` accepts, so that the
/// squared length at twice the fixed-point scale fits in 128 bits.
pub const NORMALIZE_LIMIT: i64 = 0x4000_0000_0000;

/// Every component lies within `COMPONENT_LIMIT`.
pub open spec fn bounded(v: Triple) -> bool {
    abs(v.0) <= COMPONENT_LIMIT && abs(v.1) <= COMPONENT_LIMIT && abs(v.2) <= COMPONENT_LIMIT
}

pub open spec fn add_spec(a: Triple, b: Triple) -> Triple {
    (a.0 + b.0, a.1 + b.1, a.2 + b.2)
}

pub open spec fn sub_spec(a: Triple, b: Triple) -> Triple {
    (a.0 - b.0, a.1 - b.1, a.2 - b.2)
}

pub open spec fn neg_spec(a: Triple) -> Triple {
    (-a.0, -a.1, -a.2)
}

/// Each component multiplied by the fixed-point scalar `s`, rounded toward zero.
pub open spec fn scale_spec(a: Triple, s: int) -> Triple {
    (div_trunc(a.0 * s, SCALE as int), div_trunc(a.1 * s, SCALE as int), div_trunc(a.2 * s, SCALE as int))
}

/// Each component divided by the fixed-point scalar `s`, rounded toward zero.
pub open spec fn divide_spec(a: Triple, s: int) -> Triple {
    (div_trunc(a.0 * SCALE, s), div_trunc(a.1 * SCALE, s), div_trunc(a.2 * SCALE, s))
}

/// The sum of the component products, at twice the fixed-point scale.
pub open spec fn dot_wide(a: Triple, b: Triple) -> int {
    a.0 * b.0 + a.1 * b.1 + a.2 * b.2
}

/// The fixed-point dot product, rounded toward zero.
pub open spec fn dot_spec(a: Triple, b: Triple) -> int {
    div_trunc(dot_wide(a, b), SCALE as int)
}

/// The right-handed cross product, each component rounded toward zero.
pub open spec fn cross_spec(a: Triple, b: Triple) -> Triple {
    (
        div_trunc(a.1 * b.2 - a.2 * b.1, SCALE as int),
        div_trunc(a.2 * b.0 - a.0 * b.2, SCALE as int),
        div_trunc(a.0 * b.1 - a.1 * b.0, SCALE as int),
    )
}

/// The length of a vector: the square root of its dot product with itself,
/// rounded down. At fixed-point scale this is `floor_sqrt` of the wide sum.
pub open spec fn magnitude_spec(a: Triple) -> int {
    floor_sqrt(dot_wide(a, a))
}

/// The length of a vector at twice the fixed-point scale, rounded down once.
pub open spec fn fine_magnitude(a: Triple) -> int {
    floor_sqrt(SCALE * SCALE * dot_wide(a, a))
}

/// The vector divided by its own length, the length taken at twice the
/// fixed-point scale so that rounding it costs no more than rounding the
/// quotient.
pub open spec fn normalize_spec(a: Triple) -> Triple {
    let m = fine_magnitude(a);
    (
        div_trunc(a.0 * (SCALE * SCALE), m),
        div_trunc(a.1 * (SCALE * SCALE), m),
        div_trunc(a.2 * (SCALE * SCALE), m),
    )
}

/// A point or a direction in space, each component a fixed-point value.
#[derive(Clone, Copy, PartialEq, Eq, Structural, Debug)]
pub struct Vec3 {
    pub x: i64,
    pub y: i64,
    pub z: i64,
}

impl View for Vec3 {
    type V = Triple;

    open spec fn view(&self) -> Triple {
        (self.x as int, self.y as int, self.z as int)
    }
}

proof fn lemma_wide_bound(a: Triple, b: Triple)
    requires
        bounded(a),
        bounded(b),
    ensures
        abs(a.0 * b.0) <= 0x400_0000_0000_0000_0000_0000_0000_0000,
        abs(a.1 * b.1) <= 0x400_0000_0000_0000_0000_0000_0000_0000,
        abs(a.2 * b.2) <= 0x400_0000_0000_0000_0000_0000_0000_0000,
        abs(a.0 * b.1) <= 0x400_0000_0000_0000_0000_0000_0000_0000,
        abs(a.1 * b.0) <= 0x400_0000_0000_0000_0000_0000_0000_0000,
        abs(a.0 * b.2) <= 0x400_0000_0000_0000_0000_0000_0000_0000,
        abs(a.2 * b.0) <= 0x400_0000_0000_0000_0000_0000_0000_0000,
        abs(a.1 * b.2) <= 0x400_0000_0000_0000_0000_0000_0000_0000,
        abs(a.2 * b.1) <= 0x400_0000_0000_0000_0000_0000_0000_0000,
{
    let l = COMPONENT_LIMIT as int;
    assert(l * l == 0x400_0000_0000_0000_0000_0000_0000_0000);
    lemma_mul_abs_bound(a.0, b.0, l, l);
    lemma_mul_abs_bound(a.1, b.1, l, l);
    lemma_mul_abs_bound(a.2, b.2, l, l);
    lemma_mul_abs_bound(a.0, b.1, l, l);
    lemma_mul_abs_bound(a.1, b.0, l, l);
    lemma_mul_abs_bound(a.0, b.2, l, l);
    lemma_mul_abs_bound(a.2, b.0, l, l);
    lemma_mul_abs_bound(a.1, b.2, l, l);
    lemma_mul_abs_bound(a.2, b.1, l, l);
}

proof fn lemma_squares(v: Triple)
    ensures
        v.0 * v.0 >= 0,
        v.1 * v.1 >= 0,
        v.2 * v.2 >= 0,
        dot_wide(v, v) >= 0,
{
    assert(v.0 * v.0 >= 0 && v.1 * v.1 >= 0 && v.2 * v.2 >= 0) by (nonlinear_arith);
}

impl Vec3 {
    pub fn new(x: i64, y: i64, z: i64) -> (r: Vec3)
        ensures
            r@ == (x as int, y as int, z as int),
    {
        Vec3 { x, y, z }
    }

    pub fn add(self, rhs: Vec3) -> (r: Vec3)
        requires
            fits(add_spec(self@, rhs@)),
        ensures
            r@ == add_spec(self@, rhs@),
    {
        Vec3 { x: self.x + rhs.x, y: self.y + rhs.y, z: self.z + rhs.z }
    }

    pub fn sub(self, rhs: Vec3) -> (r: Vec3)
        requires
            fits(sub_spec(self@, rhs@)),
        ensures
            r@ == sub_spec(self@, rhs@),
    {
        Vec3 { x: self.x - rhs.x, y: self.y - rhs.y, z: self.z - rhs.z }
    }

    pub fn neg(self) -> (r: Vec3)
        requires
            fits(neg_spec(self@)),
        ensures
            r@ == neg_spec(self@),
    {
        Vec3 { x: -self.x, y: -self.y, z: -self.z }
    }

    /// Multiplies each component by the fixed-point scalar `s`.
    pub fn scale(self, s: i64) -> (r: Vec3)
        requires
            fits(scale_spec(self@, s as int)),
        ensures
            r@ == scale_spec(self@, s as int),
    {
        let x = div_trunc_i128(wide_mul(self.x, s), SCALE as i128);
        let y = div_trunc_i128(wide_mul(self.y, s), SCALE as i128);
        let z = div_trunc_i128(wide_mul(self.z, s), SCALE as i128);
        Vec3 { x: x as i64, y: y as i64, z: z as i64 }
    }

    /// Divides each component by the non-zero fixed-point scalar `s`.
    pub fn divide(self, s: i64) -> (r: Vec3)
        requires
            s != 0,
            fits(divide_spec(self@, s as int)),
        ensures
            r@ == divide_spec(self@, s as int),
    {
        let x = div_trunc_i128(self.x as i128 * SCALE as i128, s as i128);
        let y = div_trunc_i128(self.y as i128 * SCALE as i128, s as i128);
        let z = div_trunc_i128(self.z as i128 * SCALE as i128, s as i128);
        Vec3 { x: x as i64, y: y as i64, z: z as i64 }
    }

    pub fn dot(self, rhs: Vec3) -> (r: i64)
        requires
            bounded(self@),
            bounded(rhs@),
            fits_i64(dot_spec(self@, rhs@)),
        ensures
            r == dot_spec(self@, rhs@),
    {
        proof {
            lemma_wide_bound(self@, rhs@);
        }
        let w = wide_mul(self.x, rhs.x) + wide_mul(self.y, rhs.y) + wide_mul(self.z, rhs.z);
        div_trunc_i128(w, SCALE as i128) as i64
    }

    pub fn cross_product(self, rhs: Vec3) -> (r: Vec3)
        requires
            bounded(self@),
            bounded(rhs@),
            fits(cross_spec(self@, rhs@)),
        ensures
            r@ == cross_spec(self@, rhs@),
    {
        proof {
            lemma_wide_bound(self@, rhs@);
        }
        let x = div_trunc_i128(wide_mul(self.y, rhs.z) - wide_mul(self.z, rhs.y), SCALE as i128);
        let y = div_trunc_i128(wide_mul(self.z, rhs.x) - wide_mul(self.x, rhs.z), SCALE as i128);
        let z = div_trunc_i128(wide_mul(self.x, rhs.y) - wide_mul(self.y, rhs.x), SCALE as i128);
        Vec3 { x: x as i64, y: y as i64, z: z as i64 }
    }

    pub fn magnitude(self) -> (r: i64)
        requires
            bounded(self@),
        ensures
            r == magnitude_spec(self@),
            r >= 0,
    {
        proof {
            lemma_wide_bound(self@, self@);
            lemma_squares(self@);
        }
        let w = wide_mul(self.x, self.x) + wide_mul(self.y, self.y) + wide_mul(self.z, self.z);
        let m = isqrt(w);
        proof {
            lemma_floor_sqrt(w as int);
            assert(m < 0x4000_0000_0000_0000) by (nonlinear_arith)
                requires
                    m * m <= w,
                    w <= 0xC00_0000_0000_0000_0000_0000_0000_0000,
                    m >= 0,
            ;
        }
        m as i64
    }

    /// The vector divided by its own length, which must not be zero. The
    /// result has length one, to within four units of the last place.
    pub fn normalize(self) -> (r: Vec3)
        requires
            abs(self.x as int) <= NORMALIZE_LIMIT,
            abs(self.y as int) <= NORMALIZE_LIMIT,
            abs(self.z as int) <= NORMALIZE_LIMIT,
            magnitude_spec(self@) > 0,
        ensures
            r@ == normalize_spec(self@),
            SCALE - 4 <= magnitude_spec(r@) <= SCALE,
            abs(r.x as int) <= SCALE,
            abs(r.y as int) <= SCALE,
            abs(r.z as int) <= SCALE,
    {
        let ghost l = NORMALIZE_LIMIT as int;
        proof {
            lemma_squares(self@);
            lemma_floor_sqrt(dot_wide(self@, self@));
            lemma_mul_abs_bound(self.x as int, self.x as int, l, l);
            lemma_mul_abs_bound(self.y as int, self.y as int, l, l);
            lemma_mul_abs_bound(self.z as int, self.z as int, l, l);
            lemma_normalize_unit_length(self@);
        }
        let k: i128 = SCALE as i128;
        let w = wide_mul(self.x, self.x) + wide_mul(self.y, self.y) + wide_mul(self.z, self.z);
        assert(k * k * w <= 3 * 0x1000_0000_0000_0000_0000_0000_0000_0000) by (nonlinear_arith)
            requires
                0 <= w <= 3 * 0x1000_0000_0000_0000_0000_0000,
                k == 0x1_0000,
        ;
        let m = isqrt(k * k * w);
        assert(m == fine_magnitude(self@));
        assert(abs(self.x * (k * k)) <= 0x4000_0000_0000_0000_0000 && abs(self.y * (k * k))
            <= 0x4000_0000_0000_0000_0000 && abs(self.z * (k * k)) <= 0x4000_0000_0000_0000_0000)
            by (nonlinear_arith)
            requires
                abs(self.x as int) <= 0x4000_0000_0000,
                abs(self.y as int) <= 0x4000_0000_0000,
                abs(self.z as int) <= 0x4000_0000_0000,
                k == 0x1_0000,
        ;
        let x = div_trunc_i128(self.x as i128 * (k * k), m);
        let y = div_trunc_i128(self.y as i128 * (k * k), m);
        let z = div_trunc_i128(self.z as i128 * (k * k), m);
        Vec3 { x: x as i64, y: y as i64, z: z as i64 }
    }
}

proof fn lemma_component_below_magnitude(c: int, rest: int, m: int)
    requires
        rest >= 0,
        m >= 0,
        c * c + rest < (m + 1) * (m + 1),
    ensures
        abs(c) <= m,
{
    if abs(c) > m {
        assert(c * c >= (m + 1) * (m + 1)) by (nonlinear_arith)
            requires
                abs(c) >= m + 1,
                m >= 0,
                abs(c) == (if c < 0 { -c } else { c }),
        ;
    }
}

/// The cross product is anti-commutative and the dot product commutative.
pub proof fn lemma_cross_antisymmetric_dot_symmetric(a: Triple, b: Triple)
    ensures
        cross_spec(a, b) == neg_spec(cross_spec(b, a)),
        dot_spec(a, b) == dot_spec(b, a),
{
    assert(a.1 * b.2 - a.2 * b.1 == -(b.1 * a.2 - b.2 * a.1)) by (nonlinear_arith);
    assert(a.2 * b.0 - a.0 * b.2 == -(b.2 * a.0 - b.0 * a.2)) by (nonlinear_arith);
    assert(a.0 * b.1 - a.1 * b.0 == -(b.0 * a.1 - b.1 * a.0)) by (nonlinear_arith);
    assert(dot_wide(a, b) == dot_wide(b, a)) by (nonlinear_arith);
    lemma_div_trunc_neg(b.1 * a.2 - b.2 * a.1, SCALE as int);
    lemma_div_trunc_neg(b.2 * a.0 - b.0 * a.2, SCALE as int);
    lemma_div_trunc_neg(b.0 * a.1 - b.1 * a.0, SCALE as int);
}

proof fn lemma_div_trunc_neg(n: int, d: int)
    requires
        d > 0,
    ensures
        div_trunc(-n, d) == -div_trunc(n, d),
{
    if n == 0 {
        assert(abs(0) / abs(d) == 0);
    }
}

/// Bounds on one component of a normalized vector, squared and scaled by
/// the length `m` that it was divided by.
proof fn lemma_unit_component(c: int, m: int)
    requires
        abs(c) * SCALE <= m,
        m > 0,
    ensures
        ({
            let g = SCALE * SCALE;
            let n = div_trunc(c * g, m);
            &&& m * m * (n * n) <= g * g * (c * c)
            &&& m * m * (n * n) >= g * g * (c * c) - 2 * g * m * abs(c)
            &&& abs(n) <= SCALE
        }),
{
    let k = SCALE as int;
    let g = k * k;
    let n = div_trunc(c * g, m);
    let big = abs(c) * g;
    assert(abs(c * g) == big) by (nonlinear_arith)
        requires
            big == abs(c) * g,
            g > 0,
            abs(c) == (if c < 0 { -c } else { c }),
            abs(c * g) == (if c * g < 0 { -(c * g) } else { c * g }),
    ;
    let q = big / m;
    assert(abs(n) == q);
    vstd::arithmetic::div_mod::lemma_fundamental_div_mod(big, m);
    vstd::arithmetic::div_mod::lemma_mod_pos_bound(big, m);
    let e = big % m;
    assert(big == m * q + e);
    assert(n * n == q * q) by (nonlinear_arith)
        requires
            abs(n) == q,
            abs(n) == (if n < 0 { -n } else { n }),
    ;
    assert(big * big == g * g * (c * c)) by (nonlinear_arith)
        requires
            big == abs(c) * g,
            abs(c) == (if c < 0 { -c } else { c }),
    ;
    assert(m * m * (q * q) <= big * big) by (nonlinear_arith)
        requires
            big == m * q + e,
            0 <= e < m,
            q >= 0,
            m > 0,
    ;
    assert(m * m * (q * q) >= big * big - 2 * big * m) by (nonlinear_arith)
        requires
            big == m * q + e,
            0 <= e < m,
            big >= 0,
    ;
    assert(2 * big * m == 2 * g * m * abs(c)) by (nonlinear_arith)
        requires
            big == abs(c) * g,
    ;
    assert(big <= m * k) by (nonlinear_arith)
        requires
            big == abs(c) * g,
            g == k * k,
            abs(c) * k <= m,
            k > 0,
    ;
    assert(q <= k) by (nonlinear_arith)
        requires
            q == big / m,
            0 <= big <= m * k,
            m > 0,
    ;
}

/// A component scaled to the fine length is no longer than the fine length.
proof fn lemma_fine_component(c: int, rest: int, m: int)
    requires
        rest >= 0,
        is_floor_sqrt(SCALE * SCALE * (c * c + rest), m),
    ensures
        abs(c) * SCALE <= m,
{
    let k = SCALE as int;
    let g = k * k;
    let f = g * (c * c + rest);
    assert((k * c) * (k * c) + g * rest == f) by (nonlinear_arith)
        requires
            f == g * (c * c + rest),
            g == k * k,
    ;
    assert(g * rest >= 0) by (nonlinear_arith)
        requires
            rest >= 0,
            g > 0,
    ;
    lemma_component_below_magnitude(k * c, g * rest, m);
    assert(abs(k * c) == abs(c) * k) by (nonlinear_arith)
        requires
            k > 0,
            abs(c) == (if c < 0 { -c } else { c }),
            abs(k * c) == (if k * c < 0 { -(k * c) } else { k * c }),
    ;
}

/// A normalized vector has length one to within four units of the last
/// place: never longer than `SCALE`, never shorter than `SCALE - 4`.
pub proof fn lemma_normalize_unit_length(v: Triple)
    requires
        magnitude_spec(v) > 0,
    ensures
        SCALE - 4 <= magnitude_spec(normalize_spec(v)) <= SCALE,
        fine_magnitude(v) >= SCALE,
        abs(normalize_spec(v).0) <= SCALE,
        abs(normalize_spec(v).1) <= SCALE,
        abs(normalize_spec(v).2) <= SCALE,
{
    let k = SCALE as int;
    let g = k * k;
    let s = dot_wide(v, v);
    lemma_squares(v);
    lemma_floor_sqrt(s);
    assert(s >= 1) by {
        if s == 0 {
            assert(is_floor_sqrt(0, 0));
        }
    }
    let f = g * s;
    assert(f >= g) by (nonlinear_arith)
        requires
            f == g * s,
            s >= 1,
            g > 0,
    ;
    lemma_floor_sqrt(f);
    let m = fine_magnitude(v);
    assert(m >= k) by {
        if m < k {
            assert((m + 1) * (m + 1) <= k * k) by (nonlinear_arith)
                requires
                    0 <= m + 1 <= k,
            ;
        }
    }
    assert(v.0 * v.0 + (v.1 * v.1 + v.2 * v.2) == s);
    assert(v.1 * v.1 + (v.0 * v.0 + v.2 * v.2) == s);
    assert(v.2 * v.2 + (v.0 * v.0 + v.1 * v.1) == s);
    lemma_fine_component(v.0, v.1 * v.1 + v.2 * v.2, m);
    lemma_fine_component(v.1, v.0 * v.0 + v.2 * v.2, m);
    lemma_fine_component(v.2, v.0 * v.0 + v.1 * v.1, m);
    lemma_unit_component(v.0, m);
    lemma_unit_component(v.1, m);
    lemma_unit_component(v.2, m);
    let u = normalize_spec(v);
    let t = dot_wide(u, u);
    lemma_squares(u);
    lemma_floor_sqrt(t);
    let r = magnitude_spec(u);
    let mm = m * m;
    assert(mm > 0) by (nonlinear_arith)
        requires
            mm == m * m,
            m > 0,
    ;
    assert(mm * t == mm * (u.0 * u.0) + mm * (u.1 * u.1) + mm * (u.2 * u.2)) by (nonlinear_arith)
        requires
            t == u.0 * u.0 + u.1 * u.1 + u.2 * u.2,
    ;
    assert(g * g * s == g * g * (v.0 * v.0) + g * g * (v.1 * v.1) + g * g * (v.2 * v.2))
        by (nonlinear_arith)
        requires
            s == v.0 * v.0 + v.1 * v.1 + v.2 * v.2,
    ;
    assert(g * g * s == g * f) by (nonlinear_arith)
        requires
            f == g * s,
    ;
    // Lower bound: m²·t ≥ g²·s − 2·g·m·(|v.0| + |v.1| + |v.2|) ≥ m²·(k² − 6k).
    assert(2 * g * m * abs(v.0) + 2 * g * m * abs(v.1) + 2 * g * m * abs(v.2) <= 6 * k * mm)
        by (nonlinear_arith)
        requires
            abs(v.0) * k <= m,
            abs(v.1) * k <= m,
            abs(v.2) * k <= m,
            g == k * k,
            mm == m * m,
            k > 0,
            m > 0,
    ;
    assert(g * f >= g * mm) by (nonlinear_arith)
        requires
            f >= mm,
            g > 0,
    ;
    assert(g * mm == mm * g) by (nonlinear_arith);
    assert(mm * (k * k - 6 * k) == g * mm - 6 * k * mm) by (nonlinear_arith)
        requires
            g == k * k,
    ;
    assert(mm * t >= mm * (k * k - 6 * k));
    assert(t >= k * k - 6 * k) by (nonlinear_arith)
        requires
            mm * t >= mm * (k * k - 6 * k),
            mm > 0,
    ;
    if r < k - 4 {
        assert((r + 1) * (r + 1) <= (k - 4) * (k - 4)) by (nonlinear_arith)
            requires
                0 <= r + 1 <= k - 4,
        ;
    }
    // Upper bound: m²·r² ≤ m²·t ≤ g·f < g·(m + 1)².
    assert(mm * (r * r) <= mm * t) by (nonlinear_arith)
        requires
            r * r <= t,
            mm >= 0,
    ;
    assert(g * f < g * ((m + 1) * (m + 1))) by (nonlinear_arith)
        requires
            f < (m + 1) * (m + 1),
            g > 0,
    ;
    assert(m * r < k * (m + 1)) by (nonlinear_arith)
        requires
            mm * (r * r) < g * ((m + 1) * (m + 1)),
            mm == m * m,
            g == k * k,
            m > 0,
            r >= 0,
            k > 0,
    ;
    if r > k {
        assert(m * r >= m * (k + 1)) by (nonlinear_arith)
            requires
                r >= k + 1,
                m > 0,
        ;
    }
}

} // verus!
