//! Real roots of `a·t² + b·t + c = 0` over fixed-point coefficients.
use vstd::prelude::*;
use crate::fixed::{
    abs, div_trunc, div_trunc_i128, floor_sqrt, isqrt, lemma_div_trunc_monotone,
    lemma_div_trunc_rem, lemma_floor_sqrt, lemma_mul_abs_bound, wide_mul, SCALE,
};

verus! {

/// Largest magnitude of a coefficient, so that `SCALE² · Δ` fits in 128 bits.
pub const COEFF_LIMIT: i64 = 0x4000_0000_0000;

pub open spec fn coeffs_in_range(a: int, b: int, c: int) -> bool {
    abs(a) <= COEFF_LIMIT && abs(b) <= COEFF_LIMIT && abs(c) <= COEFF_LIMIT
}

/// `b² − 4ac`, at twice the fixed-point scale of the coefficients.
pub open spec fn discriminant(a: int, b: int, c: int) -> int {
    b * b - 4 * a * c
}

/// `√Δ` at the fixed-point scale of the roots times that of the
/// coefficients, rounded down: the only rounding before the final division.
pub open spec fn scaled_sqrt(a: int, b: int, c: int) -> int {
    floor_sqrt(SCALE * SCALE * discriminant(a, b, c))
}

/// The root `(−b + √Δ) / 2a`, as a fixed-point value rounded toward zero.
pub open spec fn root_plus(a: int, b: int, c: int) -> int {
    div_trunc(-b * SCALE + scaled_sqrt(a, b, c), 2 * a)
}

/// The root `(−b − √Δ) / 2a`, as a fixed-point value rounded toward zero.
pub open spec fn root_minus(a: int, b: int, c: int) -> int {
    div_trunc(-b * SCALE - scaled_sqrt(a, b, c), 2 * a)
}

/// `SCALE³` times the value of the polynomial at the fixed-point value `t`:
/// with `a`, `b`, `c` and `t` read as reals this is `a·t² + b·t + c`.
pub open spec fn residual(a: int, b: int, c: int, t: int) -> int {
    a * t * t + b * SCALE * t + c * SCALE * SCALE
}

/// The bound on `4a · residual` at a computed root: the error of the
/// rounded square root and of the rounded division, each under one unit.
pub open spec fn residual_bound(a: int, b: int, c: int) -> int {
    let s = scaled_sqrt(a, b, c);
    2 * s + 4 * s * abs(a) + 4 * a * a
}

/// Both real roots of `a·t² + b·t + c = 0`, the `+√Δ` root first. `None`
/// when the discriminant is negative and there is no real root, and when
/// `a` is zero and the equation is no quadratic.
pub fn compute_quadratic(a: i64, b: i64, c: i64) -> (r: Option<(i128, i128)>)
    requires
        coeffs_in_range(a as int, b as int, c as int),
    ensures
        r.is_none() == (a == 0 || discriminant(a as int, b as int, c as int) < 0),
        r.is_some() ==> r.unwrap().0 == root_plus(a as int, b as int, c as int),
        r.is_some() ==> r.unwrap().1 == root_minus(a as int, b as int, c as int),
{
    if a == 0 {
        return None;
    }
    proof {
        let l = COEFF_LIMIT as int;
        lemma_mul_abs_bound(b as int, b as int, l, l);
        lemma_mul_abs_bound(a as int, c as int, l, l);
    }
    let d: i128 = wide_mul(b, b) - 4 * wide_mul(a, c);
    assert(4 * (a as int * c as int) == 4 * a as int * c as int) by (nonlinear_arith);
    if d < 0 {
        return None;
    }
    let k: i128 = SCALE as i128;
    assert(d <= 5 * 0x1000_0000_0000_0000_0000_0000);
    assert(k * k * d <= 5 * 0x1000_0000_0000_0000_0000_0000_0000_0000) by (nonlinear_arith)
        requires
            0 <= d <= 5 * 0x1000_0000_0000_0000_0000_0000,
            k == 0x1_0000,
    ;
    let s = isqrt(k * k * d);
    proof {
        lemma_floor_sqrt(k * k * d);
        assert(s < 0x1_0000_0000_0000_0000) by (nonlinear_arith)
            requires
                s * s <= k * k * d,
                k * k * d < 0x8000_0000_0000_0000_0000_0000_0000_0000,
                s >= 0,
        ;
    }
    let two_a: i128 = 2 * (a as i128);
    let bk: i128 = b as i128 * k;
    let t1 = div_trunc_i128(-bk + s, two_a);
    let t2 = div_trunc_i128(-bk - s, two_a);
    Some((t1, t2))
}

proof fn lemma_residual_identity(a: int, b: int, c: int, t: int, s: int, r: int, sign: int)
    requires
        2 * a * t == (sign * s - b * SCALE) - r,
        sign * sign == 1,
    ensures
        4 * a * residual(a, b, c, t)
            == (s * s - SCALE * SCALE * discriminant(a, b, c)) - 2 * sign * s * r + r * r,
{
    let k = SCALE as int;
    let u = 2 * a * t;
    let w = sign * s - r;
    assert(4 * a * (a * t * t) == u * u) by (nonlinear_arith)
        requires
            u == 2 * a * t,
    ;
    assert(4 * a * (b * k * t) == 2 * b * k * u) by (nonlinear_arith)
        requires
            u == 2 * a * t,
    ;
    assert(4 * a * (c * k * k) == 4 * a * c * k * k) by (nonlinear_arith);
    assert(4 * a * (a * t * t + b * k * t + c * k * k)
        == 4 * a * (a * t * t) + 4 * a * (b * k * t) + 4 * a * (c * k * k)) by (nonlinear_arith);
    assert(u == w - b * k);
    assert(u * u + 2 * b * k * u == w * w - b * b * k * k) by (nonlinear_arith)
        requires
            u == w - b * k,
    ;
    assert(w * w == s * s - 2 * sign * s * r + r * r) by (nonlinear_arith)
        requires
            w == sign * s - r,
            sign * sign == 1,
    ;
    assert(k * k * (b * b - 4 * a * c) == b * b * k * k - 4 * a * c * k * k) by (nonlinear_arith);
}

proof fn lemma_root_residual(a: int, b: int, c: int, sign: int)
    requires
        a != 0,
        discriminant(a, b, c) >= 0,
        sign == 1 || sign == -1,
    ensures
        abs(4 * a * residual(a, b, c, div_trunc(sign * scaled_sqrt(a, b, c) - b * SCALE, 2 * a)))
            <= residual_bound(a, b, c),
{
    let k = SCALE as int;
    let dl = k * k * discriminant(a, b, c);
    assert(dl >= 0) by (nonlinear_arith)
        requires
            dl == k * k * discriminant(a, b, c),
            discriminant(a, b, c) >= 0,
    ;
    let s = scaled_sqrt(a, b, c);
    lemma_floor_sqrt(dl);
    let n = sign * s - b * k;
    let t = div_trunc(n, 2 * a);
    lemma_div_trunc_rem(n, 2 * a);
    let r = n - 2 * a * t;
    lemma_residual_identity(a, b, c, t, s, r, sign);
    let e = s * s - dl;
    assert(-2 * s <= e <= 0) by (nonlinear_arith)
        requires
            s * s <= dl,
            dl < (s + 1) * (s + 1),
            e == s * s - dl,
    ;
    assert(abs(r) <= 2 * abs(a)) by {
        assert(abs(2 * a) == 2 * abs(a));
    }
    assert(abs(2 * sign * s * r) <= 4 * s * abs(a)) by (nonlinear_arith)
        requires
            abs(r) <= 2 * abs(a),
            s >= 0,
            sign == 1 || sign == -1,
            abs(r) == (if r < 0 { -r } else { r }),
            abs(a) == (if a < 0 { -a } else { a }),
            abs(2 * sign * s * r) == (if 2 * sign * s * r < 0 { -(2 * sign * s * r) } else { 2 * sign * s * r }),
    ;
    assert(r * r <= 4 * a * a) by (nonlinear_arith)
        requires
            abs(r) <= 2 * abs(a),
            abs(r) == (if r < 0 { -r } else { r }),
            abs(a) == (if a < 0 { -a } else { a }),
    ;
    assert(r * r >= 0) by (nonlinear_arith);
    let x = 2 * sign * s * r;
    assert(4 * a * residual(a, b, c, t) == e - x + r * r);
    assert(-(2 * s + 4 * s * abs(a) + 4 * a * a) <= e - x + r * r <= 2 * s + 4 * s * abs(a) + 4 * a * a);
}

/// Each computed root nearly solves the equation: at either root,
/// `4a · SCALE³ · (a·t² + b·t + c)` is at most `residual_bound` in magnitude.
/// With `a > 0` the first root is the larger.
pub proof fn lemma_roots_nearly_solve(a: int, b: int, c: int)
    requires
        a != 0,
        discriminant(a, b, c) >= 0,
    ensures
        abs(4 * a * residual(a, b, c, root_plus(a, b, c))) <= residual_bound(a, b, c),
        abs(4 * a * residual(a, b, c, root_minus(a, b, c))) <= residual_bound(a, b, c),
        a > 0 ==> root_plus(a, b, c) >= root_minus(a, b, c),
{
    let k = SCALE as int;
    let s = scaled_sqrt(a, b, c);
    assert(k * k * discriminant(a, b, c) >= 0) by (nonlinear_arith)
        requires
            discriminant(a, b, c) >= 0,
    ;
    lemma_floor_sqrt(k * k * discriminant(a, b, c));
    lemma_root_residual(a, b, c, 1);
    lemma_root_residual(a, b, c, -1);
    assert(1 * s - b * k == -b * k + s);
    assert(-1 * s - b * k == -b * k - s);
    if a > 0 {
        lemma_div_trunc_monotone(-b * k - s, -b * k + s, 2 * a);
    }
}

/// Scaling both terms of a quotient by the same positive factor keeps it.
proof fn lemma_div_trunc_cancel(n: int, d: int, f: int)
    requires
        d != 0,
        f > 0,
    ensures
        div_trunc(f * n, f * d) == div_trunc(n, d),
{
    let p = abs(n);
    let q = abs(d);
    let t = p / q;
    vstd::arithmetic::div_mod::lemma_fundamental_div_mod(p, q);
    vstd::arithmetic::div_mod::lemma_mod_pos_bound(p, q);
    let r = p % q;
    assert(f * p == (f * q) * t + f * r && 0 <= f * r < f * q) by (nonlinear_arith)
        requires
            p == q * t + r,
            0 <= r < q,
            f > 0,
    ;
    vstd::arithmetic::div_mod::lemma_fundamental_div_mod_converse(f * p, f * q, t, f * r);
    assert(abs(f * n) == f * p && abs(f * d) == f * q && (f * n < 0) == (n < 0) && (f * d < 0)
        == (d < 0)) by (nonlinear_arith)
        requires
            f > 0,
            p == (if n < 0 { -n } else { n }),
            q == (if d < 0 { -d } else { d }),
            abs(f * n) == (if f * n < 0 { -(f * n) } else { f * n }),
            abs(f * d) == (if f * d < 0 { -(f * d) } else { f * d }),
    ;
}

/// Quotients of dividends less than the divisor apart differ by at most one.
proof fn lemma_div_trunc_close(x: int, y: int, d: int)
    requires
        d != 0,
        abs(x - y) < abs(d),
    ensures
        abs(div_trunc(x, d) - div_trunc(y, d)) <= 1,
{
    let e = abs(d);
    let ax = abs(x);
    let ay = abs(y);
    if (x >= 0) == (y >= 0) {
        let (hi, lo) = if ax >= ay { (ax, ay) } else { (ay, ax) };
        vstd::arithmetic::div_mod::lemma_div_is_ordered(lo, hi, e);
        vstd::arithmetic::div_mod::lemma_div_is_ordered(hi, lo + e, e);
        vstd::arithmetic::div_mod::lemma_fundamental_div_mod(lo, e);
        vstd::arithmetic::div_mod::lemma_mod_pos_bound(lo, e);
        assert(lo + e == (lo / e + 1) * e + lo % e) by (nonlinear_arith)
            requires
                lo == e * (lo / e) + lo % e,
        ;
        vstd::arithmetic::div_mod::lemma_fundamental_div_mod_converse(lo + e, e, lo / e + 1, lo % e);
    } else {
        vstd::arithmetic::div_mod::lemma_fundamental_div_mod_converse(ax, e, 0, ax);
        vstd::arithmetic::div_mod::lemma_fundamental_div_mod_converse(ay, e, 0, ay);
    }
}

/// Multiplying all three coefficients by the same positive factor moves
/// each computed root by at most one unit of the last place.
pub proof fn lemma_roots_scale_invariant(a: int, b: int, c: int, f: int)
    requires
        a != 0,
        discriminant(a, b, c) >= 0,
        f > 0,
    ensures
        abs(root_plus(f * a, f * b, f * c) - root_plus(a, b, c)) <= 1,
        abs(root_minus(f * a, f * b, f * c) - root_minus(a, b, c)) <= 1,
{
    let k = SCALE as int;
    let x = k * k * discriminant(a, b, c);
    let d0 = discriminant(a, b, c);
    let d1 = discriminant(f * a, f * b, f * c);
    assert(d1 == (f * b) * (f * b) - 4 * (f * a) * (f * c));
    assert(k * k * d1 == f * f * x && x >= 0) by (nonlinear_arith)
        requires
            x == k * k * d0,
            d0 == b * b - 4 * a * c,
            d1 == (f * b) * (f * b) - 4 * (f * a) * (f * c),
            d0 >= 0,
    ;
    assert(f * f * x >= 0) by (nonlinear_arith)
        requires
            x >= 0,
    ;
    lemma_floor_sqrt(x);
    lemma_floor_sqrt(f * f * x);
    let s = floor_sqrt(x);
    let s2 = floor_sqrt(f * f * x);
    if s2 < f * s {
        assert((s2 + 1) * (s2 + 1) <= f * f * x) by (nonlinear_arith)
            requires
                0 <= s2 + 1 <= f * s,
                s * s <= x,
                f > 0,
        ;
    }
    if s2 >= f * (s + 1) {
        assert(s2 * s2 > f * f * x) by (nonlinear_arith)
            requires
                s2 >= f * (s + 1),
                x < (s + 1) * (s + 1),
                f > 0,
                s >= 0,
        ;
    }
    assert(f * (s + 1) == f * s + f) by (nonlinear_arith);
    let dl = s2 - f * s;
    assert(0 <= dl < f);
    let np = -b * k + s;
    let nm = -b * k - s;
    assert(-(f * b) * k + s2 == f * np + dl && -(f * b) * k - s2 == f * nm - dl) by (nonlinear_arith)
        requires
            dl == s2 - f * s,
            np == -b * k + s,
            nm == -b * k - s,
    ;
    assert(2 * (f * a) == f * (2 * a)) by (nonlinear_arith);
    lemma_div_trunc_cancel(np, 2 * a, f);
    lemma_div_trunc_cancel(nm, 2 * a, f);
    assert(abs(f * (2 * a)) >= 2 * f) by (nonlinear_arith)
        requires
            a != 0,
            f > 0,
            abs(f * (2 * a)) == (if f * (2 * a) < 0 { -(f * (2 * a)) } else { f * (2 * a) }),
    ;
    lemma_div_trunc_close(f * np + dl, f * np, f * (2 * a));
    lemma_div_trunc_close(f * nm - dl, f * nm, f * (2 * a));
}

} // verus!
