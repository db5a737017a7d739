//! Fixed-point scalars: a real value `v` is held as the integer `v * SCALE`.
use vstd::prelude::*;

verus! {

/// The fixed-point unit: the integer that stands for the real value 1.
pub const SCALE: i64 = 65536;

/// Largest magnitude of a vector component accepted by the products of
/// `Vec3`, so that sums of three products fit in 128 bits.
pub const COMPONENT_LIMIT: i64 = 0x2000_0000_0000_0000;

pub open spec fn fits_i64(v: int) -> bool {
    i64::MIN <= v <= i64::MAX
}

pub open spec fn abs(v: int) -> int {
    if v < 0 { -v } else { v }
}

/// Integer division rounding toward zero.
pub open spec fn div_trunc(n: int, d: int) -> int
    recommends
        d != 0,
{
    let q = abs(n) / abs(d);
    if (n < 0) == (d < 0) { q } else { -q }
}

/// The product of two fixed-point values, rounded toward zero.
pub open spec fn mul_spec(a: int, b: int) -> int {
    div_trunc(a * b, SCALE as int)
}

/// The quotient of two fixed-point values, rounded toward zero.
pub open spec fn div_spec(a: int, b: int) -> int
    recommends
        b != 0,
{
    div_trunc(a * SCALE, b)
}

pub open spec fn is_floor_sqrt(n: int, r: int) -> bool {
    0 <= r && r * r <= n && n < (r + 1) * (r + 1)
}

/// The integer square root, rounded down.
pub open spec fn floor_sqrt(n: int) -> int
    recommends
        n >= 0,
{
    choose|r: int| #[trigger] is_floor_sqrt(n, r)
}

proof fn lemma_floor_sqrt_exists(n: int)
    requires
        n >= 0,
    ensures
        exists|r: int| #[trigger] is_floor_sqrt(n, r),
    decreases n,
{
    if n == 0 {
        assert(is_floor_sqrt(0, 0));
    } else {
        lemma_floor_sqrt_exists(n - 1);
        let r = choose|r: int| #[trigger] is_floor_sqrt(n - 1, r);
        if (r + 1) * (r + 1) <= n {
            assert((r + 1) * (r + 1) <= n < (r + 2) * (r + 2)) by (nonlinear_arith)
                requires
                    (r + 1) * (r + 1) <= n,
                    n - 1 < (r + 1) * (r + 1),
                    r >= 0,
            ;
            assert(is_floor_sqrt(n, r + 1));
        } else {
            assert(is_floor_sqrt(n, r));
        }
    }
}

proof fn lemma_floor_sqrt_unique(n: int, r1: int, r2: int)
    requires
        is_floor_sqrt(n, r1),
        is_floor_sqrt(n, r2),
    ensures
        r1 == r2,
{
    if r1 < r2 {
        assert((r1 + 1) * (r1 + 1) <= r2 * r2) by (nonlinear_arith)
            requires
                0 <= r1 + 1 <= r2,
        ;
    } else if r2 < r1 {
        assert((r2 + 1) * (r2 + 1) <= r1 * r1) by (nonlinear_arith)
            requires
                0 <= r2 + 1 <= r1,
        ;
    }
}

/// `floor_sqrt(n)` is the one `r` with `r * r <= n < (r + 1) * (r + 1)`.
pub proof fn lemma_floor_sqrt(n: int)
    requires
        n >= 0,
    ensures
        is_floor_sqrt(n, floor_sqrt(n)),
        forall|r: int| #[trigger] is_floor_sqrt(n, r) ==> r == floor_sqrt(n),
{
    lemma_floor_sqrt_exists(n);
    assert forall|r: int| is_floor_sqrt(n, r) implies r == floor_sqrt(n) by {
        lemma_floor_sqrt_unique(n, r, floor_sqrt(n));
    }
}

/// `|x * y| <= bx * by` where `|x| <= bx` and `|y| <= by`.
pub proof fn lemma_mul_abs_bound(x: int, y: int, bx: int, by: int)
    requires
        abs(x) <= bx,
        abs(y) <= by,
    ensures
        abs(x * y) <= bx * by,
        abs(x * y) == abs(x) * abs(y),
{
    assert(abs(x) * abs(y) <= bx * by) by (nonlinear_arith)
        requires
            0 <= abs(x) <= bx,
            0 <= abs(y) <= by,
    ;
    assert(abs(x * y) == abs(x) * abs(y)) by (nonlinear_arith);
}

/// The product of two 64-bit values, exactly, in 128 bits.
pub fn wide_mul(a: i64, b: i64) -> (r: i128)
    ensures
        r == a * b,
        abs(r as int) <= 0x4000_0000_0000_0000_0000_0000_0000_0000,
{
    proof {
        lemma_mul_abs_bound(a as int, b as int, 0x8000_0000_0000_0000, 0x8000_0000_0000_0000);
    }
    (a as i128) * (b as i128)
}

/// Truncating division leaves a remainder smaller than the divisor.
pub proof fn lemma_div_trunc_rem(n: int, d: int)
    requires
        d != 0,
    ensures
        abs(n - d * div_trunc(n, d)) < abs(d),
{
    let an = abs(n);
    let ad = abs(d);
    let q = an / ad;
    vstd::arithmetic::div_mod::lemma_fundamental_div_mod(an, ad);
    vstd::arithmetic::div_mod::lemma_mod_pos_bound(an, ad);
    assert(an - ad * q == an % ad);
    if n >= 0 && d > 0 {
        assert(n - d * div_trunc(n, d) == an - ad * q);
    } else if n < 0 && d < 0 {
        assert(d * q == -(ad * q)) by (nonlinear_arith)
            requires
                ad == -d,
        ;
        assert(n - d * div_trunc(n, d) == -(an - ad * q));
    } else if n >= 0 && d < 0 {
        assert(d * (-q) == ad * q) by (nonlinear_arith)
            requires
                ad == -d,
        ;
        assert(n - d * div_trunc(n, d) == an - ad * q);
    } else {
        assert(d * (-q) == -(ad * q)) by (nonlinear_arith)
            requires
                ad == d,
        ;
        assert(n - d * div_trunc(n, d) == -(an - ad * q));
    }
}

/// Truncating division by a positive divisor keeps the order of dividends.
pub proof fn lemma_div_trunc_monotone(n1: int, n2: int, d: int)
    requires
        n1 <= n2,
        d > 0,
    ensures
        div_trunc(n1, d) <= div_trunc(n2, d),
{
    if n1 >= 0 {
        vstd::arithmetic::div_mod::lemma_div_is_ordered(n1, n2, d);
    } else if n2 < 0 {
        vstd::arithmetic::div_mod::lemma_div_is_ordered(-n2, -n1, d);
    } else {
        vstd::arithmetic::div_mod::lemma_div_pos_is_pos(-n1, d);
        vstd::arithmetic::div_mod::lemma_div_pos_is_pos(n2, d);
    }
}

/// The product of two fixed-point values, rounded toward zero.
pub fn mul_fixed(a: i64, b: i64) -> (r: i64)
    requires
        fits_i64(mul_spec(a as int, b as int)),
    ensures
        r == mul_spec(a as int, b as int),
{
    div_trunc_i128(wide_mul(a, b), SCALE as i128) as i64
}

/// Dividing by `SCALE` shrinks a bound on the dividend by `SCALE`.
pub proof fn lemma_div_scale_bound(n: int, bound: int)
    requires
        abs(n) <= bound,
    ensures
        abs(div_trunc(n, SCALE as int)) <= bound / (SCALE as int),
{
    vstd::arithmetic::div_mod::lemma_div_is_ordered(abs(n), bound, SCALE as int);
}

/// Relies on num::integer::Roots::sqrt for `u128`, which returns the
/// truncated square root `r`, with `r * r <= n < (r + 1) * (r + 1)`.
#[verifier::external_body]
fn sqrt_u128(n: u128) -> (r: u128)
    ensures
        r * r <= n,
        n < (r + 1) * (r + 1),
{
    num::integer::Roots::sqrt(&n)
}

/// The integer square root of a non-negative 128-bit value, rounded down.
pub fn isqrt(n: i128) -> (r: i128)
    requires
        n >= 0,
    ensures
        r == floor_sqrt(n as int),
{
    let s = sqrt_u128(n as u128);
    proof {
        lemma_floor_sqrt(n as int);
        assert(is_floor_sqrt(n as int, s as int));
    }
    assert(s * s <= n);
    assert(s <= n) by (nonlinear_arith)
        requires
            s * s <= n,
            s >= 0,
    ;
    s as i128
}

/// Division rounding toward zero, on 128-bit values.
pub fn div_trunc_i128(n: i128, d: i128) -> (q: i128)
    requires
        d != 0,
        n > i128::MIN,
        d > i128::MIN,
    ensures
        q == div_trunc(n as int, d as int),
{
    let an: i128 = if n < 0 { -n } else { n };
    let ad: i128 = if d < 0 { -d } else { d };
    let q: i128 = an / ad;
    assert(q <= an) by (nonlinear_arith)
        requires
            q == an / ad,
            an >= 0,
            ad >= 1,
    ;
    if (n < 0) == (d < 0) {
        q
    } else {
        -q
    }
}

} // verus!
