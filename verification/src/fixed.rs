//! Fixed-point scalars.
//!
//! Coordinates, vector components and color channels are stored as `i64`
//! values in units of 2^-32: the raw value `v` stands for the number
//! `v / ONE`. Sums and differences are exact; products and quotients are
//! rounded towards negative infinity to the nearest representable value.
use vstd::prelude::*;

verus! {

/// The raw value that stands for the number one.
pub const ONE: i64 = 4294967296;

/// Whether a mathematical integer can be stored as a raw scalar.
pub open spec fn in_range(v: int) -> bool {
    i64::MIN <= v <= i64::MAX
}

/// The absolute value of `v`.
pub open spec fn abs_int(v: int) -> int {
    if v >= 0 {
        v
    } else {
        -v
    }
}

/// Floor of `p / d` for a positive divisor (vstd's `/` on `int` is Euclidean,
/// which agrees with the floor for positive divisors).
pub open spec fn floor_div(p: int, d: int) -> int
    recommends
        d > 0,
{
    p / d
}

/// The raw value of the product of the scalars with raw values `a` and `b`.
pub open spec fn mul_spec(a: int, b: int) -> int {
    floor_div(a * b, ONE as int)
}

/// The raw value of the quotient of the scalars with raw values `a` and `b`.
pub open spec fn div_spec(a: int, b: int) -> int
    recommends
        b != 0,
{
    if b > 0 {
        floor_div(a * ONE, b)
    } else {
        floor_div(-a * ONE, -b)
    }
}

/// Floor division of a 128-bit integer by a positive divisor.
pub fn floor_div_i128(p: i128, d: i128) -> (r: i128)
    requires
        d > 0,
        p > i128::MIN,
    ensures
        r == floor_div(p as int, d as int),
{
    if p >= 0 {
        p / d
    } else {
        let q = (-p - 1) / d;
        proof {
            let pp = -p - 1;
            vstd::arithmetic::div_mod::lemma_fundamental_div_mod(pp as int, d as int);
            let r1 = (pp as int) % (d as int);
            // p = -(pp + 1) = -(d*q + r1) - 1 = (-q-1)*d + (d - r1 - 1)
            assert((p as int) == (-(q as int) - 1) * (d as int) + (d - r1 - 1)) by (nonlinear_arith)
                requires
                    (pp as int) == (d as int) * (q as int) + r1,
                    (p as int) == -(pp as int) - 1,
            ;
            vstd::arithmetic::div_mod::lemma_fundamental_div_mod_converse(
                p as int,
                d as int,
                -(q as int) - 1,
                d - r1 - 1,
            );
        }
        -q - 1
    }
}

/// Multiplies two fixed-point scalars, rounding towards negative infinity.
pub fn product(a: i64, b: i64) -> (r: i64)
    requires
        in_range(mul_spec(a as int, b as int)),
    ensures
        r == mul_spec(a as int, b as int),
{
    let p = (a as i128) * (b as i128);
    proof {
        assert(-0x8000_0000_0000_0000 * 0x8000_0000_0000_0000 <= (a as int) * (b as int)
            <= 0x8000_0000_0000_0000 * 0x8000_0000_0000_0000) by (nonlinear_arith)
            requires
                -0x8000_0000_0000_0000 <= a <= 0x7fff_ffff_ffff_ffff,
                -0x8000_0000_0000_0000 <= b <= 0x7fff_ffff_ffff_ffff,
        ;
    }
    floor_div_i128(p, ONE as i128) as i64
}

/// Divides two fixed-point scalars, rounding towards negative infinity.
pub fn quotient(a: i64, b: i64) -> (r: i64)
    requires
        b != 0,
        in_range(div_spec(a as int, b as int)),
    ensures
        r == div_spec(a as int, b as int),
{
    if b > 0 {
        let p = (a as i128) * (ONE as i128);
        floor_div_i128(p, b as i128) as i64
    } else {
        let p = -(a as i128) * (ONE as i128);
        floor_div_i128(p, -(b as i128)) as i64
    }
}

/// The raw value of a whole number.
pub open spec fn from_int_spec(n: int) -> int {
    n * ONE
}

/// The fixed-point scalar that stands for the whole number `n`.
pub fn from_int(n: i32) -> (r: i64)
    ensures
        r == from_int_spec(n as int),
{
    (n as i64) * ONE
}

/// The floor of half of `v`.
pub fn half(v: i64) -> (r: i64)
    ensures
        r == (v as int) / 2,
{
    if v >= 0 {
        v / 2
    } else {
        let q = (-(v + 1)) / 2;
        proof {
            let pp = -(v + 1);
            vstd::arithmetic::div_mod::lemma_fundamental_div_mod(pp as int, 2);
            vstd::arithmetic::div_mod::lemma_fundamental_div_mod_converse(
                v as int,
                2,
                -(q as int) - 1,
                1 - (pp as int) % 2,
            );
        }
        -q - 1
    }
}

/// The product of two scalars (see `product`), or `None` when it does not
/// fit a raw scalar.
pub fn checked_product(a: i64, b: i64) -> (r: Option<i64>)
    ensures
        r is Some <==> in_range(mul_spec(a as int, b as int)),
        r matches Some(v) ==> v == mul_spec(a as int, b as int),
{
    proof {
        assert(-0x8000_0000_0000_0000 * 0x8000_0000_0000_0000 <= (a as int) * (b as int)
            <= 0x8000_0000_0000_0000 * 0x8000_0000_0000_0000) by (nonlinear_arith)
            requires
                -0x8000_0000_0000_0000 <= a <= 0x7fff_ffff_ffff_ffff,
                -0x8000_0000_0000_0000 <= b <= 0x7fff_ffff_ffff_ffff,
        ;
    }
    let p = (a as i128) * (b as i128);
    let q = floor_div_i128(p, ONE as i128);
    if i64::MIN as i128 <= q && q <= i64::MAX as i128 {
        Some(q as i64)
    } else {
        None
    }
}

/// The quotient of two scalars (see `quotient`), or `None` when it does
/// not fit a raw scalar.
pub fn checked_quotient(a: i64, b: i64) -> (r: Option<i64>)
    requires
        b != 0,
    ensures
        r is Some <==> in_range(div_spec(a as int, b as int)),
        r matches Some(v) ==> v == div_spec(a as int, b as int),
{
    proof {
        assert(-0x8000_0000_0000_0000 * 0x1_0000_0000 <= (a as int) * ONE <= 0x8000_0000_0000_0000
            * 0x1_0000_0000) by (nonlinear_arith)
            requires
                -0x8000_0000_0000_0000 <= a <= 0x7fff_ffff_ffff_ffff,
        ;
        assert(-(a as int) * ONE == -((a as int) * ONE)) by (nonlinear_arith);
    }
    let q = if b > 0 {
        floor_div_i128((a as i128) * (ONE as i128), b as i128)
    } else {
        floor_div_i128(-(a as i128) * (ONE as i128), -(b as i128))
    };
    if i64::MIN as i128 <= q && q <= i64::MAX as i128 {
        Some(q as i64)
    } else {
        None
    }
}

/// The sum of two raw scalars, or `None` when it does not fit.
pub fn checked_sum(a: i64, b: i64) -> (r: Option<i64>)
    ensures
        r is Some <==> in_range(a + b),
        r matches Some(v) ==> v == a + b,
{
    let s = (a as i128) + (b as i128);
    if i64::MIN as i128 <= s && s <= i64::MAX as i128 {
        Some(s as i64)
    } else {
        None
    }
}

} // verus!
