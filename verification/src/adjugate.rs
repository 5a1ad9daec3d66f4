//! The adjugate identity for 4 by 4 matrices (a row times the cofactors of
//! a row is the determinant when the rows are the same and zero otherwise),
//! and what it gives the inverse: multiplying by it undoes a multiplication.
use vstd::prelude::*;
use crate::fixed::{abs_int, div_spec, mul_spec, ONE};
use crate::matrix::{
    sub_spec, det_spec, cofactor_spec, expansion, skip_index, product_entry, inverse_spec,
};

verus! {

/// The determinant of the 3 by 3 matrix with rows `x`, `y` and `z`,
/// expanded along the first row, in exact arithmetic.
pub open spec fn det3_poly(
    x0: int,
    x1: int,
    x2: int,
    y0: int,
    y1: int,
    y2: int,
    z0: int,
    z1: int,
    z2: int,
) -> int {
    x0 * (y1 * z2 - y2 * z1) - x1 * (y0 * z2 - y2 * z0) + x2 * (y0 * z1 - y1 * z0)
}

/// The exact minor of row `r` and column `c` of a 4 by 4 matrix.
pub open spec fn minor_poly(m: Seq<Seq<i64>>, r: int, c: int) -> int {
    let s = sub_spec(m, r, c);
    det3_poly(
        s[0][0] as int,
        s[0][1] as int,
        s[0][2] as int,
        s[1][0] as int,
        s[1][1] as int,
        s[1][2] as int,
        s[2][0] as int,
        s[2][1] as int,
        s[2][2] as int,
    )
}

/// The exact cofactor of row `r` and column `c` of a 4 by 4 matrix.
pub open spec fn cofactor_poly(m: Seq<Seq<i64>>, r: int, c: int) -> int {
    if (r + c) % 2 == 0 {
        minor_poly(m, r, c)
    } else {
        -minor_poly(m, r, c)
    }
}

/// Row `i` of a 4 by 4 matrix times the cofactors of row `j`, in exact
/// arithmetic.
pub open spec fn row_cofactor_sum(m: Seq<Seq<i64>>, i: int, j: int) -> int {
    m[i][0] * cofactor_poly(m, j, 0) + m[i][1] * cofactor_poly(m, j, 1) + m[i][2] * cofactor_poly(
        m,
        j,
        2,
    ) + m[i][3] * cofactor_poly(m, j, 3)
}

/// A product of four factors, written in each order that puts `u` among
/// `x`, `y` and `z` kept in their order.
proof fn lemma_insert4(u: int, x: int, y: int, z: int)
    ensures
        ((u * x) * y) * z == ((x * u) * y) * z,
        ((u * x) * y) * z == ((x * y) * u) * z,
        ((u * x) * y) * z == ((x * y) * z) * u,
{
    assert(((u * x) * y) * z == ((x * u) * y) * z) by (nonlinear_arith);
    assert(((u * x) * y) * z == ((x * y) * u) * z) by (nonlinear_arith);
    assert(((u * x) * y) * z == ((x * y) * z) * u) by (nonlinear_arith);
}

/// `u` times one term of a 3 by 3 determinant.
proof fn lemma_scale_term(u: int, x: int, p: int, q: int, r: int, s: int)
    ensures
        u * (x * (p * q - r * s)) == ((u * x) * p) * q - ((u * x) * r) * s,
{
    vstd::arithmetic::mul::lemma_mul_is_associative(u, x, p * q - r * s);
    vstd::arithmetic::mul::lemma_mul_is_distributive_sub(u * x, p * q, r * s);
    vstd::arithmetic::mul::lemma_mul_is_associative(u * x, p, q);
    vstd::arithmetic::mul::lemma_mul_is_associative(u * x, r, s);
}

/// `u` times a 3 by 3 determinant, as a sum of products of four factors.
proof fn lemma_scale_det3(
    u: int,
    x0: int,
    x1: int,
    x2: int,
    y0: int,
    y1: int,
    y2: int,
    z0: int,
    z1: int,
    z2: int,
)
    ensures
        u * det3_poly(x0, x1, x2, y0, y1, y2, z0, z1, z2) == ((u * x0) * y1) * z2 - ((u * x0) * y2)
            * z1 - ((u * x1) * y0) * z2 + ((u * x1) * y2) * z0 + ((u * x2) * y0) * z1 - ((u * x2)
            * y1) * z0,
        ((u * x0) * y1) * z2 == ((x0 * u) * y1) * z2,
        ((u * x0) * y1) * z2 == ((x0 * y1) * u) * z2,
        ((u * x0) * y1) * z2 == ((x0 * y1) * z2) * u,
        ((u * x0) * y2) * z1 == ((x0 * u) * y2) * z1,
        ((u * x0) * y2) * z1 == ((x0 * y2) * u) * z1,
        ((u * x0) * y2) * z1 == ((x0 * y2) * z1) * u,
        ((u * x1) * y0) * z2 == ((x1 * u) * y0) * z2,
        ((u * x1) * y0) * z2 == ((x1 * y0) * u) * z2,
        ((u * x1) * y0) * z2 == ((x1 * y0) * z2) * u,
        ((u * x1) * y2) * z0 == ((x1 * u) * y2) * z0,
        ((u * x1) * y2) * z0 == ((x1 * y2) * u) * z0,
        ((u * x1) * y2) * z0 == ((x1 * y2) * z0) * u,
        ((u * x2) * y0) * z1 == ((x2 * u) * y0) * z1,
        ((u * x2) * y0) * z1 == ((x2 * y0) * u) * z1,
        ((u * x2) * y0) * z1 == ((x2 * y0) * z1) * u,
        ((u * x2) * y1) * z0 == ((x2 * u) * y1) * z0,
        ((u * x2) * y1) * z0 == ((x2 * y1) * u) * z0,
        ((u * x2) * y1) * z0 == ((x2 * y1) * z0) * u,
{
    let a = y1 * z2 - y2 * z1;
    let b = y0 * z2 - y2 * z0;
    let c = y0 * z1 - y1 * z0;
    vstd::arithmetic::mul::lemma_mul_is_distributive_add(u, x0 * a - x1 * b, x2 * c);
    vstd::arithmetic::mul::lemma_mul_is_distributive_sub(u, x0 * a, x1 * b);
    lemma_scale_term(u, x0, y1, z2, y2, z1);
    lemma_scale_term(u, x1, y0, z2, y2, z0);
    lemma_scale_term(u, x2, y0, z1, y1, z0);
    lemma_insert4(u, x0, y1, z2);
    lemma_insert4(u, x0, y2, z1);
    lemma_insert4(u, x1, y0, z2);
    lemma_insert4(u, x1, y2, z0);
    lemma_insert4(u, x2, y0, z1);
    lemma_insert4(u, x2, y1, z0);
}

/// The adjugate identity: row `i` of a 4 by 4 matrix times the cofactors of
/// row `j` is the determinant (the expansion along the first row) when
/// `i == j`, and zero otherwise.
pub proof fn lemma_adjugate_rows(m: Seq<Seq<i64>>)
    requires
        m.len() == 4,
        forall|r: int| 0 <= r < 4 ==> (#[trigger] m[r]).len() == 4,
    ensures
        forall|i: int, j: int|
            0 <= i < 4 && 0 <= j < 4 ==> #[trigger] row_cofactor_sum(m, i, j) == if i == j {
                row_cofactor_sum(m, 0, 0)
            } else {
                0
            },
{
    let m00 = m[0][0] as int;
    let m01 = m[0][1] as int;
    let m02 = m[0][2] as int;
    let m03 = m[0][3] as int;
    let m10 = m[1][0] as int;
    let m11 = m[1][1] as int;
    let m12 = m[1][2] as int;
    let m13 = m[1][3] as int;
    let m20 = m[2][0] as int;
    let m21 = m[2][1] as int;
    let m22 = m[2][2] as int;
    let m23 = m[2][3] as int;
    let m30 = m[3][0] as int;
    let m31 = m[3][1] as int;
    let m32 = m[3][2] as int;
    let m33 = m[3][3] as int;
    // each minor in terms of the entries; an odd cofactor negates its minor
    assert(minor_poly(m, 0, 0) == det3_poly(m11, m12, m13, m21, m22, m23, m31, m32, m33));
    assert(minor_poly(m, 0, 1) == det3_poly(m10, m12, m13, m20, m22, m23, m30, m32, m33));
    vstd::arithmetic::mul::lemma_mul_unary_negation(m01, minor_poly(m, 0, 1));
    vstd::arithmetic::mul::lemma_mul_unary_negation(m11, minor_poly(m, 0, 1));
    vstd::arithmetic::mul::lemma_mul_unary_negation(m21, minor_poly(m, 0, 1));
    vstd::arithmetic::mul::lemma_mul_unary_negation(m31, minor_poly(m, 0, 1));
    assert(minor_poly(m, 0, 2) == det3_poly(m10, m11, m13, m20, m21, m23, m30, m31, m33));
    assert(minor_poly(m, 0, 3) == det3_poly(m10, m11, m12, m20, m21, m22, m30, m31, m32));
    vstd::arithmetic::mul::lemma_mul_unary_negation(m03, minor_poly(m, 0, 3));
    vstd::arithmetic::mul::lemma_mul_unary_negation(m13, minor_poly(m, 0, 3));
    vstd::arithmetic::mul::lemma_mul_unary_negation(m23, minor_poly(m, 0, 3));
    vstd::arithmetic::mul::lemma_mul_unary_negation(m33, minor_poly(m, 0, 3));
    assert(minor_poly(m, 1, 0) == det3_poly(m01, m02, m03, m21, m22, m23, m31, m32, m33));
    vstd::arithmetic::mul::lemma_mul_unary_negation(m00, minor_poly(m, 1, 0));
    vstd::arithmetic::mul::lemma_mul_unary_negation(m10, minor_poly(m, 1, 0));
    vstd::arithmetic::mul::lemma_mul_unary_negation(m20, minor_poly(m, 1, 0));
    vstd::arithmetic::mul::lemma_mul_unary_negation(m30, minor_poly(m, 1, 0));
    assert(minor_poly(m, 1, 1) == det3_poly(m00, m02, m03, m20, m22, m23, m30, m32, m33));
    assert(minor_poly(m, 1, 2) == det3_poly(m00, m01, m03, m20, m21, m23, m30, m31, m33));
    vstd::arithmetic::mul::lemma_mul_unary_negation(m02, minor_poly(m, 1, 2));
    vstd::arithmetic::mul::lemma_mul_unary_negation(m12, minor_poly(m, 1, 2));
    vstd::arithmetic::mul::lemma_mul_unary_negation(m22, minor_poly(m, 1, 2));
    vstd::arithmetic::mul::lemma_mul_unary_negation(m32, minor_poly(m, 1, 2));
    assert(minor_poly(m, 1, 3) == det3_poly(m00, m01, m02, m20, m21, m22, m30, m31, m32));
    assert(minor_poly(m, 2, 0) == det3_poly(m01, m02, m03, m11, m12, m13, m31, m32, m33));
    assert(minor_poly(m, 2, 1) == det3_poly(m00, m02, m03, m10, m12, m13, m30, m32, m33));
    vstd::arithmetic::mul::lemma_mul_unary_negation(m01, minor_poly(m, 2, 1));
    vstd::arithmetic::mul::lemma_mul_unary_negation(m11, minor_poly(m, 2, 1));
    vstd::arithmetic::mul::lemma_mul_unary_negation(m21, minor_poly(m, 2, 1));
    vstd::arithmetic::mul::lemma_mul_unary_negation(m31, minor_poly(m, 2, 1));
    assert(minor_poly(m, 2, 2) == det3_poly(m00, m01, m03, m10, m11, m13, m30, m31, m33));
    assert(minor_poly(m, 2, 3) == det3_poly(m00, m01, m02, m10, m11, m12, m30, m31, m32));
    vstd::arithmetic::mul::lemma_mul_unary_negation(m03, minor_poly(m, 2, 3));
    vstd::arithmetic::mul::lemma_mul_unary_negation(m13, minor_poly(m, 2, 3));
    vstd::arithmetic::mul::lemma_mul_unary_negation(m23, minor_poly(m, 2, 3));
    vstd::arithmetic::mul::lemma_mul_unary_negation(m33, minor_poly(m, 2, 3));
    assert(minor_poly(m, 3, 0) == det3_poly(m01, m02, m03, m11, m12, m13, m21, m22, m23));
    vstd::arithmetic::mul::lemma_mul_unary_negation(m00, minor_poly(m, 3, 0));
    vstd::arithmetic::mul::lemma_mul_unary_negation(m10, minor_poly(m, 3, 0));
    vstd::arithmetic::mul::lemma_mul_unary_negation(m20, minor_poly(m, 3, 0));
    vstd::arithmetic::mul::lemma_mul_unary_negation(m30, minor_poly(m, 3, 0));
    assert(minor_poly(m, 3, 1) == det3_poly(m00, m02, m03, m10, m12, m13, m20, m22, m23));
    assert(minor_poly(m, 3, 2) == det3_poly(m00, m01, m03, m10, m11, m13, m20, m21, m23));
    vstd::arithmetic::mul::lemma_mul_unary_negation(m02, minor_poly(m, 3, 2));
    vstd::arithmetic::mul::lemma_mul_unary_negation(m12, minor_poly(m, 3, 2));
    vstd::arithmetic::mul::lemma_mul_unary_negation(m22, minor_poly(m, 3, 2));
    vstd::arithmetic::mul::lemma_mul_unary_negation(m32, minor_poly(m, 3, 2));
    assert(minor_poly(m, 3, 3) == det3_poly(m00, m01, m02, m10, m11, m12, m20, m21, m22));
    // each row times the cofactors of each row, as sums of products of four
    // entries: the products cancel in pairs unless the rows are the same
    assert(row_cofactor_sum(m, 0, 1) == 0) by {
        lemma_scale_det3(m00, m01, m02, m03, m21, m22, m23, m31, m32, m33);
        lemma_scale_det3(m01, m00, m02, m03, m20, m22, m23, m30, m32, m33);
        lemma_scale_det3(m02, m00, m01, m03, m20, m21, m23, m30, m31, m33);
        lemma_scale_det3(m03, m00, m01, m02, m20, m21, m22, m30, m31, m32);
    }
    assert(row_cofactor_sum(m, 0, 2) == 0) by {
        lemma_scale_det3(m00, m01, m02, m03, m11, m12, m13, m31, m32, m33);
        lemma_scale_det3(m01, m00, m02, m03, m10, m12, m13, m30, m32, m33);
        lemma_scale_det3(m02, m00, m01, m03, m10, m11, m13, m30, m31, m33);
        lemma_scale_det3(m03, m00, m01, m02, m10, m11, m12, m30, m31, m32);
    }
    assert(row_cofactor_sum(m, 0, 3) == 0) by {
        lemma_scale_det3(m00, m01, m02, m03, m11, m12, m13, m21, m22, m23);
        lemma_scale_det3(m01, m00, m02, m03, m10, m12, m13, m20, m22, m23);
        lemma_scale_det3(m02, m00, m01, m03, m10, m11, m13, m20, m21, m23);
        lemma_scale_det3(m03, m00, m01, m02, m10, m11, m12, m20, m21, m22);
    }
    assert(row_cofactor_sum(m, 1, 0) == 0) by {
        lemma_scale_det3(m10, m11, m12, m13, m21, m22, m23, m31, m32, m33);
        lemma_scale_det3(m11, m10, m12, m13, m20, m22, m23, m30, m32, m33);
        lemma_scale_det3(m12, m10, m11, m13, m20, m21, m23, m30, m31, m33);
        lemma_scale_det3(m13, m10, m11, m12, m20, m21, m22, m30, m31, m32);
    }
    assert(row_cofactor_sum(m, 1, 1) == row_cofactor_sum(m, 0, 0)) by {
        lemma_scale_det3(m10, m01, m02, m03, m21, m22, m23, m31, m32, m33);
        lemma_scale_det3(m11, m00, m02, m03, m20, m22, m23, m30, m32, m33);
        lemma_scale_det3(m12, m00, m01, m03, m20, m21, m23, m30, m31, m33);
        lemma_scale_det3(m13, m00, m01, m02, m20, m21, m22, m30, m31, m32);
        lemma_scale_det3(m00, m11, m12, m13, m21, m22, m23, m31, m32, m33);
        lemma_scale_det3(m01, m10, m12, m13, m20, m22, m23, m30, m32, m33);
        lemma_scale_det3(m02, m10, m11, m13, m20, m21, m23, m30, m31, m33);
        lemma_scale_det3(m03, m10, m11, m12, m20, m21, m22, m30, m31, m32);
    }
    assert(row_cofactor_sum(m, 1, 2) == 0) by {
        lemma_scale_det3(m10, m01, m02, m03, m11, m12, m13, m31, m32, m33);
        lemma_scale_det3(m11, m00, m02, m03, m10, m12, m13, m30, m32, m33);
        lemma_scale_det3(m12, m00, m01, m03, m10, m11, m13, m30, m31, m33);
        lemma_scale_det3(m13, m00, m01, m02, m10, m11, m12, m30, m31, m32);
    }
    assert(row_cofactor_sum(m, 1, 3) == 0) by {
        lemma_scale_det3(m10, m01, m02, m03, m11, m12, m13, m21, m22, m23);
        lemma_scale_det3(m11, m00, m02, m03, m10, m12, m13, m20, m22, m23);
        lemma_scale_det3(m12, m00, m01, m03, m10, m11, m13, m20, m21, m23);
        lemma_scale_det3(m13, m00, m01, m02, m10, m11, m12, m20, m21, m22);
    }
    assert(row_cofactor_sum(m, 2, 0) == 0) by {
        lemma_scale_det3(m20, m11, m12, m13, m21, m22, m23, m31, m32, m33);
        lemma_scale_det3(m21, m10, m12, m13, m20, m22, m23, m30, m32, m33);
        lemma_scale_det3(m22, m10, m11, m13, m20, m21, m23, m30, m31, m33);
        lemma_scale_det3(m23, m10, m11, m12, m20, m21, m22, m30, m31, m32);
    }
    assert(row_cofactor_sum(m, 2, 1) == 0) by {
        lemma_scale_det3(m20, m01, m02, m03, m21, m22, m23, m31, m32, m33);
        lemma_scale_det3(m21, m00, m02, m03, m20, m22, m23, m30, m32, m33);
        lemma_scale_det3(m22, m00, m01, m03, m20, m21, m23, m30, m31, m33);
        lemma_scale_det3(m23, m00, m01, m02, m20, m21, m22, m30, m31, m32);
    }
    assert(row_cofactor_sum(m, 2, 2) == row_cofactor_sum(m, 0, 0)) by {
        lemma_scale_det3(m20, m01, m02, m03, m11, m12, m13, m31, m32, m33);
        lemma_scale_det3(m21, m00, m02, m03, m10, m12, m13, m30, m32, m33);
        lemma_scale_det3(m22, m00, m01, m03, m10, m11, m13, m30, m31, m33);
        lemma_scale_det3(m23, m00, m01, m02, m10, m11, m12, m30, m31, m32);
        lemma_scale_det3(m00, m11, m12, m13, m21, m22, m23, m31, m32, m33);
        lemma_scale_det3(m01, m10, m12, m13, m20, m22, m23, m30, m32, m33);
        lemma_scale_det3(m02, m10, m11, m13, m20, m21, m23, m30, m31, m33);
        lemma_scale_det3(m03, m10, m11, m12, m20, m21, m22, m30, m31, m32);
    }
    assert(row_cofactor_sum(m, 2, 3) == 0) by {
        lemma_scale_det3(m20, m01, m02, m03, m11, m12, m13, m21, m22, m23);
        lemma_scale_det3(m21, m00, m02, m03, m10, m12, m13, m20, m22, m23);
        lemma_scale_det3(m22, m00, m01, m03, m10, m11, m13, m20, m21, m23);
        lemma_scale_det3(m23, m00, m01, m02, m10, m11, m12, m20, m21, m22);
    }
    assert(row_cofactor_sum(m, 3, 0) == 0) by {
        lemma_scale_det3(m30, m11, m12, m13, m21, m22, m23, m31, m32, m33);
        lemma_scale_det3(m31, m10, m12, m13, m20, m22, m23, m30, m32, m33);
        lemma_scale_det3(m32, m10, m11, m13, m20, m21, m23, m30, m31, m33);
        lemma_scale_det3(m33, m10, m11, m12, m20, m21, m22, m30, m31, m32);
    }
    assert(row_cofactor_sum(m, 3, 1) == 0) by {
        lemma_scale_det3(m30, m01, m02, m03, m21, m22, m23, m31, m32, m33);
        lemma_scale_det3(m31, m00, m02, m03, m20, m22, m23, m30, m32, m33);
        lemma_scale_det3(m32, m00, m01, m03, m20, m21, m23, m30, m31, m33);
        lemma_scale_det3(m33, m00, m01, m02, m20, m21, m22, m30, m31, m32);
    }
    assert(row_cofactor_sum(m, 3, 2) == 0) by {
        lemma_scale_det3(m30, m01, m02, m03, m11, m12, m13, m31, m32, m33);
        lemma_scale_det3(m31, m00, m02, m03, m10, m12, m13, m30, m32, m33);
        lemma_scale_det3(m32, m00, m01, m03, m10, m11, m13, m30, m31, m33);
        lemma_scale_det3(m33, m00, m01, m02, m10, m11, m12, m30, m31, m32);
    }
    assert(row_cofactor_sum(m, 3, 3) == row_cofactor_sum(m, 0, 0)) by {
        lemma_scale_det3(m30, m01, m02, m03, m11, m12, m13, m21, m22, m23);
        lemma_scale_det3(m31, m00, m02, m03, m10, m12, m13, m20, m22, m23);
        lemma_scale_det3(m32, m00, m01, m03, m10, m11, m13, m20, m21, m23);
        lemma_scale_det3(m33, m00, m01, m02, m10, m11, m12, m20, m21, m22);
        lemma_scale_det3(m00, m11, m12, m13, m21, m22, m23, m31, m32, m33);
        lemma_scale_det3(m01, m10, m12, m13, m20, m22, m23, m30, m32, m33);
        lemma_scale_det3(m02, m10, m11, m13, m20, m21, m23, m30, m31, m33);
        lemma_scale_det3(m03, m10, m11, m12, m20, m21, m22, m30, m31, m32);
    }
}


/// Whether every entry of the square matrix `m` is a whole number.
pub open spec fn whole_entries(m: Seq<Seq<i64>>) -> bool {
    &&& forall|r: int| 0 <= r < m.len() ==> (#[trigger] m[r]).len() == m.len()
    &&& forall|r: int, c: int| 0 <= r < m.len() && 0 <= c < m.len() ==> #[trigger] m[r][c] % ONE == 0
}

/// A product whose second factor is a whole number is not rounded.
proof fn lemma_mul_whole(c: int, v: int)
    requires
        v % (ONE as int) == 0,
    ensures
        ONE * mul_spec(c, v) == c * v,
{
    let q = v / ONE as int;
    assert(v == ONE * q);
    assert(c * v == ONE * (c * q)) by (nonlinear_arith)
        requires
            v == ONE * q,
    ;
    assert((ONE * (c * q)) / (ONE as int) == c * q) by (nonlinear_arith);
}

proof fn lemma_sub_whole(m: Seq<Seq<i64>>, r: int, c: int)
    requires
        m.len() >= 2,
        whole_entries(m),
        0 <= r < m.len(),
        0 <= c < m.len(),
    ensures
        whole_entries(sub_spec(m, r, c)),
        sub_spec(m, r, c).len() == m.len() - 1,
{
    let s = sub_spec(m, r, c);
    assert forall|i: int, j: int| 0 <= i < s.len() && 0 <= j < s.len() implies #[trigger] s[i][j] % ONE
        == 0 by {
        assert(s[i][j] == m[skip_index(i, r)][skip_index(j, c)]);
    }
}

proof fn lemma_det2_exact(m: Seq<Seq<i64>>)
    requires
        m.len() == 2,
        whole_entries(m),
    ensures
        ONE * det_spec(m) == m[0][0] * m[1][1] - m[0][1] * m[1][0],
{
    lemma_mul_whole(m[0][0] as int, m[1][1] as int);
    lemma_mul_whole(m[0][1] as int, m[1][0] as int);
}

/// One term of the expansion along the first row, scaled by `ONE`.
proof fn lemma_expansion_term(m: Seq<Seq<i64>>, k: int)
    requires
        m.len() >= 2,
        whole_entries(m),
        0 <= k < m.len(),
    ensures
        ONE * mul_spec(cofactor_spec(m, 0, k), m[0][k] as int) == (if k % 2 == 0 {
            1int
        } else {
            -1int
        }) * (m[0][k] * det_spec(sub_spec(m, 0, k))),
{
    lemma_mul_whole(cofactor_spec(m, 0, k), m[0][k] as int);
    let d = det_spec(sub_spec(m, 0, k));
    let v = m[0][k] as int;
    let cf = cofactor_spec(m, 0, k);
    assert(cf == (if k % 2 == 0 {
        d
    } else {
        -d
    }));
    assert(cf * v == (if k % 2 == 0 {
        1int
    } else {
        -1int
    }) * (v * d)) by (nonlinear_arith)
        requires
            cf == (if k % 2 == 0 {
                d
            } else {
                -d
            }),
    ;
}

proof fn lemma_det3_exact(m: Seq<Seq<i64>>)
    requires
        m.len() == 3,
        whole_entries(m),
    ensures
        ONE * ONE * det_spec(m) == det3_poly(
            m[0][0] as int,
            m[0][1] as int,
            m[0][2] as int,
            m[1][0] as int,
            m[1][1] as int,
            m[1][2] as int,
            m[2][0] as int,
            m[2][1] as int,
            m[2][2] as int,
        ),
{
    assert(det_spec(m) == mul_spec(cofactor_spec(m, 0, 0), m[0][0] as int) + mul_spec(
        cofactor_spec(m, 0, 1),
        m[0][1] as int,
    ) + mul_spec(cofactor_spec(m, 0, 2), m[0][2] as int)) by {
        assert(det_spec(m) == expansion(m, 3));
        assert(expansion(m, 0) == 0);
        assert(expansion(m, 1) == expansion(m, 0) + mul_spec(cofactor_spec(m, 0, 0), m[0][0] as int));
        assert(expansion(m, 2) == expansion(m, 1) + mul_spec(cofactor_spec(m, 0, 1), m[0][1] as int));
        assert(expansion(m, 3) == expansion(m, 2) + mul_spec(cofactor_spec(m, 0, 2), m[0][2] as int));
    }
    lemma_expansion_term(m, 0);
    lemma_expansion_term(m, 1);
    lemma_expansion_term(m, 2);
    let s0 = sub_spec(m, 0, 0);
    let s1 = sub_spec(m, 0, 1);
    let s2 = sub_spec(m, 0, 2);
    lemma_sub_whole(m, 0, 0);
    lemma_sub_whole(m, 0, 1);
    lemma_sub_whole(m, 0, 2);
    lemma_det2_exact(s0);
    lemma_det2_exact(s1);
    lemma_det2_exact(s2);
    assert(s0[0][0] == m[1][1] && s0[0][1] == m[1][2] && s0[1][0] == m[2][1] && s0[1][1] == m[2][2]);
    assert(s1[0][0] == m[1][0] && s1[0][1] == m[1][2] && s1[1][0] == m[2][0] && s1[1][1] == m[2][2]);
    assert(s2[0][0] == m[1][0] && s2[0][1] == m[1][1] && s2[1][0] == m[2][0] && s2[1][1] == m[2][1]);
    assert(ONE * ONE * det_spec(m) == ONE * ONE * mul_spec(cofactor_spec(m, 0, 0), m[0][0] as int)
        + ONE * ONE * mul_spec(cofactor_spec(m, 0, 1), m[0][1] as int) + ONE * ONE * mul_spec(
        cofactor_spec(m, 0, 2),
        m[0][2] as int,
    )) by (nonlinear_arith)
        requires
            det_spec(m) == mul_spec(cofactor_spec(m, 0, 0), m[0][0] as int) + mul_spec(
                cofactor_spec(m, 0, 1),
                m[0][1] as int,
            ) + mul_spec(cofactor_spec(m, 0, 2), m[0][2] as int),
    ;
    assert(0int % 2 == 0 && 1int % 2 == 1 && 2int % 2 == 0);
    let x0 = m[0][0] as int;
    let x1 = m[0][1] as int;
    let x2 = m[0][2] as int;
    let p0 = m[1][1] * m[2][2] - m[1][2] * m[2][1];
    let p1 = m[1][0] * m[2][2] - m[1][2] * m[2][0];
    let p2 = m[1][0] * m[2][1] - m[1][1] * m[2][0];
    let t0 = mul_spec(cofactor_spec(m, 0, 0), x0);
    let t1 = mul_spec(cofactor_spec(m, 0, 1), x1);
    let t2 = mul_spec(cofactor_spec(m, 0, 2), x2);
    assert(ONE * ONE * t0 == x0 * p0) by (nonlinear_arith)
        requires
            ONE * t0 == 1 * (x0 * det_spec(s0)),
            ONE * det_spec(s0) == p0,
    ;
    assert(ONE * ONE * t1 == -(x1 * p1)) by (nonlinear_arith)
        requires
            ONE * t1 == -1 * (x1 * det_spec(s1)),
            ONE * det_spec(s1) == p1,
    ;
    assert(ONE * ONE * t2 == x2 * p2) by (nonlinear_arith)
        requires
            ONE * t2 == 1 * (x2 * det_spec(s2)),
            ONE * det_spec(s2) == p2,
    ;
}


/// For whole-number entries the rounded cofactor is exact.
proof fn lemma_cofactor_exact(b: Seq<Seq<i64>>, r: int, c: int)
    requires
        b.len() == 4,
        whole_entries(b),
        0 <= r < 4,
        0 <= c < 4,
    ensures
        ONE * ONE * cofactor_spec(b, r, c) == cofactor_poly(b, r, c),
{
    lemma_sub_whole(b, r, c);
    lemma_det3_exact(sub_spec(b, r, c));
}

/// For whole-number entries the rounded determinant is exact.
proof fn lemma_det4_exact(b: Seq<Seq<i64>>)
    requires
        b.len() == 4,
        whole_entries(b),
    ensures
        ONE * ONE * ONE * det_spec(b) == row_cofactor_sum(b, 0, 0),
{
    let t0 = mul_spec(cofactor_spec(b, 0, 0), b[0][0] as int);
    let t1 = mul_spec(cofactor_spec(b, 0, 1), b[0][1] as int);
    let t2 = mul_spec(cofactor_spec(b, 0, 2), b[0][2] as int);
    let t3 = mul_spec(cofactor_spec(b, 0, 3), b[0][3] as int);
    assert(det_spec(b) == t0 + t1 + t2 + t3) by {
        assert(det_spec(b) == expansion(b, 4));
        assert(expansion(b, 0) == 0);
        assert(expansion(b, 1) == expansion(b, 0) + t0);
        assert(expansion(b, 2) == expansion(b, 1) + t1);
        assert(expansion(b, 3) == expansion(b, 2) + t2);
        assert(expansion(b, 4) == expansion(b, 3) + t3);
    }
    lemma_scaled_term(b, 0);
    lemma_scaled_term(b, 1);
    lemma_scaled_term(b, 2);
    lemma_scaled_term(b, 3);
    assert(ONE * ONE * ONE * det_spec(b) == ONE * ONE * ONE * t0 + ONE * ONE * ONE * t1 + ONE * ONE
        * ONE * t2 + ONE * ONE * ONE * t3) by (nonlinear_arith)
        requires
            det_spec(b) == t0 + t1 + t2 + t3,
    ;
}

proof fn lemma_scaled_term(b: Seq<Seq<i64>>, k: int)
    requires
        b.len() == 4,
        whole_entries(b),
        0 <= k < 4,
    ensures
        ONE * ONE * ONE * mul_spec(cofactor_spec(b, 0, k), b[0][k] as int) == b[0][k]
            * cofactor_poly(b, 0, k),
{
    let cf = cofactor_spec(b, 0, k);
    let v = b[0][k] as int;
    lemma_mul_whole(cf, v);
    lemma_cofactor_exact(b, 0, k);
    let t = mul_spec(cf, v);
    let cp = cofactor_poly(b, 0, k);
    assert(ONE * ONE * ONE * t == v * cp) by (nonlinear_arith)
        requires
            ONE * t == cf * v,
            ONE * ONE * cf == cp,
    ;
}


/// A rounded quotient times the divisor is within the divisor of the
/// dividend.
proof fn lemma_div_remainder(c: int, d: int)
    requires
        d != 0,
    ensures
        abs_int(c * ONE - d * div_spec(c, d)) < abs_int(d),
{
    let q = div_spec(c, d);
    if d > 0 {
        vstd::arithmetic::div_mod::lemma_fundamental_div_mod(c * ONE, d);
        assert(q == (c * ONE) / d);
        assert(0 <= (c * ONE) % d < d) by {
            vstd::arithmetic::div_mod::lemma_mod_bound(c * ONE, d);
        }
    } else {
        vstd::arithmetic::div_mod::lemma_fundamental_div_mod(-c * ONE, -d);
        assert(q == (-c * ONE) / (-d));
        assert(0 <= (-c * ONE) % (-d) < -d) by {
            vstd::arithmetic::div_mod::lemma_mod_bound(-c * ONE, -d);
        }
        assert(-c * ONE == (-d) * q + (-c * ONE) % (-d));
        assert((-d) * q == -(d * q)) by (nonlinear_arith);
        assert(-c * ONE == -(c * ONE)) by (nonlinear_arith);
    }
}

/// `ONE` times a rounded product is the exact product rounded down.
proof fn lemma_floor_product(x: int, y: int)
    ensures
        ONE * mul_spec(x, y) <= x * y < ONE * mul_spec(x, y) + ONE,
{
    vstd::arithmetic::div_mod::lemma_fundamental_div_mod(x * y, ONE as int);
}

/// Swapping the order of a double sum of products.
proof fn lemma_swap_sums(
    a0: int,
    a1: int,
    a2: int,
    a3: int,
    b: Seq<Seq<i64>>,
    c0: int,
    c1: int,
    c2: int,
    c3: int,
)
    requires
        b.len() == 4,
        forall|r: int| 0 <= r < 4 ==> (#[trigger] b[r]).len() == 4,
    ensures
        (a0 * b[0][0] + a1 * b[1][0] + a2 * b[2][0] + a3 * b[3][0]) * c0 + (a0 * b[0][1] + a1 * b[1][1]
            + a2 * b[2][1] + a3 * b[3][1]) * c1 + (a0 * b[0][2] + a1 * b[1][2] + a2 * b[2][2] + a3
            * b[3][2]) * c2 + (a0 * b[0][3] + a1 * b[1][3] + a2 * b[2][3] + a3 * b[3][3]) * c3 == a0
            * (b[0][0] * c0 + b[0][1] * c1 + b[0][2] * c2 + b[0][3] * c3) + a1 * (b[1][0] * c0
            + b[1][1] * c1 + b[1][2] * c2 + b[1][3] * c3) + a2 * (b[2][0] * c0 + b[2][1] * c1
            + b[2][2] * c2 + b[2][3] * c3) + a3 * (b[3][0] * c0 + b[3][1] * c1 + b[3][2] * c2
            + b[3][3] * c3),
{
    lemma_sum_times(a0 * b[0][0], a1 * b[1][0], a2 * b[2][0], a3 * b[3][0], c0);
    lemma_sum_times(a0 * b[0][1], a1 * b[1][1], a2 * b[2][1], a3 * b[3][1], c1);
    lemma_sum_times(a0 * b[0][2], a1 * b[1][2], a2 * b[2][2], a3 * b[3][2], c2);
    lemma_sum_times(a0 * b[0][3], a1 * b[1][3], a2 * b[2][3], a3 * b[3][3], c3);
    lemma_times_sum(a0, b[0][0] * c0, b[0][1] * c1, b[0][2] * c2, b[0][3] * c3);
    lemma_times_sum(a1, b[1][0] * c0, b[1][1] * c1, b[1][2] * c2, b[1][3] * c3);
    lemma_times_sum(a2, b[2][0] * c0, b[2][1] * c1, b[2][2] * c2, b[2][3] * c3);
    lemma_times_sum(a3, b[3][0] * c0, b[3][1] * c1, b[3][2] * c2, b[3][3] * c3);
    lemma_assoc_row(a0, a1, a2, a3, b[0][0] as int, b[1][0] as int, b[2][0] as int, b[3][0] as int, c0);
    lemma_assoc_row(a0, a1, a2, a3, b[0][1] as int, b[1][1] as int, b[2][1] as int, b[3][1] as int, c1);
    lemma_assoc_row(a0, a1, a2, a3, b[0][2] as int, b[1][2] as int, b[2][2] as int, b[3][2] as int, c2);
    lemma_assoc_row(a0, a1, a2, a3, b[0][3] as int, b[1][3] as int, b[2][3] as int, b[3][3] as int, c3);
}

proof fn lemma_sum_times(x0: int, x1: int, x2: int, x3: int, c: int)
    ensures
        (x0 + x1 + x2 + x3) * c == x0 * c + x1 * c + x2 * c + x3 * c,
{
    vstd::arithmetic::mul::lemma_mul_is_distributive_add_other_way(c, x0 + x1 + x2, x3);
    vstd::arithmetic::mul::lemma_mul_is_distributive_add_other_way(c, x0 + x1, x2);
    vstd::arithmetic::mul::lemma_mul_is_distributive_add_other_way(c, x0, x1);
}

proof fn lemma_times_sum(a: int, x0: int, x1: int, x2: int, x3: int)
    ensures
        a * (x0 + x1 + x2 + x3) == a * x0 + a * x1 + a * x2 + a * x3,
{
    vstd::arithmetic::mul::lemma_mul_is_distributive_add(a, x0 + x1 + x2, x3);
    vstd::arithmetic::mul::lemma_mul_is_distributive_add(a, x0 + x1, x2);
    vstd::arithmetic::mul::lemma_mul_is_distributive_add(a, x0, x1);
}

proof fn lemma_assoc_row(a0: int, a1: int, a2: int, a3: int, b0: int, b1: int, b2: int, b3: int, c: int)
    ensures
        (a0 * b0) * c == a0 * (b0 * c),
        (a1 * b1) * c == a1 * (b1 * c),
        (a2 * b2) * c == a2 * (b2 * c),
        (a3 * b3) * c == a3 * (b3 * c),
{
    vstd::arithmetic::mul::lemma_mul_is_associative(a0, b0, c);
    vstd::arithmetic::mul::lemma_mul_is_associative(a1, b1, c);
    vstd::arithmetic::mul::lemma_mul_is_associative(a2, b2, c);
    vstd::arithmetic::mul::lemma_mul_is_associative(a3, b3, c);
}


proof fn lemma_abs_mul(x: int, y: int)
    ensures
        abs_int(x * y) == abs_int(x) * abs_int(y),
{
    assert(abs_int(x * y) == abs_int(x) * abs_int(y)) by (nonlinear_arith);
}

proof fn lemma_remainder_term(d: int, p: int, q: int, k: int, r: int)
    requires
        r == k * ONE - d * q,
    ensures
        d * (p * q) == ONE * (p * k) - p * r,
{
    assert(d * (p * q) == ONE * (p * k) - p * r) by (nonlinear_arith)
        requires
            r == k * ONE - d * q,
    ;
}

/// The bound that ends the proof of `lemma_inverse_undoes_whole_product`.
proof fn lemma_final_bound(
    d: int,
    x: int,
    eps: int,
    p0: int,
    p1: int,
    p2: int,
    p3: int,
    r0: int,
    r1: int,
    r2: int,
    r3: int,
)
    requires
        d != 0,
        0 <= eps < 4 * ONE,
        abs_int(r0) < abs_int(d),
        abs_int(r1) < abs_int(d),
        abs_int(r2) < abs_int(d),
        abs_int(r3) < abs_int(d),
        d * x == -(d * eps) - (p0 * r0 + p1 * r1 + p2 * r2 + p3 * r3),
    ensures
        abs_int(x) <= 4 * ONE + abs_int(p0) + abs_int(p1) + abs_int(p2) + abs_int(p3),
{
    let ad = abs_int(d);
    let bound = 4 * ONE + abs_int(p0) + abs_int(p1) + abs_int(p2) + abs_int(p3);
    lemma_rounding_bound(d, eps, p0, p1, p2, p3, r0, r1, r2, r3);
    lemma_abs_mul(d, x);
    assert(abs_int(x) <= bound) by (nonlinear_arith)
        requires
            ad * abs_int(x) <= ad * bound,
            ad > 0,
    ;
}

/// One entry of `(a b) b^-1` (see `lemma_inverse_undoes_whole_product`).
proof fn lemma_entry_undone(
    a: Seq<Seq<i64>>,
    b: Seq<Seq<i64>>,
    ab: Seq<Seq<i64>>,
    inv: Seq<Seq<i64>>,
    i: int,
    j: int,
)
    requires
        a.len() == 4,
        forall|r: int| 0 <= r < 4 ==> (#[trigger] a[r]).len() == 4,
        b.len() == 4,
        whole_entries(b),
        det_spec(b) != 0,
        ab.len() == 4,
        forall|r: int| 0 <= r < 4 ==> (#[trigger] ab[r]).len() == 4,
        forall|r: int, c: int| 0 <= r < 4 && 0 <= c < 4 ==> #[trigger] ab[r][c] == product_entry(a, b, r, c),
        inv.len() == 4,
        forall|r: int| 0 <= r < 4 ==> (#[trigger] inv[r]).len() == 4,
        forall|r: int, c: int| 0 <= r < 4 && 0 <= c < 4 ==> #[trigger] inv[r][c] == inverse_spec(b)[r][c],
        0 <= i < 4,
        0 <= j < 4,
    ensures
        ONE * abs_int(product_entry(ab, inv, i, j) - a[i][j]) <= 4 * ONE + abs_int(ab[i][0] as int)
            + abs_int(ab[i][1] as int) + abs_int(ab[i][2] as int) + abs_int(ab[i][3] as int),
{
    let d = det_spec(b);
    let (a0, a1, a2, a3) = (a[i][0] as int, a[i][1] as int, a[i][2] as int, a[i][3] as int);
    let (p0, p1, p2, p3) = (ab[i][0] as int, ab[i][1] as int, ab[i][2] as int, ab[i][3] as int);
    let (q0, q1, q2, q3) = (inv[0][j] as int, inv[1][j] as int, inv[2][j] as int, inv[3][j] as int);
    let (k0, k1, k2, k3) = (
        cofactor_spec(b, j, 0),
        cofactor_spec(b, j, 1),
        cofactor_spec(b, j, 2),
        cofactor_spec(b, j, 3),
    );
    // the entries of the inverse
    assert(q0 == div_spec(k0, d) && q1 == div_spec(k1, d) && q2 == div_spec(k2, d) && q3 == div_spec(
        k3,
        d,
    ));
    lemma_div_remainder(k0, d);
    lemma_div_remainder(k1, d);
    lemma_div_remainder(k2, d);
    lemma_div_remainder(k3, d);
    let (r0, r1, r2, r3) = (k0 * ONE - d * q0, k1 * ONE - d * q1, k2 * ONE - d * q2, k3 * ONE - d * q3);
    // the entries of `a b` are exact
    assert forall|k: int| 0 <= k < 4 implies ONE * #[trigger] ab[i][k] == a0 * b[0][k] + a1 * b[1][k]
        + a2 * b[2][k] + a3 * b[3][k] by {
        lemma_mul_whole(a0, b[0][k] as int);
        lemma_mul_whole(a1, b[1][k] as int);
        lemma_mul_whole(a2, b[2][k] as int);
        lemma_mul_whole(a3, b[3][k] as int);
    }
    // the entry of `(a b) b^-1`, rounded down
    let e = product_entry(ab, inv, i, j);
    lemma_floor_product(p0, q0);
    lemma_floor_product(p1, q1);
    lemma_floor_product(p2, q2);
    lemma_floor_product(p3, q3);
    let spq = p0 * q0 + p1 * q1 + p2 * q2 + p3 * q3;
    let eps = spq - ONE * e;
    assert(0 <= eps < 4 * ONE);
    // the adjugate identity: the products with the cofactors give `a[i][j] * d`
    lemma_cofactor_exact(b, j, 0);
    lemma_cofactor_exact(b, j, 1);
    lemma_cofactor_exact(b, j, 2);
    lemma_cofactor_exact(b, j, 3);
    let (c0, c1, c2, c3) = (
        cofactor_poly(b, j, 0),
        cofactor_poly(b, j, 1),
        cofactor_poly(b, j, 2),
        cofactor_poly(b, j, 3),
    );
    lemma_swap_sums(a0, a1, a2, a3, b, c0, c1, c2, c3);
    lemma_adjugate_rows(b);
    lemma_det4_exact(b);
    let big = row_cofactor_sum(b, 0, 0);
    assert(row_cofactor_sum(b, 0, j) == (if j == 0 { big } else { 0 }));
    assert(row_cofactor_sum(b, 1, j) == (if j == 1 { big } else { 0 }));
    assert(row_cofactor_sum(b, 2, j) == (if j == 2 { big } else { 0 }));
    assert(row_cofactor_sum(b, 3, j) == (if j == 3 { big } else { 0 }));
    let aj = a[i][j] as int;
    assert(a0 * row_cofactor_sum(b, 0, j) + a1 * row_cofactor_sum(b, 1, j) + a2 * row_cofactor_sum(b, 2, j)
        + a3 * row_cofactor_sum(b, 3, j) == aj * big) by (nonlinear_arith)
        requires
            row_cofactor_sum(b, 0, j) == (if j == 0 { big } else { 0 }),
            row_cofactor_sum(b, 1, j) == (if j == 1 { big } else { 0 }),
            row_cofactor_sum(b, 2, j) == (if j == 2 { big } else { 0 }),
            row_cofactor_sum(b, 3, j) == (if j == 3 { big } else { 0 }),
            aj == (if j == 0 { a0 } else if j == 1 { a1 } else if j == 2 { a2 } else { a3 }),
            0 <= j < 4,
    ;
    let spk = p0 * k0 + p1 * k1 + p2 * k2 + p3 * k3;
    assert(spk == aj * d) by (nonlinear_arith)
        requires
            (ONE * p0) * c0 + (ONE * p1) * c1 + (ONE * p2) * c2 + (ONE * p3) * c3 == aj * big,
            big == ONE * ONE * ONE * d,
            ONE * ONE * k0 == c0,
            ONE * ONE * k1 == c1,
            ONE * ONE * k2 == c2,
            ONE * ONE * k3 == c3,
            spk == p0 * k0 + p1 * k1 + p2 * k2 + p3 * k3,
    ;
    // what the rounding of the inverse leaves
    lemma_remainder_term(d, p0, q0, k0, r0);
    lemma_remainder_term(d, p1, q1, k1, r1);
    lemma_remainder_term(d, p2, q2, k2, r2);
    lemma_remainder_term(d, p3, q3, k3, r3);
    lemma_times_sum(d, p0 * q0, p1 * q1, p2 * q2, p3 * q3);
    lemma_times_sum(ONE as int, p0 * k0, p1 * k1, p2 * k2, p3 * k3);
    assert(d * spq == ONE * spk - (p0 * r0 + p1 * r1 + p2 * r2 + p3 * r3));
    let x = ONE * (e - aj);
    assert(d * x == -(d * eps) - (p0 * r0 + p1 * r1 + p2 * r2 + p3 * r3)) by (nonlinear_arith)
        requires
            x == ONE * (e - aj),
            eps == spq - ONE * e,
            d * spq == ONE * spk - (p0 * r0 + p1 * r1 + p2 * r2 + p3 * r3),
            spk == aj * d,
    ;
    lemma_final_bound(d, x, eps, p0, p1, p2, p3, r0, r1, r2, r3);
    assert(abs_int(x) == ONE * abs_int(e - aj));
}

/// Multiplying by the inverse undoes a multiplication, within rounding,
/// where nothing but the products with `ab` is rounded: for 4 by 4
/// matrices `a` and `b`, where the entries of `b` are whole numbers (so its
/// determinant, its cofactors and `a b` are exact) and its determinant is
/// not zero, with `ab` the product of `a` and `b`
/// and `inv` the inverse of `b` (as `Matrix::multiply` and
/// `Matrix::inverse` compute them), each entry of the product of `ab` and
/// `inv` is within `4 + (|ab[i][0]| + |ab[i][1]| + |ab[i][2]| + |ab[i][3]|) / ONE`
/// raw units of the entry of `a`.
pub proof fn lemma_inverse_undoes_whole_product(
    a: Seq<Seq<i64>>,
    b: Seq<Seq<i64>>,
    ab: Seq<Seq<i64>>,
    inv: Seq<Seq<i64>>,
)
    requires
        a.len() == 4,
        forall|r: int| 0 <= r < 4 ==> (#[trigger] a[r]).len() == 4,
        b.len() == 4,
        whole_entries(b),
        det_spec(b) != 0,
        ab.len() == 4,
        forall|r: int| 0 <= r < 4 ==> (#[trigger] ab[r]).len() == 4,
        forall|r: int, c: int| 0 <= r < 4 && 0 <= c < 4 ==> #[trigger] ab[r][c] == product_entry(a, b, r, c),
        inv.len() == 4,
        forall|r: int| 0 <= r < 4 ==> (#[trigger] inv[r]).len() == 4,
        forall|r: int, c: int| 0 <= r < 4 && 0 <= c < 4 ==> #[trigger] inv[r][c] == inverse_spec(b)[r][c],
    ensures
        forall|i: int, j: int|
            0 <= i < 4 && 0 <= j < 4 ==> ONE * abs_int(#[trigger] product_entry(ab, inv, i, j) - a[i][j])
                <= 4 * ONE + abs_int(ab[i][0] as int) + abs_int(ab[i][1] as int) + abs_int(ab[i][2] as int)
                + abs_int(ab[i][3] as int),
{
    assert forall|i: int, j: int| 0 <= i < 4 && 0 <= j < 4 implies ONE * abs_int(
        #[trigger] product_entry(ab, inv, i, j) - a[i][j],
    ) <= 4 * ONE + abs_int(ab[i][0] as int) + abs_int(ab[i][1] as int) + abs_int(ab[i][2] as int)
        + abs_int(ab[i][3] as int) by {
        lemma_entry_undone(a, b, ab, inv, i, j);
    }
}


/// How far `ONE^3` times the rounded determinant of a 4 by 4 matrix is from
/// the exact determinant of its raw entries.
pub open spec fn det_error(b: Seq<Seq<i64>>) -> int {
    ONE * ONE * ONE * det_spec(b) - row_cofactor_sum(b, 0, 0)
}

/// How far `ONE^2` times the rounded cofactor of row `r` and column `c` is
/// from the exact cofactor of the raw entries.
pub open spec fn cofactor_error(b: Seq<Seq<i64>>, r: int, c: int) -> int {
    ONE * ONE * cofactor_spec(b, r, c) - cofactor_poly(b, r, c)
}

/// `ONE` times the exact entry at row `i` and column `k` of the product of
/// `a` and `b`.
pub open spec fn exact_product(a: Seq<Seq<i64>>, b: Seq<Seq<i64>>, i: int, k: int) -> int {
    a[i][0] * b[0][k] + a[i][1] * b[1][k] + a[i][2] * b[2][k] + a[i][3] * b[3][k]
}

/// What the rounding of the determinant, of the cofactors of row `j` and of
/// the product `a b` adds to the error of entry `(i, j)` of `(a b) b^-1`,
/// in units of `ONE^3` times the determinant.
pub open spec fn inverse_slack(a: Seq<Seq<i64>>, b: Seq<Seq<i64>>, i: int, j: int) -> int {
    abs_int(a[i][j] as int) * abs_int(det_error(b)) + abs_int(exact_product(a, b, i, 0)) * abs_int(
        cofactor_error(b, j, 0),
    ) + abs_int(exact_product(a, b, i, 1)) * abs_int(cofactor_error(b, j, 1)) + abs_int(
        exact_product(a, b, i, 2),
    ) * abs_int(cofactor_error(b, j, 2)) + abs_int(exact_product(a, b, i, 3)) * abs_int(
        cofactor_error(b, j, 3),
    ) + 4 * ONE * ONE * ONE * (abs_int(cofactor_spec(b, j, 0)) + abs_int(cofactor_spec(b, j, 1))
        + abs_int(cofactor_spec(b, j, 2)) + abs_int(cofactor_spec(b, j, 3)))
}

/// `|T| <= |d| (4 ONE + |p0| + |p1| + |p2| + |p3|)` for
/// `T = -(d eps) - (p0 r0 + p1 r1 + p2 r2 + p3 r3)`.
proof fn lemma_rounding_bound(
    d: int,
    eps: int,
    p0: int,
    p1: int,
    p2: int,
    p3: int,
    r0: int,
    r1: int,
    r2: int,
    r3: int,
)
    requires
        d != 0,
        0 <= eps < 4 * ONE,
        abs_int(r0) < abs_int(d),
        abs_int(r1) < abs_int(d),
        abs_int(r2) < abs_int(d),
        abs_int(r3) < abs_int(d),
    ensures
        abs_int(-(d * eps) - (p0 * r0 + p1 * r1 + p2 * r2 + p3 * r3)) <= abs_int(d) * (4 * ONE
            + abs_int(p0) + abs_int(p1) + abs_int(p2) + abs_int(p3)),
{
    let ad = abs_int(d);
    lemma_abs_mul(d, eps);
    lemma_abs_mul(p0, r0);
    lemma_abs_mul(p1, r1);
    lemma_abs_mul(p2, r2);
    lemma_abs_mul(p3, r3);
    assert(abs_int(p0) * abs_int(r0) <= abs_int(p0) * ad) by (nonlinear_arith)
        requires
            abs_int(r0) < ad,
            abs_int(p0) >= 0,
    ;
    assert(abs_int(p1) * abs_int(r1) <= abs_int(p1) * ad) by (nonlinear_arith)
        requires
            abs_int(r1) < ad,
            abs_int(p1) >= 0,
    ;
    assert(abs_int(p2) * abs_int(r2) <= abs_int(p2) * ad) by (nonlinear_arith)
        requires
            abs_int(r2) < ad,
            abs_int(p2) >= 0,
    ;
    assert(abs_int(p3) * abs_int(r3) <= abs_int(p3) * ad) by (nonlinear_arith)
        requires
            abs_int(r3) < ad,
            abs_int(p3) >= 0,
    ;
    assert(ad * eps <= ad * (4 * ONE)) by (nonlinear_arith)
        requires
            0 <= eps < 4 * ONE,
            ad > 0,
    ;
    let bound = 4 * ONE + abs_int(p0) + abs_int(p1) + abs_int(p2) + abs_int(p3);
    assert(ad * bound == ad * (4 * ONE) + abs_int(p0) * ad + abs_int(p1) * ad + abs_int(p2) * ad
        + abs_int(p3) * ad) by (nonlinear_arith)
        requires
            bound == 4 * ONE + abs_int(p0) + abs_int(p1) + abs_int(p2) + abs_int(p3),
    ;
}

/// One term of `ONE^3` times the sum of the products with the rounded
/// cofactors.
proof fn lemma_rounded_term(o: int, p: int, s: int, dl: int, cf: int, c: int, e: int)
    requires
        o * p == s - dl,
        o * o * cf == c + e,
    ensures
        o * o * o * (p * cf) == s * c + s * e - dl * (o * o * cf),
{
    assert((o * p) * (o * o * cf) == o * o * o * (p * cf)) by (nonlinear_arith);
    assert((s - dl) * (c + e) == s * c + s * e - dl * (c + e)) by (nonlinear_arith);
}

proof fn lemma_term_bound(o: int, s: int, e: int, dl: int, cf: int)
    requires
        o > 0,
        0 <= dl < 4 * o,
    ensures
        abs_int(s * e) == abs_int(s) * abs_int(e),
        abs_int(dl * (o * o * cf)) <= 4 * o * o * o * abs_int(cf),
{
    lemma_abs_mul(s, e);
    assert(abs_int(dl * (o * o * cf)) <= 4 * o * o * o * abs_int(cf)) by (nonlinear_arith)
        requires
            o > 0,
            0 <= dl < 4 * o,
    ;
}

/// One entry of `(a b) b^-1` for any invertible `b` (see
/// `lemma_inverse_undoes_product`).
proof fn lemma_entry_undone_rounded(
    a: Seq<Seq<i64>>,
    b: Seq<Seq<i64>>,
    ab: Seq<Seq<i64>>,
    inv: Seq<Seq<i64>>,
    i: int,
    j: int,
)
    requires
        a.len() == 4,
        forall|r: int| 0 <= r < 4 ==> (#[trigger] a[r]).len() == 4,
        b.len() == 4,
        forall|r: int| 0 <= r < 4 ==> (#[trigger] b[r]).len() == 4,
        det_spec(b) != 0,
        ab.len() == 4,
        forall|r: int| 0 <= r < 4 ==> (#[trigger] ab[r]).len() == 4,
        forall|r: int, c: int| 0 <= r < 4 && 0 <= c < 4 ==> #[trigger] ab[r][c] == product_entry(a, b, r, c),
        inv.len() == 4,
        forall|r: int| 0 <= r < 4 ==> (#[trigger] inv[r]).len() == 4,
        forall|r: int, c: int| 0 <= r < 4 && 0 <= c < 4 ==> #[trigger] inv[r][c] == inverse_spec(b)[r][c],
        0 <= i < 4,
        0 <= j < 4,
    ensures
        ONE * ONE * ONE * abs_int(det_spec(b)) * abs_int(product_entry(ab, inv, i, j) - a[i][j]) <= ONE
            * ONE * abs_int(det_spec(b)) * (4 * ONE + abs_int(ab[i][0] as int) + abs_int(ab[i][1] as int)
            + abs_int(ab[i][2] as int) + abs_int(ab[i][3] as int)) + inverse_slack(a, b, i, j),
{
    let o = ONE as int;
    let d = det_spec(b);
    let (a0, a1, a2, a3) = (a[i][0] as int, a[i][1] as int, a[i][2] as int, a[i][3] as int);
    let (p0, p1, p2, p3) = (ab[i][0] as int, ab[i][1] as int, ab[i][2] as int, ab[i][3] as int);
    let (q0, q1, q2, q3) = (inv[0][j] as int, inv[1][j] as int, inv[2][j] as int, inv[3][j] as int);
    let (k0, k1, k2, k3) = (
        cofactor_spec(b, j, 0),
        cofactor_spec(b, j, 1),
        cofactor_spec(b, j, 2),
        cofactor_spec(b, j, 3),
    );
    assert(q0 == div_spec(k0, d) && q1 == div_spec(k1, d) && q2 == div_spec(k2, d) && q3 == div_spec(
        k3,
        d,
    ));
    lemma_div_remainder(k0, d);
    lemma_div_remainder(k1, d);
    lemma_div_remainder(k2, d);
    lemma_div_remainder(k3, d);
    let (r0, r1, r2, r3) = (k0 * ONE - d * q0, k1 * ONE - d * q1, k2 * ONE - d * q2, k3 * ONE - d * q3);
    // the entries of `a b`, rounded down
    let (s0, s1, s2, s3) = (
        exact_product(a, b, i, 0),
        exact_product(a, b, i, 1),
        exact_product(a, b, i, 2),
        exact_product(a, b, i, 3),
    );
    assert forall|k: int| 0 <= k < 4 implies 0 <= exact_product(a, b, i, k) - ONE * #[trigger] ab[i][k]
        < 4 * ONE by {
        lemma_floor_product(a0, b[0][k] as int);
        lemma_floor_product(a1, b[1][k] as int);
        lemma_floor_product(a2, b[2][k] as int);
        lemma_floor_product(a3, b[3][k] as int);
    }
    let (l0, l1, l2, l3) = (s0 - o * p0, s1 - o * p1, s2 - o * p2, s3 - o * p3);
    assert(0 <= l0 < 4 * o && 0 <= l1 < 4 * o && 0 <= l2 < 4 * o && 0 <= l3 < 4 * o) by {
        assert(ab[i][0] == p0 && ab[i][1] == p1 && ab[i][2] == p2 && ab[i][3] == p3);
    }
    // the entry of `(a b) b^-1`, rounded down
    let e = product_entry(ab, inv, i, j);
    lemma_floor_product(p0, q0);
    lemma_floor_product(p1, q1);
    lemma_floor_product(p2, q2);
    lemma_floor_product(p3, q3);
    let spq = p0 * q0 + p1 * q1 + p2 * q2 + p3 * q3;
    let eps = spq - ONE * e;
    assert(0 <= eps < 4 * ONE);
    // the adjugate identity on the exact values
    let (c0, c1, c2, c3) = (
        cofactor_poly(b, j, 0),
        cofactor_poly(b, j, 1),
        cofactor_poly(b, j, 2),
        cofactor_poly(b, j, 3),
    );
    let (e0, e1, e2, e3) = (
        cofactor_error(b, j, 0),
        cofactor_error(b, j, 1),
        cofactor_error(b, j, 2),
        cofactor_error(b, j, 3),
    );
    lemma_swap_sums(a0, a1, a2, a3, b, c0, c1, c2, c3);
    lemma_adjugate_rows(b);
    let big = row_cofactor_sum(b, 0, 0);
    let aj = a[i][j] as int;
    assert(a0 * row_cofactor_sum(b, 0, j) + a1 * row_cofactor_sum(b, 1, j) + a2 * row_cofactor_sum(b, 2, j)
        + a3 * row_cofactor_sum(b, 3, j) == aj * big) by (nonlinear_arith)
        requires
            row_cofactor_sum(b, 0, j) == (if j == 0 { big } else { 0 }),
            row_cofactor_sum(b, 1, j) == (if j == 1 { big } else { 0 }),
            row_cofactor_sum(b, 2, j) == (if j == 2 { big } else { 0 }),
            row_cofactor_sum(b, 3, j) == (if j == 3 { big } else { 0 }),
            aj == (if j == 0 { a0 } else if j == 1 { a1 } else if j == 2 { a2 } else { a3 }),
            0 <= j < 4,
    ;
    assert(s0 * c0 + s1 * c1 + s2 * c2 + s3 * c3 == aj * big);
    // the products with the rounded cofactors
    lemma_rounded_term(o, p0, s0, l0, k0, c0, e0);
    lemma_rounded_term(o, p1, s1, l1, k1, c1, e1);
    lemma_rounded_term(o, p2, s2, l2, k2, c2, e2);
    lemma_rounded_term(o, p3, s3, l3, k3, c3, e3);
    let spk = p0 * k0 + p1 * k1 + p2 * k2 + p3 * k3;
    let ed = det_error(b);
    let g = -(aj * ed) + (s0 * e0 + s1 * e1 + s2 * e2 + s3 * e3) - (l0 * (o * o * k0) + l1 * (o * o
        * k1) + l2 * (o * o * k2) + l3 * (o * o * k3));
    lemma_times_sum(o * o * o, p0 * k0, p1 * k1, p2 * k2, p3 * k3);
    assert(o * o * o * (spk - aj * d) == g) by (nonlinear_arith)
        requires
            o * o * o * spk == o * o * o * (p0 * k0) + o * o * o * (p1 * k1) + o * o * o * (p2 * k2)
                + o * o * o * (p3 * k3),
            o * o * o * (p0 * k0) == s0 * c0 + s0 * e0 - l0 * (o * o * k0),
            o * o * o * (p1 * k1) == s1 * c1 + s1 * e1 - l1 * (o * o * k1),
            o * o * o * (p2 * k2) == s2 * c2 + s2 * e2 - l2 * (o * o * k2),
            o * o * o * (p3 * k3) == s3 * c3 + s3 * e3 - l3 * (o * o * k3),
            s0 * c0 + s1 * c1 + s2 * c2 + s3 * c3 == aj * big,
            ed == o * o * o * d - big,
            g == -(aj * ed) + (s0 * e0 + s1 * e1 + s2 * e2 + s3 * e3) - (l0 * (o * o * k0) + l1 * (o
                * o * k1) + l2 * (o * o * k2) + l3 * (o * o * k3)),
    ;
    // `g` is within the slack
    lemma_term_bound(o, s0, e0, l0, k0);
    lemma_term_bound(o, s1, e1, l1, k1);
    lemma_term_bound(o, s2, e2, l2, k2);
    lemma_term_bound(o, s3, e3, l3, k3);
    lemma_abs_mul(aj, ed);
    let slack = inverse_slack(a, b, i, j);
    assert(4 * o * o * o * (abs_int(k0) + abs_int(k1) + abs_int(k2) + abs_int(k3)) == 4 * o * o * o
        * abs_int(k0) + 4 * o * o * o * abs_int(k1) + 4 * o * o * o * abs_int(k2) + 4 * o * o * o
        * abs_int(k3)) by (nonlinear_arith);
    assert(abs_int(g) <= slack);
    // what the rounding of the inverse leaves
    lemma_remainder_term(d, p0, q0, k0, r0);
    lemma_remainder_term(d, p1, q1, k1, r1);
    lemma_remainder_term(d, p2, q2, k2, r2);
    lemma_remainder_term(d, p3, q3, k3, r3);
    lemma_times_sum(d, p0 * q0, p1 * q1, p2 * q2, p3 * q3);
    lemma_times_sum(o, p0 * k0, p1 * k1, p2 * k2, p3 * k3);
    let spr = p0 * r0 + p1 * r1 + p2 * r2 + p3 * r3;
    assert(d * spq == o * spk - spr);
    let t = -(d * eps) - spr;
    lemma_rounding_bound(d, eps, p0, p1, p2, p3, r0, r1, r2, r3);
    let bound = 4 * o + abs_int(p0) + abs_int(p1) + abs_int(p2) + abs_int(p3);
    let ad = abs_int(d);
    let x = e - aj;
    // `ONE^4 d (e - a) = ONE^3 (ONE (spk - a d) + t) = ONE g + ONE^3 t`
    assert(o * o * o * (o * (d * x)) == o * g + o * o * o * t) by (nonlinear_arith)
        requires
            o * o * o * (spk - aj * d) == g,
            eps == spq - o * e,
            d * spq == o * spk - spr,
            t == -(d * eps) - spr,
            x == e - aj,
    ;
    lemma_abs_mul(d, x);
    assert(o * o * o * o * (ad * abs_int(x)) <= o * slack + o * o * o * (ad * bound)) by (nonlinear_arith)
        requires
            o * o * o * (o * (d * x)) == o * g + o * o * o * t,
            abs_int(d * x) == ad * abs_int(x),
            abs_int(g) <= slack,
            abs_int(t) <= ad * bound,
            o > 0,
    ;
    assert(o * o * o * ad * abs_int(x) <= o * o * ad * bound + slack) by (nonlinear_arith)
        requires
            o * o * o * o * (ad * abs_int(x)) <= o * slack + o * o * o * (ad * bound),
            o > 0,
    ;
}

/// Multiplying by the inverse undoes a multiplication, within rounding, for
/// any invertible 4 by 4 matrix `b`: with `ab` the product of `a` and `b`
/// and `inv` the inverse of `b` (as `Matrix::multiply` and
/// `Matrix::inverse` compute them), and `d` the determinant of `b`, each
/// entry of the product of `ab` and `inv` differs from the entry of `a` by
/// at most `4 + (|ab[i][0]| + ... + |ab[i][3]|) / ONE` raw units plus
/// `inverse_slack(a, b, i, j) / (ONE^3 |d|)`: what the rounding of the
/// determinant, of the cofactors and of `a b` adds. For whole-number
/// entries of `b` see `lemma_inverse_undoes_whole_product`.
pub proof fn lemma_inverse_undoes_product(
    a: Seq<Seq<i64>>,
    b: Seq<Seq<i64>>,
    ab: Seq<Seq<i64>>,
    inv: Seq<Seq<i64>>,
)
    requires
        a.len() == 4,
        forall|r: int| 0 <= r < 4 ==> (#[trigger] a[r]).len() == 4,
        b.len() == 4,
        forall|r: int| 0 <= r < 4 ==> (#[trigger] b[r]).len() == 4,
        det_spec(b) != 0,
        ab.len() == 4,
        forall|r: int| 0 <= r < 4 ==> (#[trigger] ab[r]).len() == 4,
        forall|r: int, c: int| 0 <= r < 4 && 0 <= c < 4 ==> #[trigger] ab[r][c] == product_entry(a, b, r, c),
        inv.len() == 4,
        forall|r: int| 0 <= r < 4 ==> (#[trigger] inv[r]).len() == 4,
        forall|r: int, c: int| 0 <= r < 4 && 0 <= c < 4 ==> #[trigger] inv[r][c] == inverse_spec(b)[r][c],
    ensures
        forall|i: int, j: int|
            0 <= i < 4 && 0 <= j < 4 ==> ONE * ONE * ONE * abs_int(det_spec(b)) * abs_int(
                #[trigger] product_entry(ab, inv, i, j) - a[i][j],
            ) <= ONE * ONE * abs_int(det_spec(b)) * (4 * ONE + abs_int(ab[i][0] as int) + abs_int(
                ab[i][1] as int,
            ) + abs_int(ab[i][2] as int) + abs_int(ab[i][3] as int)) + inverse_slack(a, b, i, j),
{
    assert forall|i: int, j: int| 0 <= i < 4 && 0 <= j < 4 implies ONE * ONE * ONE * abs_int(
        det_spec(b),
    ) * abs_int(#[trigger] product_entry(ab, inv, i, j) - a[i][j]) <= ONE * ONE * abs_int(det_spec(b))
        * (4 * ONE + abs_int(ab[i][0] as int) + abs_int(ab[i][1] as int) + abs_int(ab[i][2] as int)
        + abs_int(ab[i][3] as int)) + inverse_slack(a, b, i, j) by {
        lemma_entry_undone_rounded(a, b, ab, inv, i, j);
    }
}


proof fn lemma_det2_error(m: Seq<Seq<i64>>)
    requires
        m.len() == 2,
        forall|r: int| 0 <= r < 2 ==> (#[trigger] m[r]).len() == 2,
    ensures
        abs_int(ONE * det_spec(m) - (m[0][0] * m[1][1] - m[0][1] * m[1][0])) < ONE,
{
    lemma_floor_product(m[0][0] as int, m[1][1] as int);
    lemma_floor_product(m[0][1] as int, m[1][0] as int);
}

/// One term of a rounded expansion along the first row against the exact
/// term, where `kk` times the rounded determinant of the submatrix stands
/// for its exact determinant `exact`.
proof fn lemma_error_term(o: int, kk: int, cf: int, v: int, t: int, sgn: int, dsub: int, exact: int)
    requires
        o > 0,
        kk > 0,
        o * t <= cf * v < o * t + o,
        sgn == 1 || sgn == -1,
        cf == sgn * dsub,
    ensures
        abs_int(kk * (o * t) - v * (sgn * exact)) <= abs_int(v) * abs_int(kk * dsub - exact) + kk * o,
{
    let dl = cf * v - o * t;
    let err = kk * dsub - exact;
    assert(o * t == cf * v - dl);
    vstd::arithmetic::mul::lemma_mul_is_distributive_sub(kk, cf * v, dl);
    vstd::arithmetic::mul::lemma_mul_is_associative(kk, cf, v);
    vstd::arithmetic::mul::lemma_mul_is_distributive_add_other_way(v, exact, err);
    vstd::arithmetic::mul::lemma_mul_is_commutative(exact, v);
    if sgn == 1 {
        assert(sgn * dsub == dsub && sgn * exact == exact) by (nonlinear_arith)
            requires
                sgn == 1,
        ;
        assert(cf == dsub);
        assert(kk * (o * t) - v * (sgn * exact) == err * v - kk * dl);
    } else {
        assert(sgn * dsub == -dsub && sgn * exact == -exact) by (nonlinear_arith)
            requires
                sgn == -1,
        ;
        assert(cf == -dsub);
        vstd::arithmetic::mul::lemma_mul_unary_negation(kk, dsub);
        vstd::arithmetic::mul::lemma_mul_unary_negation(exact + err, v);
        vstd::arithmetic::mul::lemma_mul_unary_negation(v, exact);
        assert(kk * (o * t) - v * (sgn * exact) == -(err * v) - kk * dl);
    }
    lemma_abs_mul(err, v);
    vstd::arithmetic::mul::lemma_mul_is_commutative(abs_int(err), abs_int(v));
    assert(0 <= kk * dl <= kk * o) by (nonlinear_arith)
        requires
            0 <= dl < o,
            kk > 0,
    ;
}

/// A cofactor's error is its minor's error, up to sign.
proof fn lemma_cofactor_error_abs(b: Seq<Seq<i64>>, r: int, c: int)
    requires
        b.len() == 4,
        0 <= r < 4,
        0 <= c < 4,
    ensures
        abs_int(cofactor_error(b, r, c)) == abs_int(ONE * ONE * det_spec(sub_spec(b, r, c)) - minor_poly(
            b,
            r,
            c,
        )),
        cofactor_spec(b, r, c) == (if (r + c) % 2 == 0 {
            det_spec(sub_spec(b, r, c))
        } else {
            -det_spec(sub_spec(b, r, c))
        }),
{
    let d = det_spec(sub_spec(b, r, c));
    let o = ONE as int;
    if (r + c) % 2 != 0 {
        vstd::arithmetic::mul::lemma_mul_unary_negation(o * o, d);
    }
}

proof fn lemma_det3_error(m: Seq<Seq<i64>>)
    requires
        m.len() == 3,
        forall|r: int| 0 <= r < 3 ==> (#[trigger] m[r]).len() == 3,
    ensures
        abs_int(ONE * ONE * det_spec(m) - det3_poly(
            m[0][0] as int,
            m[0][1] as int,
            m[0][2] as int,
            m[1][0] as int,
            m[1][1] as int,
            m[1][2] as int,
            m[2][0] as int,
            m[2][1] as int,
            m[2][2] as int,
        )) <= ONE * (abs_int(m[0][0] as int) + abs_int(m[0][1] as int) + abs_int(m[0][2] as int)) + 3
            * ONE * ONE,
{
    let o = ONE as int;
    let (v0, v1, v2) = (m[0][0] as int, m[0][1] as int, m[0][2] as int);
    let t0 = mul_spec(cofactor_spec(m, 0, 0), v0);
    let t1 = mul_spec(cofactor_spec(m, 0, 1), v1);
    let t2 = mul_spec(cofactor_spec(m, 0, 2), v2);
    assert(det_spec(m) == t0 + t1 + t2) by {
        assert(det_spec(m) == expansion(m, 3));
        assert(expansion(m, 0) == 0);
        assert(expansion(m, 1) == expansion(m, 0) + t0);
        assert(expansion(m, 2) == expansion(m, 1) + t1);
        assert(expansion(m, 3) == expansion(m, 2) + t2);
    }
    let s0 = sub_spec(m, 0, 0);
    let s1 = sub_spec(m, 0, 1);
    let s2 = sub_spec(m, 0, 2);
    assert(s0[0][0] == m[1][1] && s0[0][1] == m[1][2] && s0[1][0] == m[2][1] && s0[1][1] == m[2][2]);
    assert(s1[0][0] == m[1][0] && s1[0][1] == m[1][2] && s1[1][0] == m[2][0] && s1[1][1] == m[2][2]);
    assert(s2[0][0] == m[1][0] && s2[0][1] == m[1][1] && s2[1][0] == m[2][0] && s2[1][1] == m[2][1]);
    lemma_det2_error(s0);
    lemma_det2_error(s1);
    lemma_det2_error(s2);
    let p0 = m[1][1] * m[2][2] - m[1][2] * m[2][1];
    let p1 = m[1][0] * m[2][2] - m[1][2] * m[2][0];
    let p2 = m[1][0] * m[2][1] - m[1][1] * m[2][0];
    lemma_floor_product(cofactor_spec(m, 0, 0), v0);
    lemma_floor_product(cofactor_spec(m, 0, 1), v1);
    lemma_floor_product(cofactor_spec(m, 0, 2), v2);
    assert(0int % 2 == 0 && 1int % 2 == 1 && 2int % 2 == 0);
    lemma_error_term(o, o, cofactor_spec(m, 0, 0), v0, t0, 1, det_spec(s0), p0);
    lemma_error_term(o, o, cofactor_spec(m, 0, 1), v1, t1, -1, det_spec(s1), p1);
    lemma_error_term(o, o, cofactor_spec(m, 0, 2), v2, t2, 1, det_spec(s2), p2);
    vstd::arithmetic::mul::lemma_mul_unary_negation(v1, p1);
    assert(abs_int(v0) * abs_int(o * det_spec(s0) - p0) <= abs_int(v0) * o) by (nonlinear_arith)
        requires
            abs_int(o * det_spec(s0) - p0) < o,
    ;
    assert(abs_int(v1) * abs_int(o * det_spec(s1) - p1) <= abs_int(v1) * o) by (nonlinear_arith)
        requires
            abs_int(o * det_spec(s1) - p1) < o,
    ;
    assert(abs_int(v2) * abs_int(o * det_spec(s2) - p2) <= abs_int(v2) * o) by (nonlinear_arith)
        requires
            abs_int(o * det_spec(s2) - p2) < o,
    ;
    assert(o * o * det_spec(m) == o * (o * t0) + o * (o * t1) + o * (o * t2)) by (nonlinear_arith)
        requires
            det_spec(m) == t0 + t1 + t2,
    ;
    assert(o * (abs_int(v0) + abs_int(v1) + abs_int(v2)) == abs_int(v0) * o + abs_int(v1) * o
        + abs_int(v2) * o) by (nonlinear_arith);
}

/// How far the rounded cofactors and determinant of a 4 by 4 matrix are
/// from the exact ones (see `cofactor_error` and `det_error`): each
/// cofactor within `ONE` times the sum of the magnitudes of the first row
/// of its submatrix plus `3 ONE^2`, and the determinant within the sum of
/// the magnitudes of the first row's entries times the errors of their
/// cofactors, plus `4 ONE^3`.
pub proof fn lemma_det_rounding(b: Seq<Seq<i64>>)
    requires
        b.len() == 4,
        forall|r: int| 0 <= r < 4 ==> (#[trigger] b[r]).len() == 4,
    ensures
        forall|r: int, c: int|
            0 <= r < 4 && 0 <= c < 4 ==> abs_int(#[trigger] cofactor_error(b, r, c)) <= ONE * (abs_int(
                sub_spec(b, r, c)[0][0] as int,
            ) + abs_int(sub_spec(b, r, c)[0][1] as int) + abs_int(sub_spec(b, r, c)[0][2] as int)) + 3
                * ONE * ONE,
        abs_int(det_error(b)) <= abs_int(b[0][0] as int) * abs_int(cofactor_error(b, 0, 0)) + abs_int(
            b[0][1] as int,
        ) * abs_int(cofactor_error(b, 0, 1)) + abs_int(b[0][2] as int) * abs_int(
            cofactor_error(b, 0, 2),
        ) + abs_int(b[0][3] as int) * abs_int(cofactor_error(b, 0, 3)) + 4 * ONE * ONE * ONE,
{
    let o = ONE as int;
    assert forall|r: int, c: int| 0 <= r < 4 && 0 <= c < 4 implies abs_int(
        #[trigger] cofactor_error(b, r, c),
    ) <= ONE * (abs_int(sub_spec(b, r, c)[0][0] as int) + abs_int(sub_spec(b, r, c)[0][1] as int)
        + abs_int(sub_spec(b, r, c)[0][2] as int)) + 3 * ONE * ONE by {
        let sb = sub_spec(b, r, c);
        assert forall|i: int| 0 <= i < 3 implies (#[trigger] sb[i]).len() == 3 by {}
        lemma_det3_error(sb);
        lemma_cofactor_error_abs(b, r, c);
        assert(minor_poly(b, r, c) == det3_poly(
            sb[0][0] as int,
            sb[0][1] as int,
            sb[0][2] as int,
            sb[1][0] as int,
            sb[1][1] as int,
            sb[1][2] as int,
            sb[2][0] as int,
            sb[2][1] as int,
            sb[2][2] as int,
        ));
    }
    let t0 = mul_spec(cofactor_spec(b, 0, 0), b[0][0] as int);
    let t1 = mul_spec(cofactor_spec(b, 0, 1), b[0][1] as int);
    let t2 = mul_spec(cofactor_spec(b, 0, 2), b[0][2] as int);
    let t3 = mul_spec(cofactor_spec(b, 0, 3), b[0][3] as int);
    assert(det_spec(b) == t0 + t1 + t2 + t3) by {
        assert(det_spec(b) == expansion(b, 4));
        assert(expansion(b, 0) == 0);
        assert(expansion(b, 1) == expansion(b, 0) + t0);
        assert(expansion(b, 2) == expansion(b, 1) + t1);
        assert(expansion(b, 3) == expansion(b, 2) + t2);
        assert(expansion(b, 4) == expansion(b, 3) + t3);
    }
    assert(0int % 2 == 0 && 1int % 2 == 1 && 2int % 2 == 0 && 3int % 2 == 1);
    lemma_det4_error_term(b, 0, t0, 1);
    lemma_det4_error_term(b, 1, t1, -1);
    lemma_det4_error_term(b, 2, t2, 1);
    lemma_det4_error_term(b, 3, t3, -1);
    assert(o * o * o * det_spec(b) == o * o * (o * t0) + o * o * (o * t1) + o * o * (o * t2) + o * o
        * (o * t3)) by (nonlinear_arith)
        requires
            det_spec(b) == t0 + t1 + t2 + t3,
    ;
}

proof fn lemma_det4_error_term(b: Seq<Seq<i64>>, k: int, t: int, sgn: int)
    requires
        b.len() == 4,
        forall|r: int| 0 <= r < 4 ==> (#[trigger] b[r]).len() == 4,
        0 <= k < 4,
        t == mul_spec(cofactor_spec(b, 0, k), b[0][k] as int),
        sgn == (if k % 2 == 0 { 1int } else { -1int }),
    ensures
        abs_int(ONE * ONE * (ONE * t) - b[0][k] * cofactor_poly(b, 0, k)) <= abs_int(b[0][k] as int)
            * abs_int(cofactor_error(b, 0, k)) + ONE * ONE * ONE,
{
    let o = ONE as int;
    let v = b[0][k] as int;
    let dsub = det_spec(sub_spec(b, 0, k));
    let exact = minor_poly(b, 0, k);
    lemma_floor_product(cofactor_spec(b, 0, k), v);
    lemma_cofactor_error_abs(b, 0, k);
    assert((0 + k) % 2 == k % 2);
    assert(cofactor_spec(b, 0, k) == sgn * dsub);
    lemma_error_term(o, o * o, cofactor_spec(b, 0, k), v, t, sgn, dsub, exact);
    assert(cofactor_poly(b, 0, k) == sgn * exact);
}

} // verus!
