//! Rays and reflection.
use vstd::prelude::*;
use crate::fixed::{abs_int, product, mul_spec, in_range, ONE};
use crate::tuple::{Tuple, dot_spec, dot_fits};
use crate::matrix::{is_square, tuple_product_fits, tuple_product_spec, Matrix};

verus! {

/// A ray: a start point and a direction vector.
#[derive(Clone, Copy, Debug, PartialEq, Eq, Structural)]
pub struct Ray {
    pub origin: Tuple,
    pub direction: Tuple,
}

/// The value at which component `n` of the reflected vector lands, where
/// `i` is the matching component of the incoming vector and `d` the rounded
/// dot product of the incoming vector with the normal.
pub open spec fn reflect_component(i: int, n: int, d: int) -> int {
    i - mul_spec(2 * n, d)
}

/// `in_vector` reflected about `normal` (see `Ray::reflect`).
pub open spec fn reflected(in_vector: Tuple, normal: Tuple) -> Tuple {
    let d = dot_spec(in_vector, normal);
    Tuple {
        x: reflect_component(in_vector.x as int, normal.x as int, d) as i64,
        y: reflect_component(in_vector.y as int, normal.y as int, d) as i64,
        z: reflect_component(in_vector.z as int, normal.z as int, d) as i64,
        w: reflect_component(in_vector.w as int, normal.w as int, d) as i64,
    }
}


/// Whether `reflect` can compute every component without overflow.
pub open spec fn reflect_fits(in_vector: Tuple, normal: Tuple) -> bool {
    let d = dot_spec(in_vector, normal);
    &&& dot_fits(in_vector, normal)
    &&& in_range(2 * normal.x)
    &&& in_range(2 * normal.y)
    &&& in_range(2 * normal.z)
    &&& in_range(2 * normal.w)
    &&& in_range(mul_spec(2 * normal.x, d))
    &&& in_range(mul_spec(2 * normal.y, d))
    &&& in_range(mul_spec(2 * normal.z, d))
    &&& in_range(mul_spec(2 * normal.w, d))
    &&& in_range(reflect_component(in_vector.x as int, normal.x as int, d))
    &&& in_range(reflect_component(in_vector.y as int, normal.y as int, d))
    &&& in_range(reflect_component(in_vector.z as int, normal.z as int, d))
    &&& in_range(reflect_component(in_vector.w as int, normal.w as int, d))
}

/// Whether `position` can compute every coordinate without overflow.
pub open spec fn position_fits(r: Ray, t: int) -> bool {
    &&& in_range(mul_spec(r.direction.x as int, t))
    &&& in_range(mul_spec(r.direction.y as int, t))
    &&& in_range(mul_spec(r.direction.z as int, t))
    &&& in_range(mul_spec(r.direction.w as int, t))
    &&& in_range(r.origin.x + mul_spec(r.direction.x as int, t))
    &&& in_range(r.origin.y + mul_spec(r.direction.y as int, t))
    &&& in_range(r.origin.z + mul_spec(r.direction.z as int, t))
    &&& in_range(r.origin.w + mul_spec(r.direction.w as int, t))
}

impl Ray {
    /// The ray from the point `origin` along the vector `direction`.
    pub fn new(origin: Tuple, direction: Tuple) -> (r: Ray)
        requires
            origin.is_point_spec(),
            direction.is_vector_spec(),
        ensures
            r.origin == origin,
            r.direction == direction,
    {
        Ray { origin, direction }
    }

    /// The point at `distance` times the direction from the origin.
    pub fn position(&self, distance: i64) -> (p: Tuple)
        requires
            position_fits(*self, distance as int),
        ensures
            p.x == self.origin.x + mul_spec(self.direction.x as int, distance as int),
            p.y == self.origin.y + mul_spec(self.direction.y as int, distance as int),
            p.z == self.origin.z + mul_spec(self.direction.z as int, distance as int),
            p.w == self.origin.w + mul_spec(self.direction.w as int, distance as int),
    {
        let step = self.direction.scale(distance);
        self.origin.add(&step)
    }

    /// The ray carried by the 4 by 4 matrix `transform_matrix`: its origin
    /// and its direction are each multiplied by the matrix. The matrix must
    /// keep the origin a point and the direction a vector.
    pub fn transform(&self, transform_matrix: &Matrix) -> (r: Ray)
        requires
            transform_matrix@.len() == 4,
            is_square(transform_matrix@),
            tuple_product_fits(transform_matrix@, self.origin),
            tuple_product_fits(transform_matrix@, self.direction),
            tuple_product_spec(transform_matrix@, self.origin).is_point_spec(),
            tuple_product_spec(transform_matrix@, self.direction).is_vector_spec(),
        ensures
            r.origin == tuple_product_spec(transform_matrix@, self.origin),
            r.direction == tuple_product_spec(transform_matrix@, self.direction),
    {
        let origin = transform_matrix.multiply_tuple(&self.origin);
        let direction = transform_matrix.multiply_tuple(&self.direction);
        Self::new(origin, direction)
    }

    /// Reflects `in_vector` about `normal_vector`: the result is
    /// `in_vector - normal_vector * 2 * (in_vector . normal_vector)`.
    pub fn reflect(in_vector: Tuple, normal_vector: Tuple) -> (r: Tuple)
        requires
            reflect_fits(in_vector, normal_vector),
        ensures
            r.x == reflect_component(
                in_vector.x as int,
                normal_vector.x as int,
                dot_spec(in_vector, normal_vector),
            ),
            r.y == reflect_component(
                in_vector.y as int,
                normal_vector.y as int,
                dot_spec(in_vector, normal_vector),
            ),
            r.z == reflect_component(
                in_vector.z as int,
                normal_vector.z as int,
                dot_spec(in_vector, normal_vector),
            ),
            r.w == reflect_component(
                in_vector.w as int,
                normal_vector.w as int,
                dot_spec(in_vector, normal_vector),
            ),
    {
        let d = in_vector.dot(&normal_vector);
        Tuple {
            x: in_vector.x - product(2 * normal_vector.x, d),
            y: in_vector.y - product(2 * normal_vector.y, d),
            z: in_vector.z - product(2 * normal_vector.z, d),
            w: in_vector.w - product(2 * normal_vector.w, d),
        }
    }
}


/// `ONE * mul_spec(a, b)` is `a * b` rounded down to a multiple of `ONE`.
proof fn lemma_floor_mul(a: int, b: int)
    ensures
        ONE * mul_spec(a, b) <= a * b < ONE * mul_spec(a, b) + ONE,
{
    vstd::arithmetic::div_mod::lemma_fundamental_div_mod(a * b, ONE as int);
}


/// One component of a vector reflected twice: `q` and `q2` are what the
/// two reflections take off it.
proof fn lemma_component_back(p: int, n: int, d1: int, d2: int, q: int, q2: int, h: int, dd: int)
    requires
        p > 0,
        -p <= n <= p,
        p * q <= 2 * n * d1 < p * q + p,
        p * q2 <= 2 * n * d2 < p * q2 + p,
        p * p * (d1 + d2) == -2 * dd + h,
        -8 * p * p <= h <= 8 * p * p,
    ensures
        p * p * abs_int(q + q2) <= 18 * p * p + 4 * abs_int(dd),
{
    let s = q + q2;
    assert(p * s <= 2 * n * (d1 + d2) < p * s + 2 * p) by (nonlinear_arith)
        requires
            p * q <= 2 * n * d1 < p * q + p,
            p * q2 <= 2 * n * d2 < p * q2 + p,
            s == q + q2,
    ;
    assert(p * p * (p * s) <= 2 * n * (-2 * dd + h) < p * p * (p * s) + 2 * p * p * p) by (nonlinear_arith)
        requires
            p * s <= 2 * n * (d1 + d2) < p * s + 2 * p,
            p * p * (d1 + d2) == -2 * dd + h,
            p > 0,
    ;
    assert(abs_int(2 * n * (-2 * dd + h)) <= 4 * p * abs_int(dd) + 16 * p * p * p) by (nonlinear_arith)
        requires
            -p <= n <= p,
            -8 * p * p <= h <= 8 * p * p,
            p > 0,
    ;
    assert(p * p * p * abs_int(s) <= p * (18 * p * p + 4 * abs_int(dd))) by (nonlinear_arith)
        requires
            p * p * (p * s) <= 2 * n * (-2 * dd + h) < p * p * (p * s) + 2 * p * p * p,
            abs_int(2 * n * (-2 * dd + h)) <= 4 * p * abs_int(dd) + 16 * p * p * p,
            p > 0,
    ;
    assert(p * (p * p * abs_int(s)) == p * p * p * abs_int(s)) by (nonlinear_arith);
    assert(p * p * abs_int(s) <= 18 * p * p + 4 * abs_int(dd)) by (nonlinear_arith)
        requires
            p * (p * p * abs_int(s)) <= p * (18 * p * p + 4 * abs_int(dd)),
            p > 0,
    ;
}

/// Reflecting twice about the same normal gives the vector back, within
/// rounding: for a normal whose components lie in `[-1, 1]`, each component
/// comes back within 18 raw units, plus four times the first reflection's
/// dot product times how far the normal's squared length is from one.
pub proof fn lemma_reflect_twice(v: Tuple, n: Tuple)
    requires
        reflect_fits(v, n),
        reflect_fits(reflected(v, n), n),
        -ONE <= n.x <= ONE,
        -ONE <= n.y <= ONE,
        -ONE <= n.z <= ONE,
        -ONE <= n.w <= ONE,
    ensures
        ({
            let d = dot_spec(v, n);
            let nn = n.x * n.x + n.y * n.y + n.z * n.z + n.w * n.w;
            let back = reflected(reflected(v, n), n);
            let slack = 18 * ONE * ONE + 4 * abs_int(d * (nn - ONE * ONE));
            &&& ONE * ONE * abs_int(back.x - v.x) <= slack
            &&& ONE * ONE * abs_int(back.y - v.y) <= slack
            &&& ONE * ONE * abs_int(back.z - v.z) <= slack
            &&& ONE * ONE * abs_int(back.w - v.w) <= slack
        }),
{
    let p = ONE as int;
    let r = reflected(v, n);
    let d1 = dot_spec(v, n);
    let d2 = dot_spec(r, n);
    let (vx, vy, vz, vw) = (v.x as int, v.y as int, v.z as int, v.w as int);
    let (nx, ny, nz, nw) = (n.x as int, n.y as int, n.z as int, n.w as int);
    let nn = nx * nx + ny * ny + nz * nz + nw * nw;
    // the first dot product
    lemma_floor_mul(vx, nx);
    lemma_floor_mul(vy, ny);
    lemma_floor_mul(vz, nz);
    lemma_floor_mul(vw, nw);
    let sv = vx * nx + vy * ny + vz * nz + vw * nw;
    assert(p * d1 <= sv < p * d1 + 4 * p);
    // what the first reflection takes off
    let qx = mul_spec(2 * nx, d1);
    let qy = mul_spec(2 * ny, d1);
    let qz = mul_spec(2 * nz, d1);
    let qw = mul_spec(2 * nw, d1);
    lemma_floor_mul(2 * nx, d1);
    lemma_floor_mul(2 * ny, d1);
    lemma_floor_mul(2 * nz, d1);
    lemma_floor_mul(2 * nw, d1);
    assert(r.x == vx - qx && r.y == vy - qy && r.z == vz - qz && r.w == vw - qw);
    // the second dot product
    let (rx, ry, rz, rw) = (r.x as int, r.y as int, r.z as int, r.w as int);
    lemma_floor_mul(rx, nx);
    lemma_floor_mul(ry, ny);
    lemma_floor_mul(rz, nz);
    lemma_floor_mul(rw, nw);
    let sr = rx * nx + ry * ny + rz * nz + rw * nw;
    assert(p * d2 <= sr < p * d2 + 4 * p);
    let e = p * (qx * nx + qy * ny + qz * nz + qw * nw) - 2 * d1 * nn;
    lemma_take_off(p, nx, d1, qx);
    lemma_take_off(p, ny, d1, qy);
    lemma_take_off(p, nz, d1, qz);
    lemma_take_off(p, nw, d1, qw);
    lemma_sum4(2 * d1, nx * nx, ny * ny, nz * nz, nw * nw);
    lemma_sum4(p, qx * nx, qy * ny, qz * nz, qw * nw);
    assert(-4 * p * p <= e <= 4 * p * p);
    lemma_sub_mul(vx, qx, nx);
    lemma_sub_mul(vy, qy, ny);
    lemma_sub_mul(vz, qz, nz);
    lemma_sub_mul(vw, qw, nw);
    assert(sr == sv - (qx * nx + qy * ny + qz * nz + qw * nw));
    let h = p * p * (d1 + d2) + 2 * d1 * (nn - p * p);
    assert(-8 * p * p <= h <= 8 * p * p) by (nonlinear_arith)
        requires
            p * d1 <= sv < p * d1 + 4 * p,
            p * d2 <= sr < p * d2 + 4 * p,
            sr == sv - (qx * nx + qy * ny + qz * nz + qw * nw),
            e == p * (qx * nx + qy * ny + qz * nz + qw * nw) - 2 * d1 * nn,
            -4 * p * p <= e <= 4 * p * p,
            h == p * p * (d1 + d2) + 2 * d1 * (nn - p * p),
            p > 0,
    ;
    let dd = d1 * (nn - p * p);
    assert(p * p * (d1 + d2) == -2 * dd + h) by (nonlinear_arith)
        requires
            h == p * p * (d1 + d2) + 2 * d1 * (nn - p * p),
            dd == d1 * (nn - p * p),
    ;
    // what the second reflection takes off
    let back = reflected(r, n);
    lemma_floor_mul(2 * nx, d2);
    lemma_floor_mul(2 * ny, d2);
    lemma_floor_mul(2 * nz, d2);
    lemma_floor_mul(2 * nw, d2);
    let q2x = mul_spec(2 * nx, d2);
    let q2y = mul_spec(2 * ny, d2);
    let q2z = mul_spec(2 * nz, d2);
    let q2w = mul_spec(2 * nw, d2);
    assert(back.x == rx - q2x && back.y == ry - q2y && back.z == rz - q2z && back.w == rw - q2w);
    lemma_component_back(p, nx, d1, d2, qx, q2x, h, dd);
    lemma_component_back(p, ny, d1, d2, qy, q2y, h, dd);
    lemma_component_back(p, nz, d1, d2, qz, q2z, h, dd);
    lemma_component_back(p, nw, d1, d2, qw, q2w, h, dd);
    assert(back.x - vx == -(qx + q2x));
    assert(abs_int(back.x - vx) == abs_int(qx + q2x));
    assert(abs_int(back.y - vy) == abs_int(qy + q2y));
    assert(abs_int(back.z - vz) == abs_int(qz + q2z));
    assert(abs_int(back.w - vw) == abs_int(qw + q2w));
}

/// What a reflection takes off one component, times the normal's
/// component, is twice the square of that component times the dot product,
/// within `ONE * ONE`.
proof fn lemma_take_off(p: int, n: int, d: int, q: int)
    requires
        p > 0,
        -p <= n <= p,
        p * q <= 2 * n * d < p * q + p,
    ensures
        -p * p <= p * (q * n) - (2 * d) * (n * n) <= p * p,
{
    if n >= 0 {
        assert(p * q * n <= 2 * n * d * n <= p * q * n + p * n) by (nonlinear_arith)
            requires
                p * q <= 2 * n * d < p * q + p,
                n >= 0,
        ;
        assert(p * n <= p * p) by (nonlinear_arith)
            requires
                n <= p,
                p > 0,
        ;
    } else {
        assert(p * q * n + p * n <= 2 * n * d * n <= p * q * n) by (nonlinear_arith)
            requires
                p * q <= 2 * n * d < p * q + p,
                n < 0,
        ;
        assert(-(p * p) <= p * n) by (nonlinear_arith)
            requires
                -p <= n,
                p > 0,
        ;
    }
    assert(2 * n * d * n == (2 * d) * (n * n)) by (nonlinear_arith);
    assert(p * q * n == p * (q * n)) by (nonlinear_arith);
    assert(-p * p <= p * (q * n) - (2 * d) * (n * n) <= p * p) by (nonlinear_arith)
        requires
            2 * n * d * n == (2 * d) * (n * n),
            p * q * n == p * (q * n),
            n >= 0 ==> p * q * n <= 2 * n * d * n <= p * q * n + p * n,
            n >= 0 ==> p * n <= p * p,
            n < 0 ==> p * q * n + p * n <= 2 * n * d * n <= p * q * n,
            n < 0 ==> -(p * p) <= p * n,
    ;
}

proof fn lemma_sub_mul(v: int, q: int, n: int)
    ensures
        (v - q) * n == v * n - q * n,
{
    assert((v - q) * n == v * n - q * n) by (nonlinear_arith);
}

/// `k` times a sum of four is the sum of `k` times each.
proof fn lemma_sum4(k: int, a: int, b: int, c: int, e: int)
    ensures
        k * (a + b + c + e) == k * a + k * b + k * c + k * e,
{
    vstd::arithmetic::mul::lemma_mul_is_distributive_add(k, a + b + c, e);
    vstd::arithmetic::mul::lemma_mul_is_distributive_add(k, a + b, c);
    vstd::arithmetic::mul::lemma_mul_is_distributive_add(k, a, b);
}


/// The sum of the squares of the raw components.
pub open spec fn squared_length(t: Tuple) -> int {
    t.x * t.x + t.y * t.y + t.z * t.z + t.w * t.w
}

/// The exact dot product of the raw components.
pub open spec fn exact_dot(a: Tuple, b: Tuple) -> int {
    a.x * b.x + a.y * b.y + a.z * b.z + a.w * b.w
}

/// One component of a reflection, squared: with `p * q == 2 n d - eta`.
proof fn lemma_square_component(p: int, v: int, n: int, d: int, q: int, eta: int)
    requires
        p * q == 2 * n * d - eta,
    ensures
        p * p * ((v - q) * (v - q)) == p * p * (v * v) - 4 * p * (d * (v * n)) + 2 * p * (v * eta)
            + 4 * (d * d * (n * n)) - 4 * (d * (n * eta)) + eta * eta,
{
    let big_q = p * q;
    assert(p * p * ((v - q) * (v - q)) == (p * v - big_q) * (p * v - big_q)) by (nonlinear_arith)
        requires
            big_q == p * q,
    ;
    assert((p * v - big_q) * (p * v - big_q) == p * p * (v * v) - 2 * (p * v) * big_q + big_q * big_q)
        by (nonlinear_arith);
    assert(2 * (p * v) * big_q == 4 * p * (d * (v * n)) - 2 * p * (v * eta)) by (nonlinear_arith)
        requires
            big_q == 2 * n * d - eta,
    ;
    assert(big_q * big_q == 4 * (d * d * (n * n)) - 4 * (d * (n * eta)) + eta * eta)
        by (nonlinear_arith)
        requires
            big_q == 2 * n * d - eta,
    ;
}

/// Bounds on the rounding terms of one component.
proof fn lemma_eta_bounds(p: int, v: int, n: int, d: int, eta: int)
    requires
        p > 0,
        0 <= eta < p,
        -p <= n <= p,
    ensures
        abs_int(v * eta) <= p * abs_int(v),
        abs_int(d * (n * eta)) <= p * p * abs_int(d),
        0 <= eta * eta <= p * p,
{
    assert(abs_int(v * eta) <= p * abs_int(v)) by (nonlinear_arith)
        requires
            0 <= eta < p,
    ;
    assert(abs_int(n * eta) <= p * p) by (nonlinear_arith)
        requires
            0 <= eta < p,
            -p <= n <= p,
    ;
    assert(abs_int(d * (n * eta)) <= p * p * abs_int(d)) by (nonlinear_arith)
        requires
            abs_int(n * eta) <= p * p,
    ;
    assert(0 <= eta * eta <= p * p) by (nonlinear_arith)
        requires
            0 <= eta < p,
    ;
}

/// Reflection negates the dot product with the normal and keeps the
/// length, within rounding: for a normal whose components lie in
/// `[-1, 1]`, with `d` the rounded dot product of the input with the
/// normal, the exact dot product of the reflection with the normal is
/// `-d` within 8 raw units plus twice `d` times how far the normal's
/// squared length is from one; and the squared length of the reflection
/// is that of the input within `4 d^2` times how far the normal's squared
/// length is from one, plus `32 |d| + 2 (|v.x| + |v.y| + |v.z| + |v.w|) + 4`
/// raw units.
pub proof fn lemma_reflect_dot_and_length(v: Tuple, n: Tuple)
    requires
        reflect_fits(v, n),
        -ONE <= n.x <= ONE,
        -ONE <= n.y <= ONE,
        -ONE <= n.z <= ONE,
        -ONE <= n.w <= ONE,
    ensures
        ({
            let d = dot_spec(v, n);
            let r = reflected(v, n);
            let off = squared_length(n) - ONE * ONE;
            &&& abs_int(ONE * exact_dot(r, n) + ONE * ONE * d) <= 8 * ONE * ONE + 2 * abs_int(d * off)
            &&& ONE * ONE * abs_int(squared_length(r) - squared_length(v)) <= 4 * abs_int(d * d * off)
                + ONE * ONE * (32 * abs_int(d) + 2 * (abs_int(v.x as int) + abs_int(v.y as int)
                + abs_int(v.z as int) + abs_int(v.w as int)) + 4)
        }),
{
    let p = ONE as int;
    let r = reflected(v, n);
    let d = dot_spec(v, n);
    let (vx, vy, vz, vw) = (v.x as int, v.y as int, v.z as int, v.w as int);
    let (nx, ny, nz, nw) = (n.x as int, n.y as int, n.z as int, n.w as int);
    let nn = nx * nx + ny * ny + nz * nz + nw * nw;
    lemma_floor_mul(vx, nx);
    lemma_floor_mul(vy, ny);
    lemma_floor_mul(vz, nz);
    lemma_floor_mul(vw, nw);
    let sv = vx * nx + vy * ny + vz * nz + vw * nw;
    assert(p * d <= sv < p * d + 4 * p);
    let qx = mul_spec(2 * nx, d);
    let qy = mul_spec(2 * ny, d);
    let qz = mul_spec(2 * nz, d);
    let qw = mul_spec(2 * nw, d);
    lemma_floor_mul(2 * nx, d);
    lemma_floor_mul(2 * ny, d);
    lemma_floor_mul(2 * nz, d);
    lemma_floor_mul(2 * nw, d);
    assert(r.x == vx - qx && r.y == vy - qy && r.z == vz - qz && r.w == vw - qw);
    let (rx, ry, rz, rw) = (r.x as int, r.y as int, r.z as int, r.w as int);
    // the dot product
    lemma_take_off(p, nx, d, qx);
    lemma_take_off(p, ny, d, qy);
    lemma_take_off(p, nz, d, qz);
    lemma_take_off(p, nw, d, qw);
    lemma_sum4(2 * d, nx * nx, ny * ny, nz * nz, nw * nw);
    lemma_sum4(p, qx * nx, qy * ny, qz * nz, qw * nw);
    let e = p * (qx * nx + qy * ny + qz * nz + qw * nw) - 2 * d * nn;
    assert(-4 * p * p <= e <= 4 * p * p);
    lemma_sub_mul(vx, qx, nx);
    lemma_sub_mul(vy, qy, ny);
    lemma_sub_mul(vz, qz, nz);
    lemma_sub_mul(vw, qw, nw);
    let sr = rx * nx + ry * ny + rz * nz + rw * nw;
    assert(sr == sv - (qx * nx + qy * ny + qz * nz + qw * nw));
    assert(exact_dot(r, n) == sr);
    lemma_dot_back(p, d, nn, sv, sr, qx * nx + qy * ny + qz * nz + qw * nw, e);
    // the length
    let ex = 2 * nx * d - p * qx;
    let ey = 2 * ny * d - p * qy;
    let ez = 2 * nz * d - p * qz;
    let ew = 2 * nw * d - p * qw;
    lemma_square_component(p, vx, nx, d, qx, ex);
    lemma_square_component(p, vy, ny, d, qy, ey);
    lemma_square_component(p, vz, nz, d, qz, ez);
    lemma_square_component(p, vw, nw, d, qw, ew);
    lemma_eta_bounds(p, vx, nx, d, ex);
    lemma_eta_bounds(p, vy, ny, d, ey);
    lemma_eta_bounds(p, vz, nz, d, ez);
    lemma_eta_bounds(p, vw, nw, d, ew);
    let lv = vx * vx + vy * vy + vz * vz + vw * vw;
    let lr = rx * rx + ry * ry + rz * rz + rw * rw;
    assert(squared_length(r) == lr && squared_length(v) == lv);
    lemma_sum4(p * p, vx * vx, vy * vy, vz * vz, vw * vw);
    lemma_sum4(p * p, rx * rx, ry * ry, rz * rz, rw * rw);
    // 4 p (d sv) = 4 p d (p d + g)
    let g = sv - p * d;
    lemma_sum4(d, vx * nx, vy * ny, vz * nz, vw * nw);
    lemma_sum4(d * d, nx * nx, ny * ny, nz * nz, nw * nw);
    lemma_dv(p, d, sv, g, nn);
    lemma_length_bound(
        p,
        d,
        nn,
        g,
        p * p * lr - p * p * lv,
        vx * ex,
        vy * ey,
        vz * ez,
        vw * ew,
        d * (nx * ex),
        d * (ny * ey),
        d * (nz * ez),
        d * (nw * ew),
        ex * ex,
        ey * ey,
        ez * ez,
        ew * ew,
        abs_int(vx) + abs_int(vy) + abs_int(vz) + abs_int(vw),
    );
    lemma_scale_abs(p * p, lr - lv);
    assert(p * p * (lr - lv) == p * p * lr - p * p * lv) by {
        vstd::arithmetic::mul::lemma_mul_is_distributive_sub(p * p, lr, lv);
    }
}

/// The dot product with the normal after reflecting.
proof fn lemma_dot_back(p: int, d: int, nn: int, sv: int, sr: int, qn: int, e: int)
    requires
        p > 0,
        p * d <= sv < p * d + 4 * p,
        sr == sv - qn,
        e == p * qn - 2 * d * nn,
        -4 * p * p <= e <= 4 * p * p,
    ensures
        abs_int(p * sr + p * p * d) <= 8 * p * p + 2 * abs_int(d * (nn - p * p)),
{
    assert(p * sr == p * sv - p * qn) by (nonlinear_arith)
        requires
            sr == sv - qn,
    ;
    assert(p * p * d <= p * sv < p * p * d + 4 * p * p) by (nonlinear_arith)
        requires
            p * d <= sv < p * d + 4 * p,
            p > 0,
    ;
    assert(2 * d * nn == 2 * (d * (nn - p * p)) + 2 * (p * p * d)) by (nonlinear_arith);
    let x = p * sv - p * p * d;
    let y = d * (nn - p * p);
    let z = p * sr + p * p * d;
    assert(z == x - e - 2 * y);
    assert(0 <= x < 4 * p * p);
    assert(abs_int(z) <= 8 * p * p + 2 * abs_int(y)) by (nonlinear_arith)
        requires
            z == x - e - 2 * y,
            0 <= x < 4 * p * p,
            -4 * p * p <= e <= 4 * p * p,
    ;
}

/// `4 p d sv` split into the part at `p d` and the rest.
proof fn lemma_dv(p: int, d: int, sv: int, g: int, nn: int)
    requires
        g == sv - p * d,
    ensures
        4 * p * (d * sv) == 4 * p * (d * g) + 4 * (d * d * (p * p)),
        4 * (d * d * nn) - 4 * (d * d * (p * p)) == 4 * (d * d * (nn - p * p)),
{
    assert(4 * p * (d * sv) == 4 * p * (d * g) + 4 * (d * d * (p * p))) by (nonlinear_arith)
        requires
            g == sv - p * d,
    ;
    assert(4 * (d * d * nn) - 4 * (d * d * (p * p)) == 4 * (d * d * (nn - p * p))) by (nonlinear_arith);
}

/// Scaling by a positive factor scales the absolute value.
proof fn lemma_scale_abs(k: int, x: int)
    requires
        k > 0,
    ensures
        k * abs_int(x) == abs_int(k * x),
{
    assert(k * abs_int(x) == abs_int(k * x)) by (nonlinear_arith)
        requires
            k > 0,
    ;
}

/// Bounding the terms of the change in squared length; `t`, `u` and `s`
/// stand for `v_i eta_i`, `d n_i eta_i` and `eta_i^2`.
proof fn lemma_length_bound(
    p: int,
    d: int,
    nn: int,
    g: int,
    big: int,
    t1: int,
    t2: int,
    t3: int,
    t4: int,
    u1: int,
    u2: int,
    u3: int,
    u4: int,
    s1: int,
    s2: int,
    s3: int,
    s4: int,
    va: int,
)
    requires
        p > 0,
        0 <= g < 4 * p,
        big == 4 * (d * d * (nn - p * p)) - 4 * p * (d * g) + 2 * p * (t1 + t2 + t3 + t4) - 4 * (u1
            + u2 + u3 + u4) + (s1 + s2 + s3 + s4),
        abs_int(t1) + abs_int(t2) + abs_int(t3) + abs_int(t4) <= p * va,
        abs_int(u1) <= p * p * abs_int(d),
        abs_int(u2) <= p * p * abs_int(d),
        abs_int(u3) <= p * p * abs_int(d),
        abs_int(u4) <= p * p * abs_int(d),
        0 <= s1 <= p * p,
        0 <= s2 <= p * p,
        0 <= s3 <= p * p,
        0 <= s4 <= p * p,
    ensures
        abs_int(big) <= 4 * abs_int(d * d * (nn - p * p)) + p * p * (32 * abs_int(d) + 2 * va + 4),
{
    let w = p * p * abs_int(d);
    assert(abs_int(4 * p * (d * g)) <= 16 * w) by (nonlinear_arith)
        requires
            0 <= g < 4 * p,
            p > 0,
            w == p * p * abs_int(d),
    ;
    assert(abs_int(2 * p * (t1 + t2 + t3 + t4)) <= 2 * p * (p * va)) by (nonlinear_arith)
        requires
            abs_int(t1) + abs_int(t2) + abs_int(t3) + abs_int(t4) <= p * va,
            p > 0,
    ;
    assert(abs_int(4 * (d * d * (nn - p * p))) == 4 * abs_int(d * d * (nn - p * p)));
    assert(p * p * (32 * abs_int(d) + 2 * va + 4) == 32 * w + 2 * p * (p * va) + 4 * (p * p))
        by (nonlinear_arith)
        requires
            w == p * p * abs_int(d),
    ;
}

} // verus!
