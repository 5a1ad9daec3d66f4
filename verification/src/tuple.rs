//! Points and vectors in homogeneous coordinates.
use vstd::prelude::*;
use crate::fixed::{floor_div, floor_div_i128, in_range, mul_spec, product, ONE};

verus! {

/// A point (`w == ONE`) or a vector (`w == 0`); every component is a
/// fixed-point scalar (see `crate::fixed`).
#[derive(Clone, Copy, Debug, PartialEq, Eq, Structural)]
pub struct Tuple {
    pub x: i64,
    pub y: i64,
    pub z: i64,
    pub w: i64,
}

/// The dot product of two tuples with each component product rounded
/// as `crate::fixed::product` rounds it.
pub open spec fn dot_spec(a: Tuple, b: Tuple) -> int {
    mul_spec(a.x as int, b.x as int) + mul_spec(a.y as int, b.y as int) + mul_spec(
        a.z as int,
        b.z as int,
    ) + mul_spec(a.w as int, b.w as int)
}

/// The cross product of the vector parts of two tuples, each component
/// product rounded as `crate::fixed::product` rounds it.
pub open spec fn cross_spec(a: Tuple, b: Tuple) -> (int, int, int) {
    (
        mul_spec(a.y as int, b.z as int) - mul_spec(a.z as int, b.y as int),
        mul_spec(a.z as int, b.x as int) - mul_spec(a.x as int, b.z as int),
        mul_spec(a.x as int, b.y as int) - mul_spec(a.y as int, b.x as int),
    )
}

/// Whether every product and difference of the cross product fits a raw
/// scalar.
pub open spec fn cross_fits(a: Tuple, b: Tuple) -> bool {
    &&& in_range(mul_spec(a.y as int, b.z as int))
    &&& in_range(mul_spec(a.z as int, b.y as int))
    &&& in_range(mul_spec(a.z as int, b.x as int))
    &&& in_range(mul_spec(a.x as int, b.z as int))
    &&& in_range(mul_spec(a.x as int, b.y as int))
    &&& in_range(mul_spec(a.y as int, b.x as int))
    &&& in_range(cross_spec(a, b).0)
    &&& in_range(cross_spec(a, b).1)
    &&& in_range(cross_spec(a, b).2)
}

/// The integer square root: the greatest `r` with `r * r <= n`, found digit
/// pair by digit pair.
pub open spec fn int_sqrt(n: nat) -> nat
    decreases n,
{
    if n == 0 {
        0
    } else {
        let r = 2 * int_sqrt(n / 4);
        if (r + 1) * (r + 1) <= n {
            r + 1
        } else {
            r
        }
    }
}

/// The sum of the squares of the raw components.
pub open spec fn norm_sq(a: Tuple) -> int {
    a.x * a.x + a.y * a.y + a.z * a.z + a.w * a.w
}

/// Whether every component's magnitude is below 2^62 (a quarter of the raw
/// range), so that the squares add up without overflow.
pub open spec fn norm_fits(a: Tuple) -> bool {
    &&& -0x4000_0000_0000_0000 < a.x < 0x4000_0000_0000_0000
    &&& -0x4000_0000_0000_0000 < a.y < 0x4000_0000_0000_0000
    &&& -0x4000_0000_0000_0000 < a.z < 0x4000_0000_0000_0000
    &&& -0x4000_0000_0000_0000 < a.w < 0x4000_0000_0000_0000
}

/// The tuple scaled to unit length: each raw component times `ONE` over the
/// integer square root of the sum of the squared raw components, rounded
/// down. The zero tuple stays as it is.
pub open spec fn unit_spec(a: Tuple) -> Tuple {
    let s = int_sqrt(norm_sq(a) as nat) as int;
    if norm_sq(a) == 0 {
        a
    } else {
        Tuple {
            x: floor_div(a.x * ONE, s) as i64,
            y: floor_div(a.y * ONE, s) as i64,
            z: floor_div(a.z * ONE, s) as i64,
            w: floor_div(a.w * ONE, s) as i64,
        }
    }
}

/// The integer square root is the root rounded down.
pub proof fn lemma_int_sqrt(n: nat)
    ensures
        int_sqrt(n) * int_sqrt(n) <= n,
        n < (int_sqrt(n) + 1) * (int_sqrt(n) + 1),
    decreases n,
{
    if n > 0 {
        let m = n / 4;
        lemma_int_sqrt(m);
        let q = int_sqrt(m);
        let r = 2 * q;
        assert(4 * m <= n < 4 * m + 4);
        assert(r * r <= n) by (nonlinear_arith)
            requires
                q * q <= m,
                r == 2 * q,
                4 * m <= n,
        ;
        assert(n < (r + 2) * (r + 2)) by (nonlinear_arith)
            requires
                m < (q + 1) * (q + 1),
                r == 2 * q,
                n < 4 * m + 4,
        ;
        let s = int_sqrt(n);
        if (r + 1) * (r + 1) <= n {
            assert(s == r + 1);
            assert(s * s <= n);
            assert((s + 1) * (s + 1) == (r + 2) * (r + 2));
        } else {
            assert(s == r);
            assert(s * s <= n);
            assert(n < (s + 1) * (s + 1));
        }
        assert(int_sqrt(n) * int_sqrt(n) <= n);
        assert(n < (int_sqrt(n) + 1) * (int_sqrt(n) + 1));
    } else {
        let s = int_sqrt(n);
        assert(s == 0);
        assert((s + 1) * (s + 1) == 1) by (nonlinear_arith)
            requires
                s == 0,
        ;
    }
}

/// Whether every component of the exact sum fits a raw scalar.
pub open spec fn add_fits(a: Tuple, b: Tuple) -> bool {
    &&& in_range(a.x + b.x)
    &&& in_range(a.y + b.y)
    &&& in_range(a.z + b.z)
    &&& in_range(a.w + b.w)
}

/// Whether every component of the exact difference fits a raw scalar.
pub open spec fn sub_fits(a: Tuple, b: Tuple) -> bool {
    &&& in_range(a.x - b.x)
    &&& in_range(a.y - b.y)
    &&& in_range(a.z - b.z)
    &&& in_range(a.w - b.w)
}

/// Whether every rounded product of a component with `s` fits a raw scalar.
pub open spec fn scale_fits(a: Tuple, s: int) -> bool {
    &&& in_range(mul_spec(a.x as int, s))
    &&& in_range(mul_spec(a.y as int, s))
    &&& in_range(mul_spec(a.z as int, s))
    &&& in_range(mul_spec(a.w as int, s))
}

/// Whether every partial sum of the dot product fits a raw scalar.
pub open spec fn dot_fits(a: Tuple, b: Tuple) -> bool {
    &&& in_range(mul_spec(a.x as int, b.x as int))
    &&& in_range(mul_spec(a.y as int, b.y as int))
    &&& in_range(mul_spec(a.z as int, b.z as int))
    &&& in_range(mul_spec(a.w as int, b.w as int))
    &&& in_range(mul_spec(a.x as int, b.x as int) + mul_spec(a.y as int, b.y as int))
    &&& in_range(
        mul_spec(a.x as int, b.x as int) + mul_spec(a.y as int, b.y as int) + mul_spec(
            a.z as int,
            b.z as int,
        ),
    )
    &&& in_range(dot_spec(a, b))
}

impl Tuple {
    /// A point at the given coordinates.
    pub fn point(x: i64, y: i64, z: i64) -> (t: Tuple)
        ensures
            t == (Tuple { x, y, z, w: ONE }),
    {
        Tuple { x, y, z, w: ONE }
    }

    /// A vector with the given components.
    pub fn vector(x: i64, y: i64, z: i64) -> (t: Tuple)
        ensures
            t == (Tuple { x, y, z, w: 0 }),
    {
        Tuple { x, y, z, w: 0 }
    }

    pub open spec fn is_point_spec(&self) -> bool {
        self.w == ONE
    }

    pub open spec fn is_vector_spec(&self) -> bool {
        self.w == 0
    }

    /// Whether this tuple is a point.
    pub fn is_point(&self) -> (b: bool)
        ensures
            b == self.is_point_spec(),
    {
        self.w == ONE
    }

    /// Whether this tuple is a vector.
    pub fn is_vector(&self) -> (b: bool)
        ensures
            b == self.is_vector_spec(),
    {
        self.w == 0
    }

    /// Component-wise sum.
    pub fn add(&self, other: &Tuple) -> (t: Tuple)
        requires
            add_fits(*self, *other),
        ensures
            t.x == self.x + other.x,
            t.y == self.y + other.y,
            t.z == self.z + other.z,
            t.w == self.w + other.w,
    {
        Tuple {
            x: self.x + other.x,
            y: self.y + other.y,
            z: self.z + other.z,
            w: self.w + other.w,
        }
    }

    /// Component-wise difference.
    pub fn sub(&self, other: &Tuple) -> (t: Tuple)
        requires
            sub_fits(*self, *other),
        ensures
            t.x == self.x - other.x,
            t.y == self.y - other.y,
            t.z == self.z - other.z,
            t.w == self.w - other.w,
    {
        Tuple {
            x: self.x - other.x,
            y: self.y - other.y,
            z: self.z - other.z,
            w: self.w - other.w,
        }
    }

    /// Component-wise negation.
    pub fn neg(&self) -> (t: Tuple)
        requires
            self.x > i64::MIN,
            self.y > i64::MIN,
            self.z > i64::MIN,
            self.w > i64::MIN,
        ensures
            t.x == -self.x,
            t.y == -self.y,
            t.z == -self.z,
            t.w == -self.w,
    {
        Tuple { x: -self.x, y: -self.y, z: -self.z, w: -self.w }
    }

    /// Multiplies every component by the scalar `s`.
    pub fn scale(&self, s: i64) -> (t: Tuple)
        requires
            scale_fits(*self, s as int),
        ensures
            t.x == mul_spec(self.x as int, s as int),
            t.y == mul_spec(self.y as int, s as int),
            t.z == mul_spec(self.z as int, s as int),
            t.w == mul_spec(self.w as int, s as int),
    {
        Tuple { x: product(self.x, s), y: product(self.y, s), z: product(self.z, s), w: product(self.w, s) }
    }

    /// The dot product, summing the four component products.
    pub fn dot(&self, other: &Tuple) -> (d: i64)
        requires
            dot_fits(*self, *other),
        ensures
            d == dot_spec(*self, *other),
    {
        product(self.x, other.x) + product(self.y, other.y) + product(self.z, other.z) + product(self.w, other.w)
    }

    /// The cross product of the vector parts (see `cross_spec`); the
    /// result is a vector.
    pub fn cross(&self, other: &Tuple) -> (t: Tuple)
        requires
            cross_fits(*self, *other),
        ensures
            t.x == cross_spec(*self, *other).0,
            t.y == cross_spec(*self, *other).1,
            t.z == cross_spec(*self, *other).2,
            t.w == 0,
    {
        Tuple::vector(
            product(self.y, other.z) - product(self.z, other.y),
            product(self.z, other.x) - product(self.x, other.z),
            product(self.x, other.y) - product(self.y, other.x),
        )
    }

    /// The tuple scaled to unit length (see `unit_spec`).
    pub fn norm(&self) -> (t: Tuple)
        requires
            norm_fits(*self),
        ensures
            t == unit_spec(*self),
    {
        let x = self.x as i128;
        let y = self.y as i128;
        let z = self.z as i128;
        let w = self.w as i128;
        proof {
            assert(0 <= x * x < 0x1000_0000_0000_0000_0000_0000_0000_0000) by (nonlinear_arith)
                requires
                    -0x4000_0000_0000_0000 < x < 0x4000_0000_0000_0000,
            ;
            assert(0 <= y * y < 0x1000_0000_0000_0000_0000_0000_0000_0000) by (nonlinear_arith)
                requires
                    -0x4000_0000_0000_0000 < y < 0x4000_0000_0000_0000,
            ;
            assert(0 <= z * z < 0x1000_0000_0000_0000_0000_0000_0000_0000) by (nonlinear_arith)
                requires
                    -0x4000_0000_0000_0000 < z < 0x4000_0000_0000_0000,
            ;
            assert(0 <= w * w < 0x1000_0000_0000_0000_0000_0000_0000_0000) by (nonlinear_arith)
                requires
                    -0x4000_0000_0000_0000 < w < 0x4000_0000_0000_0000,
            ;
        }
        let sum = x * x + y * y + z * z + w * w;
        if sum == 0 {
            return *self;
        }
        let root = isqrt(sum as u128);
        proof {
            lemma_int_sqrt(sum as nat);
            lemma_root_bounds(x as int, sum as int, root as int);
            lemma_root_bounds(y as int, sum as int, root as int);
            lemma_root_bounds(z as int, sum as int, root as int);
            lemma_root_bounds(w as int, sum as int, root as int);
        }
        let r = root as i128;
        Tuple {
            x: floor_div_i128(x * (ONE as i128), r) as i64,
            y: floor_div_i128(y * (ONE as i128), r) as i64,
            z: floor_div_i128(z * (ONE as i128), r) as i64,
            w: floor_div_i128(w * (ONE as i128), r) as i64,
        }
    }
}

/// A component over the rounded-down root of a sum of squares that holds
/// its own square lies in `[-1, 1]`.
proof fn lemma_root_bounds(c: int, sum: int, root: int)
    requires
        0 <= c * c <= sum,
        sum > 0,
        root * root <= sum < (root + 1) * (root + 1),
        root >= 0,
        -0x4000_0000_0000_0000 < c < 0x4000_0000_0000_0000,
    ensures
        root >= 1,
        -ONE <= floor_div(c * ONE, root) <= ONE,
        -0x8000_0000_0000_0000_0000_0000_0000_0000 < c * ONE < 0x8000_0000_0000_0000_0000_0000_0000_0000,
{
    assert(root >= 1) by (nonlinear_arith)
        requires
            sum > 0,
            sum < (root + 1) * (root + 1),
            root >= 0,
    ;
    let a = if c >= 0 { c } else { -c };
    assert(a * a == c * c) by (nonlinear_arith)
        requires
            a == c || a == -c,
    ;
    assert(a <= root) by (nonlinear_arith)
        requires
            a * a <= sum,
            sum < (root + 1) * (root + 1),
            a >= 0,
            root >= 0,
    ;
    assert(-root * ONE <= c * ONE <= root * ONE) by (nonlinear_arith)
        requires
            -root <= c <= root,
    ;
    vstd::arithmetic::div_mod::lemma_div_is_ordered(c * ONE, root * ONE, root);
    vstd::arithmetic::div_mod::lemma_div_is_ordered(-root * ONE, c * ONE, root);
    vstd::arithmetic::div_mod::lemma_div_multiples_vanish(ONE as int, root);
    vstd::arithmetic::div_mod::lemma_div_multiples_vanish(-(ONE as int), root);
    assert(root * ONE == root * (ONE as int)) by (nonlinear_arith);
    assert(-root * ONE == root * (-(ONE as int))) by (nonlinear_arith);
    assert(-0x4000_0000_0000_0000 * 0x1_0000_0000 <= c * ONE <= 0x4000_0000_0000_0000 * 0x1_0000_0000) by (nonlinear_arith)
        requires
            -0x4000_0000_0000_0000 < c < 0x4000_0000_0000_0000,
    ;
}

/// The integer square root (see `int_sqrt`).
pub fn isqrt(n: u128) -> (r: u128)
    requires
        n < 0x4000_0000_0000_0000_0000_0000_0000_0000,
    ensures
        r == int_sqrt(n as nat),
        r < 0x8000_0000_0000_0000,
    decreases n,
{
    if n == 0 {
        return 0;
    }
    let q = isqrt(n / 4);
    proof {
        lemma_int_sqrt(n as nat);
        lemma_int_sqrt((n / 4) as nat);
        assert(q * q <= n / 4);
        assert(q < 0x4000_0000_0000_0000) by (nonlinear_arith)
            requires
                q * q <= n / 4,
                n / 4 < 0x1000_0000_0000_0000_0000_0000_0000_0000,
                q >= 0,
        ;
    }
    let r = 2 * q;
    assert((r + 1) * (r + 1) <= 0x4000_0000_0000_0000_0000_0000_0000_0000) by (nonlinear_arith)
        requires
            0 <= r < 0x8000_0000_0000_0000,
    ;
    if (r + 1) * (r + 1) <= n {
        proof {
            assert(r + 1 < 0x8000_0000_0000_0000) by (nonlinear_arith)
                requires
                    (r + 1) * (r + 1) <= n,
                    n < 0x4000_0000_0000_0000_0000_0000_0000_0000,
                    r >= 0,
            ;
        }
        r + 1
    } else {
        r
    }
}

/// Every component of a normalized tuple lies in `[-1, 1]`.
pub proof fn lemma_unit_components(a: Tuple)
    requires
        norm_fits(a),
    ensures
        norm_sq(a) != 0 ==> {
            let u = unit_spec(a);
            &&& -ONE <= u.x <= ONE
            &&& -ONE <= u.y <= ONE
            &&& -ONE <= u.z <= ONE
            &&& -ONE <= u.w <= ONE
        },
{
    if norm_sq(a) != 0 {
        let x = a.x as int;
        let y = a.y as int;
        let z = a.z as int;
        let w = a.w as int;
        assert(x * x >= 0 && y * y >= 0 && z * z >= 0 && w * w >= 0) by (nonlinear_arith);
        let sum = norm_sq(a);
        lemma_int_sqrt(sum as nat);
        let root = int_sqrt(sum as nat) as int;
        lemma_root_bounds(x, sum, root);
        lemma_root_bounds(y, sum, root);
        lemma_root_bounds(z, sum, root);
        lemma_root_bounds(w, sum, root);
    }
}

} // verus!
