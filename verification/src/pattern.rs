//! Patterns that color points by their position: stripes, checkers,
//! gradients, rings, a solid color, and a test pattern that shows the point
//! it was given. Each pattern keeps the inverse of its transformation.
use vstd::prelude::*;
use crate::color::Color;
use crate::constants::{black, white};
use crate::fixed::{floor_div, in_range, mul_spec, ONE};
use crate::matrix::{
    det_spec, identity_4x4, identity_spec, inverse_fits, inverse_spec, is_square,
    tuple_product_fits, tuple_product_spec, Matrix,
};
use crate::tuple::{int_sqrt, isqrt, Tuple};
use crate::uv::{rem_one, saturate_i32};

verus! {

/// What every pattern keeps: the inverse of its transformation.
#[derive(Clone, Debug, PartialEq)]
pub struct BasePattern {
    pub t_inverse: Matrix,
}

impl BasePattern {
    /// The untransformed pattern: its inverse transformation is the
    /// identity.
    pub fn new() -> (b: BasePattern)
        ensures
            b.t_inverse@ == identity_spec(4),
    {
        BasePattern { t_inverse: identity_4x4() }
    }

    /// Sets the transformation to `t`, keeping its inverse.
    pub fn set_transformation(&mut self, t: Matrix)
        requires
            is_square(t@),
            inverse_fits(t@),
            det_spec(t@) != 0,
        ensures
            final(self).t_inverse@.len() == t@.len(),
            is_square(final(self).t_inverse@),
            forall|i: int, j: int|
                0 <= i < t@.len() && 0 <= j < t@.len() ==> #[trigger] final(self).t_inverse@[i][j]
                    == inverse_spec(t@)[i][j],
    {
        self.t_inverse = t.inverse();
    }

    /// The inverse of the transformation.
    pub fn transformation_inverse(&self) -> (m: &Matrix)
        ensures
            *m == self.t_inverse,
    {
        &self.t_inverse
    }
}

/// Where a point of the world lies in the space of a pattern on an object:
/// the point carried by the object's inverse transformation, then by the
/// pattern's.
pub open spec fn pattern_point_spec(
    object_inverse: Seq<Seq<i64>>,
    pattern_inverse: Seq<Seq<i64>>,
    world_point: Tuple,
) -> Tuple {
    tuple_product_spec(pattern_inverse, tuple_product_spec(object_inverse, world_point))
}

/// The point in pattern space at which a pattern on an object is looked up
/// (see `pattern_point_spec`).
pub fn pattern_point(object_inverse: &Matrix, pattern_inverse: &Matrix, world_point: Tuple) -> (p:
    Tuple)
    requires
        object_inverse@.len() == 4,
        is_square(object_inverse@),
        pattern_inverse@.len() == 4,
        is_square(pattern_inverse@),
        tuple_product_fits(object_inverse@, world_point),
        tuple_product_fits(pattern_inverse@, tuple_product_spec(object_inverse@, world_point)),
    ensures
        p == pattern_point_spec(object_inverse@, pattern_inverse@, world_point),
{
    let object_point = object_inverse.multiply_tuple(&world_point);
    pattern_inverse.multiply_tuple(&object_point)
}

/// The point in pattern space (see `pattern_point`), or `None` when either
/// matrix is not 4 by 4 or a product overflows.
pub fn try_pattern_point(object_inverse: &Matrix, pattern_inverse: &Matrix, world_point: Tuple) -> (r:
    Option<Tuple>)
    ensures
        r is Some <==> (object_inverse@.len() == 4 && is_square(object_inverse@)
            && pattern_inverse@.len() == 4 && is_square(pattern_inverse@) && tuple_product_fits(
            object_inverse@,
            world_point,
        ) && tuple_product_fits(pattern_inverse@, tuple_product_spec(object_inverse@, world_point))),
        r matches Some(p) ==> p == pattern_point_spec(object_inverse@, pattern_inverse@, world_point),
{
    let object_point = match object_inverse.try_multiply_tuple(&world_point) {
        Some(t) => t,
        None => {
            return None;
        },
    };
    if pattern_inverse.try_multiply_tuple(&object_point).is_none() {
        return None;
    }
    Some(pattern_point(object_inverse, pattern_inverse, world_point))
}

/// The whole number at or below the scalar `v`.
pub open spec fn floor_of(v: int) -> int {
    floor_div(v, ONE as int)
}

/// Alternating stripes along x: `a` where the x coordinate rounded down is
/// even, `b` where it is odd.
#[derive(Clone, Debug, PartialEq)]
pub struct Stripes {
    pub a: Color,
    pub b: Color,
    pub base: BasePattern,
}

impl Stripes {
    pub fn new(a: Color, b: Color) -> (s: Stripes)
        ensures
            s.a == a,
            s.b == b,
            s.base.t_inverse@ == identity_spec(4),
    {
        Stripes { a, b, base: BasePattern::new() }
    }

    /// The color at a point in pattern space.
    pub fn color_at_world(&self, world_point: Tuple) -> (c: Color)
        ensures
            c == if floor_of(world_point.x as int) % 2 == 0 {
                self.a
            } else {
                self.b
            },
    {
        let fx = floor_i64(world_point.x);
        if fx % 2 == 0 {
            self.a
        } else {
            self.b
        }
    }
}

/// `v` rounded down to a whole number (as a count of units).
fn floor_i64(v: i64) -> (r: i64)
    ensures
        r == floor_of(v as int),
        -0x8000_0000 <= r < 0x8000_0000,
{
    let f = rem_one(v);
    proof {
        vstd::arithmetic::div_mod::lemma_fundamental_div_mod(v as int, ONE as int);
    }
    (v - f) / ONE
}

/// A three-dimensional checker pattern: `a` where the sum of the absolute
/// coordinates, rounded down (and cast to `i32`), is even, `b` elsewhere.
#[derive(Clone, Debug, PartialEq)]
pub struct Checkers {
    pub a: Color,
    pub b: Color,
    pub base: BasePattern,
}

impl Checkers {
    pub fn new(a: Color, b: Color) -> (s: Checkers)
        ensures
            s.a == a,
            s.b == b,
            s.base.t_inverse@ == identity_spec(4),
    {
        Checkers { a, b, base: BasePattern::new() }
    }

    /// The color at a point in pattern space.
    pub fn color_at_world(&self, world_point: Tuple) -> (c: Color)
        ensures
            c == if saturate_i32(
                floor_of(
                    abs_spec(world_point.x as int) + abs_spec(world_point.y as int) + abs_spec(
                        world_point.z as int,
                    ),
                ),
            ) % 2 == 0 {
                self.a
            } else {
                self.b
            },
    {
        let sum = abs_i128(world_point.x as i128) + abs_i128(world_point.y as i128) + abs_i128(
            world_point.z as i128,
        );
        let cells = crate::fixed::floor_div_i128(sum, ONE as i128);
        let n: i32 = if cells > i32::MAX as i128 {
            i32::MAX
        } else {
            cells as i32
        };
        if n % 2 == 0 {
            self.a
        } else {
            self.b
        }
    }
}

pub open spec fn abs_spec(v: int) -> int {
    if v < 0 {
        -v
    } else {
        v
    }
}

fn abs_i128(v: i128) -> (r: i128)
    requires
        -0x8000_0000_0000_0000 <= v <= 0x7fff_ffff_ffff_ffff,
    ensures
        r == abs_spec(v as int),
{
    if v < 0 {
        -v
    } else {
        v
    }
}

/// A gradient along x from `a` (at whole numbers) towards `a + distance`,
/// repeating every unit.
#[derive(Clone, Debug, PartialEq)]
pub struct Gradient {
    pub a: Color,
    pub distance: Color,
    pub base: BasePattern,
}

/// Whether the gradient from `a` by `distance` can be evaluated at the
/// fraction `f` without overflow.
pub open spec fn gradient_fits(a: Color, distance: Color, f: int) -> bool {
    &&& in_range(a.r + mul_spec(distance.r as int, f))
    &&& in_range(a.g + mul_spec(distance.g as int, f))
    &&& in_range(a.b + mul_spec(distance.b as int, f))
    &&& in_range(mul_spec(distance.r as int, f))
    &&& in_range(mul_spec(distance.g as int, f))
    &&& in_range(mul_spec(distance.b as int, f))
}

impl Gradient {
    /// The gradient from `a` towards `b`.
    pub fn new(a: Color, b: Color) -> (g: Gradient)
        requires
            in_range(b.r - a.r),
            in_range(b.g - a.g),
            in_range(b.b - a.b),
        ensures
            g.a == a,
            g.distance == (Color { r: (b.r - a.r) as i64, g: (b.g - a.g) as i64, b: (b.b - a.b) as i64 }),
            g.base.t_inverse@ == identity_spec(4),
    {
        let distance = b.sub(&a);
        Gradient { a, distance, base: BasePattern::new() }
    }

    /// The color at a point in pattern space: `a` plus `distance` times
    /// the fractional part of x.
    pub fn color_at_world(&self, world_point: Tuple) -> (c: Color)
        requires
            gradient_fits(self.a, self.distance, world_point.x as int % ONE as int),
        ensures
            ({
                let f = world_point.x as int % ONE as int;
                &&& c.r == self.a.r + mul_spec(self.distance.r as int, f)
                &&& c.g == self.a.g + mul_spec(self.distance.g as int, f)
                &&& c.b == self.a.b + mul_spec(self.distance.b as int, f)
            }),
    {
        let fraction = rem_one(world_point.x);
        let step = self.distance.scale(fraction);
        self.a.add(&step)
    }
}

/// Concentric rings around the y axis: `a` where the distance from the axis,
/// rounded down, is even, `b` elsewhere.
#[derive(Clone, Debug, PartialEq)]
pub struct Rings {
    pub a: Color,
    pub b: Color,
    pub base: BasePattern,
}

/// The distance of a point from the y axis in whole units, rounded down:
/// the integer square root of the squared raw coordinates, over `ONE`.
pub open spec fn ring_index(x: int, z: int) -> int {
    floor_of(int_sqrt((x * x + z * z) as nat) as int)
}

impl Rings {
    pub fn new(a: Color, b: Color) -> (s: Rings)
        ensures
            s.a == a,
            s.b == b,
            s.base.t_inverse@ == identity_spec(4),
    {
        Rings { a, b, base: BasePattern::new() }
    }

    /// The color at a point in pattern space.
    pub fn color_at_world(&self, world_point: Tuple) -> (c: Color)
        requires
            -0x4000_0000_0000_0000 < world_point.x < 0x4000_0000_0000_0000,
            -0x4000_0000_0000_0000 < world_point.z < 0x4000_0000_0000_0000,
        ensures
            c == if ring_index(world_point.x as int, world_point.z as int) % 2 == 0 {
                self.a
            } else {
                self.b
            },
    {
        let x = world_point.x as i128;
        let z = world_point.z as i128;
        proof {
            assert(0 <= x * x < 0x1000_0000_0000_0000_0000_0000_0000_0000) by (nonlinear_arith)
                requires
                    -0x4000_0000_0000_0000 < x < 0x4000_0000_0000_0000,
            ;
            assert(0 <= z * z < 0x1000_0000_0000_0000_0000_0000_0000_0000) by (nonlinear_arith)
                requires
                    -0x4000_0000_0000_0000 < z < 0x4000_0000_0000_0000,
            ;
        }
        let root = isqrt((x * x + z * z) as u128);
        let index = (root / (ONE as u128)) as i64;
        if index % 2 == 0 {
            self.a
        } else {
            self.b
        }
    }
}

/// One color everywhere.
#[derive(Clone, Copy, Debug, PartialEq, Eq, Structural)]
pub struct Solid {
    pub color: Color,
}

impl Solid {
    pub fn new(color: Color) -> (s: Solid)
        ensures
            s.color == color,
    {
        Solid { color }
    }

    /// The color, wherever the point is.
    pub fn color_at_object(&self, _world_point: Tuple) -> (c: Color)
        ensures
            c == self.color,
    {
        self.color
    }
}

/// A pattern that colors a point by its own coordinates, for checking that
/// points are carried into pattern space.
#[derive(Clone, Debug, PartialEq)]
pub struct TestPattern {
    pub base: BasePattern,
}

impl TestPattern {
    pub fn new() -> (t: TestPattern)
        ensures
            t.base.t_inverse@ == identity_spec(4),
    {
        TestPattern { base: BasePattern::new() }
    }

    /// The color whose channels are the point's coordinates.
    pub fn color_at_world(&self, world_point: Tuple) -> (c: Color)
        ensures
            c == (Color { r: world_point.x, g: world_point.y, b: world_point.z }),
    {
        Color::new(world_point.x, world_point.y, world_point.z)
    }
}

impl Default for Stripes {
    /// White and black stripes.
    fn default() -> (s: Stripes)
        ensures
            s.a == (Color { r: ONE, g: ONE, b: ONE }),
            s.b == (Color { r: 0, g: 0, b: 0 }),
            s.base.t_inverse@ == identity_spec(4),
    {
        Stripes::new(white(), black())
    }
}

impl Default for Checkers {
    /// White and black checkers.
    fn default() -> (s: Checkers)
        ensures
            s.a == (Color { r: ONE, g: ONE, b: ONE }),
            s.b == (Color { r: 0, g: 0, b: 0 }),
            s.base.t_inverse@ == identity_spec(4),
    {
        Checkers::new(white(), black())
    }
}

impl Default for Gradient {
    /// From white towards black.
    fn default() -> (g: Gradient)
        ensures
            g.a == (Color { r: ONE, g: ONE, b: ONE }),
            g.distance == (Color { r: (-ONE) as i64, g: (-ONE) as i64, b: (-ONE) as i64 }),
            g.base.t_inverse@ == identity_spec(4),
    {
        Gradient::new(white(), black())
    }
}

impl Default for Rings {
    /// White and black rings.
    fn default() -> (s: Rings)
        ensures
            s.a == (Color { r: ONE, g: ONE, b: ONE }),
            s.b == (Color { r: 0, g: 0, b: 0 }),
            s.base.t_inverse@ == identity_spec(4),
    {
        Rings::new(white(), black())
    }
}

impl Default for Solid {
    /// Black everywhere.
    fn default() -> (s: Solid)
        ensures
            s.color == (Color { r: 0, g: 0, b: 0 }),
    {
        Solid::new(Color::new(0, 0, 0))
    }
}

} // verus!
