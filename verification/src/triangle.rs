//! Triangles: their edges and normal, where a ray meets them (the
//! Möller–Trumbore test, in fixed point), their bounding boxes, and smooth
//! triangles whose normal is blended from the normals at their corners.
use vstd::prelude::*;
use crate::bounding_box::{bounds_of, BoundingBox};
use crate::fixed::{div_spec, in_range, mul_spec, product, quotient, ONE};
use crate::ray::Ray;
use crate::tuple::{
    add_fits, cross_fits, cross_spec, dot_fits, dot_spec, norm_fits, scale_fits, sub_fits,
    unit_spec, Tuple,
};

verus! {

/// How close to zero the determinant of the intersection test may come
/// before the ray counts as parallel to the triangle: a determinant below
/// 1e-7 in magnitude, which is 429.5 raw units, counts as parallel.
pub const PARALLEL_EPSILON: i64 = 430;

/// A triangle given by its corners, with its two edges from the first
/// corner and its unit normal.
#[derive(Clone, Copy, Debug, PartialEq, Eq, Structural)]
pub struct Triangle {
    pub p1: Tuple,
    pub p2: Tuple,
    pub p3: Tuple,
    pub e1: Tuple,
    pub e2: Tuple,
    pub normal: Tuple,
}

/// A triangle with a normal at each corner.
#[derive(Clone, Copy, Debug, PartialEq, Eq, Structural)]
pub struct SmoothTriangle {
    pub base: Triangle,
    pub n1: Tuple,
    pub n2: Tuple,
    pub n3: Tuple,
}

/// Where a ray meets a triangle: the distance along the ray, and the
/// barycentric coordinates `u` (towards the second corner) and `v`
/// (towards the third).
#[derive(Clone, Copy, Debug, PartialEq, Eq, Structural)]
pub struct TriangleHit {
    pub distance: i64,
    pub u: i64,
    pub v: i64,
}

/// The exact component-wise difference `a - b`.
pub open spec fn diff(a: Tuple, b: Tuple) -> Tuple {
    Tuple {
        x: (a.x - b.x) as i64,
        y: (a.y - b.y) as i64,
        z: (a.z - b.z) as i64,
        w: (a.w - b.w) as i64,
    }
}

/// The cross product of `a` and `b` as a vector.
pub open spec fn cross_vector(a: Tuple, b: Tuple) -> Tuple {
    Tuple {
        x: cross_spec(a, b).0 as i64,
        y: cross_spec(a, b).1 as i64,
        z: cross_spec(a, b).2 as i64,
        w: 0,
    }
}

/// Whether `Triangle::new` can build the triangle without overflow.
pub open spec fn triangle_fits(p1: Tuple, p2: Tuple, p3: Tuple) -> bool {
    &&& sub_fits(p2, p1)
    &&& sub_fits(p3, p1)
    &&& cross_fits(diff(p3, p1), diff(p2, p1))
    &&& norm_fits(cross_vector(diff(p3, p1), diff(p2, p1)))
}

/// The triangle with corners `p1`, `p2`, `p3`: its edges are `p2 - p1` and
/// `p3 - p1`, and its normal is the unit vector along
/// `(p3 - p1) x (p2 - p1)`.
pub open spec fn triangle_spec(p1: Tuple, p2: Tuple, p3: Tuple) -> Triangle {
    let e1 = diff(p2, p1);
    let e2 = diff(p3, p1);
    Triangle { p1, p2, p3, e1, e2, normal: unit_spec(cross_vector(e2, e1)) }
}

/// Whether the ray is too close to parallel to the triangle's plane for
/// the test to go on: the determinant is within `PARALLEL_EPSILON` of zero.
pub open spec fn is_parallel(det: int) -> bool {
    -PARALLEL_EPSILON < det < PARALLEL_EPSILON
}

/// Where the ray `r` meets the triangle `t`, by the Möller–Trumbore test:
/// with `d` the ray's direction and `p` the vector from the first corner
/// to the ray's origin, `det = e1 . (d x e2)` and `f = 1 / det`; the
/// barycentric coordinates are `u = f (p . (d x e2))` and
/// `v = f (d . (p x e1))`, and the distance is `f (e2 . (p x e1))`. The ray
/// misses when it is parallel to the triangle, when `u` is outside
/// `[0, 1]`, or when `v < 0` or `u + v > 1`. Every product and quotient is
/// rounded as `crate::fixed` rounds it.
pub open spec fn intersect_spec(t: Triangle, r: Ray) -> Option<TriangleHit> {
    let dce2 = cross_vector(r.direction, t.e2);
    let det = dot_spec(t.e1, dce2);
    if is_parallel(det) {
        None
    } else {
        let f = div_spec(ONE as int, det);
        let p = diff(r.origin, t.p1);
        let u = mul_spec(f, dot_spec(p, dce2));
        if u < 0 || u > ONE {
            None
        } else {
            let oce1 = cross_vector(p, t.e1);
            let v = mul_spec(f, dot_spec(r.direction, oce1));
            if v < 0 || u + v > ONE {
                None
            } else {
                Some(
                    TriangleHit {
                        distance: mul_spec(f, dot_spec(t.e2, oce1)) as i64,
                        u: u as i64,
                        v: v as i64,
                    },
                )
            }
        }
    }
}

/// Whether the test of `intersect_spec` can be carried out without
/// overflow, step by step as far as it goes.
pub open spec fn intersect_fits(t: Triangle, r: Ray) -> bool {
    let dce2 = cross_vector(r.direction, t.e2);
    let det = dot_spec(t.e1, dce2);
    &&& cross_fits(r.direction, t.e2)
    &&& dot_fits(t.e1, dce2)
    &&& !is_parallel(det) ==> {
        let f = div_spec(ONE as int, det);
        let p = diff(r.origin, t.p1);
        let u = mul_spec(f, dot_spec(p, dce2));
        &&& sub_fits(r.origin, t.p1)
        &&& dot_fits(p, dce2)
        &&& in_range(u)
        &&& 0 <= u <= ONE ==> {
            let oce1 = cross_vector(p, t.e1);
            let v = mul_spec(f, dot_spec(r.direction, oce1));
            &&& cross_fits(p, t.e1)
            &&& dot_fits(r.direction, oce1)
            &&& in_range(v)
            &&& (0 <= v && u + v <= ONE) ==> {
                &&& dot_fits(t.e2, oce1)
                &&& in_range(mul_spec(f, dot_spec(t.e2, oce1)))
            }
        }
    }
}

/// The normal of a smooth triangle at barycentric coordinates `u` and `v`:
/// `n2 * u + n3 * v + n1 * (1 - u - v)`, each product rounded.
pub open spec fn blended_normal_spec(s: SmoothTriangle, u: int, v: int) -> (int, int, int, int) {
    let k = ONE - u - v;
    (
        mul_spec(s.n2.x as int, u) + mul_spec(s.n3.x as int, v) + mul_spec(s.n1.x as int, k),
        mul_spec(s.n2.y as int, u) + mul_spec(s.n3.y as int, v) + mul_spec(s.n1.y as int, k),
        mul_spec(s.n2.z as int, u) + mul_spec(s.n3.z as int, v) + mul_spec(s.n1.z as int, k),
        mul_spec(s.n2.w as int, u) + mul_spec(s.n3.w as int, v) + mul_spec(s.n1.w as int, k),
    )
}

/// Whether `SmoothTriangle::local_norm_at` can blend the normals without
/// overflow.
pub open spec fn blend_fits(s: SmoothTriangle, u: int, v: int) -> bool {
    let k = ONE - u - v;
    let a = Tuple {
        x: mul_spec(s.n2.x as int, u) as i64,
        y: mul_spec(s.n2.y as int, u) as i64,
        z: mul_spec(s.n2.z as int, u) as i64,
        w: mul_spec(s.n2.w as int, u) as i64,
    };
    let b = Tuple {
        x: mul_spec(s.n3.x as int, v) as i64,
        y: mul_spec(s.n3.y as int, v) as i64,
        z: mul_spec(s.n3.z as int, v) as i64,
        w: mul_spec(s.n3.w as int, v) as i64,
    };
    let c = Tuple {
        x: mul_spec(s.n1.x as int, k) as i64,
        y: mul_spec(s.n1.y as int, k) as i64,
        z: mul_spec(s.n1.z as int, k) as i64,
        w: mul_spec(s.n1.w as int, k) as i64,
    };
    &&& in_range(ONE - u)
    &&& in_range(k)
    &&& scale_fits(s.n2, u)
    &&& scale_fits(s.n3, v)
    &&& scale_fits(s.n1, k)
    &&& add_fits(a, b)
    &&& add_fits(diff_sum(a, b), c)
}

/// The exact component-wise sum `a + b`.
pub open spec fn diff_sum(a: Tuple, b: Tuple) -> Tuple {
    Tuple {
        x: (a.x + b.x) as i64,
        y: (a.y + b.y) as i64,
        z: (a.z + b.z) as i64,
        w: (a.w + b.w) as i64,
    }
}

impl Triangle {
    /// The triangle with the given corners (see `triangle_spec`).
    pub fn new(p1: Tuple, p2: Tuple, p3: Tuple) -> (t: Triangle)
        requires
            triangle_fits(p1, p2, p3),
        ensures
            t == triangle_spec(p1, p2, p3),
    {
        let e1 = p2.sub(&p1);
        let e2 = p3.sub(&p1);
        let c = e2.cross(&e1);
        let normal = c.norm();
        Triangle { p1, p2, p3, e1, e2, normal }
    }

    /// Where the ray meets the triangle: no hit, or one (see
    /// `intersect_spec`).
    pub fn local_intersect(&self, object_ray: Ray) -> (xs: Vec<TriangleHit>)
        requires
            intersect_fits(*self, object_ray),
        ensures
            xs@ == match intersect_spec(*self, object_ray) {
                Some(h) => seq![h],
                None => Seq::<TriangleHit>::empty(),
            },
    {
        let mut xs: Vec<TriangleHit> = Vec::new();
        // a vector orthogonal to the ray and the second edge
        let dir_cross_e2 = object_ray.direction.cross(&self.e2);
        // the first edge nearly orthogonal to it: the ray runs along the plane
        let determinant = self.e1.dot(&dir_cross_e2);
        if -PARALLEL_EPSILON < determinant && determinant < PARALLEL_EPSILON {
            return xs;
        }
        proof {
            lemma_reciprocal_in_range(determinant as int);
        }
        let f = quotient(ONE, determinant);
        let p1_to_origin = object_ray.origin.sub(&self.p1);
        let u = product(f, p1_to_origin.dot(&dir_cross_e2));
        if u < 0 || u > ONE {
            return xs;
        }
        let origin_cross_e1 = p1_to_origin.cross(&self.e1);
        let v = product(f, object_ray.direction.dot(&origin_cross_e1));
        if v < 0 || v > ONE - u {
            return xs;
        }
        let distance = product(f, self.e2.dot(&origin_cross_e1));
        xs.push(TriangleHit { distance, u, v });
        xs
    }

    /// The normal: the same at every point of the triangle.
    pub fn local_norm_at(&self, _object_point: Tuple) -> (n: Tuple)
        ensures
            n == self.normal,
    {
        self.normal
    }

    /// The box that holds the three corners.
    pub fn bounding_box(&self) -> (b: BoundingBox)
        ensures
            b == bounds_of(seq![self.p1, self.p2, self.p3]),
    {
        let mut b = BoundingBox::empty();
        b.add_point(self.p1);
        b.add_point(self.p2);
        b.add_point(self.p3);
        proof {
            let s = seq![self.p1, self.p2, self.p3];
            assert(s.drop_last() =~= seq![self.p1, self.p2]);
            assert(s.drop_last().drop_last() =~= seq![self.p1]);
            assert(s.drop_last().drop_last().drop_last() =~= Seq::<Tuple>::empty());
            let s1 = seq![self.p1];
            let s2 = seq![self.p1, self.p2];
            assert(s1.drop_last() =~= Seq::<Tuple>::empty());
            assert(s2.drop_last() =~= s1);
            assert(bounds_of(Seq::<Tuple>::empty()) == BoundingBox::empty_spec());
            assert(bounds_of(s1) == BoundingBox::empty_spec().add_point_spec(self.p1));
            assert(bounds_of(seq![self.p1, self.p2]) == bounds_of(seq![self.p1]).add_point_spec(
                self.p2,
            ));
            assert(bounds_of(s) == bounds_of(seq![self.p1, self.p2]).add_point_spec(self.p3));
        }
        b
    }
}

/// The reciprocal of a determinant that is not too close to zero fits a raw
/// scalar.
proof fn lemma_reciprocal_in_range(det: int)
    requires
        !is_parallel(det),
        in_range(det),
    ensures
        in_range(div_spec(ONE as int, det)),
{
    let n: int = 0x1_0000_0000_0000_0000;
    assert(ONE as int * ONE == n);
    if det > 0 {
        vstd::arithmetic::div_mod::lemma_div_is_ordered_by_denominator(n, PARALLEL_EPSILON as int, det);
        vstd::arithmetic::div_mod::lemma_div_pos_is_pos(n, det);
        assert(n / (PARALLEL_EPSILON as int) < 0x8000_0000_0000_0000);
    } else {
        let d = -det;
        assert(-(ONE as int) * ONE == -n);
        let q = (-n) / d;
        let r = (-n) % d;
        vstd::arithmetic::div_mod::lemma_fundamental_div_mod(-n, d);
        assert(q > -0x4000_0000_0000_0000) by (nonlinear_arith)
            requires
                d >= 430,
                -n == d * q + r,
                0 <= r < d,
                n == 0x1_0000_0000_0000_0000,
        ;
        assert(q < 0) by (nonlinear_arith)
            requires
                d >= 430,
                -n == d * q + r,
                0 <= r < d,
                n == 0x1_0000_0000_0000_0000,
        ;
    }
}

impl SmoothTriangle {
    /// The triangle with corners `p1`, `p2`, `p3` and normals `n1`, `n2`,
    /// `n3` at those corners.
    pub fn new(p1: Tuple, p2: Tuple, p3: Tuple, n1: Tuple, n2: Tuple, n3: Tuple) -> (t:
        SmoothTriangle)
        requires
            triangle_fits(p1, p2, p3),
        ensures
            t.base == triangle_spec(p1, p2, p3),
            t.n1 == n1,
            t.n2 == n2,
            t.n3 == n3,
    {
        SmoothTriangle { base: Triangle::new(p1, p2, p3), n1, n2, n3 }
    }

    /// Where the ray meets the triangle (as for the flat triangle).
    pub fn local_intersect(&self, object_ray: Ray) -> (xs: Vec<TriangleHit>)
        requires
            intersect_fits(self.base, object_ray),
        ensures
            xs@ == match intersect_spec(self.base, object_ray) {
                Some(h) => seq![h],
                None => Seq::<TriangleHit>::empty(),
            },
    {
        self.base.local_intersect(object_ray)
    }

    /// The normal where the ray met the triangle at barycentric
    /// coordinates `u` and `v` (see `blended_normal_spec`).
    pub fn local_norm_at(&self, _object_point: Tuple, u: i64, v: i64) -> (n: Tuple)
        requires
            blend_fits(*self, u as int, v as int),
        ensures
            n.x == blended_normal_spec(*self, u as int, v as int).0,
            n.y == blended_normal_spec(*self, u as int, v as int).1,
            n.z == blended_normal_spec(*self, u as int, v as int).2,
            n.w == blended_normal_spec(*self, u as int, v as int).3,
    {
        let k = ONE - u - v;
        let a = self.n2.scale(u);
        let b = self.n3.scale(v);
        let c = self.n1.scale(k);
        let ab = a.add(&b);
        ab.add(&c)
    }

    /// The box that holds the three corners (the corner normals play no
    /// part).
    pub fn bounding_box(&self) -> (b: BoundingBox)
        ensures
            b == bounds_of(seq![self.base.p1, self.base.p2, self.base.p3]),
    {
        self.base.bounding_box()
    }
}

/// A hit on a triangle lies within it: its barycentric coordinates `u` and
/// `v` are at least zero and add up to at most one.
pub proof fn lemma_hit_within_triangle(t: Triangle, r: Ray)
    ensures
        intersect_spec(t, r) matches Some(h) ==> 0 <= h.u && 0 <= h.v && h.u + h.v <= ONE,
{
}

} // verus!
