//! Axis-aligned bounding boxes.
use vstd::prelude::*;
use crate::fixed::{in_range, ONE};
use crate::tuple::Tuple;
use crate::ray::Ray;
use crate::matrix::{is_square, tuple_product_fits, tuple_product_spec, Matrix};

verus! {

/// An axis-aligned box given by its minimum and maximum corners.
///
/// The empty box has `i64::MAX` in every coordinate of `min` and `i64::MIN`
/// in every coordinate of `max`: these extreme raw values stand for the
/// positive and negative infinities, so that adding any point yields the box
/// that holds just that point.
#[derive(Clone, Copy, Debug, PartialEq, Eq, Structural)]
pub struct BoundingBox {
    pub min: Tuple,
    pub max: Tuple,
}

pub open spec fn min_int(a: int, b: int) -> int {
    if a <= b {
        a
    } else {
        b
    }
}

pub open spec fn max_int(a: int, b: int) -> int {
    if a >= b {
        a
    } else {
        b
    }
}

/// Whether `v` lies in the closed interval from `lo` to `hi`.
pub open spec fn between(v: int, lo: int, hi: int) -> bool {
    lo <= v && v <= hi
}

fn min_i64(a: i64, b: i64) -> (r: i64)
    ensures
        r == min_int(a as int, b as int),
{
    if a <= b {
        a
    } else {
        b
    }
}

fn max_i128(a: i128, b: i128) -> (r: i128)
    ensures
        r == max_int(a as int, b as int),
{
    if a >= b {
        a
    } else {
        b
    }
}

/// `lo` plus half of the way from `lo` to `hi`, rounded down: it lies
/// between the two, so it always fits.
fn midpoint(lo: i64, hi: i64) -> (m: i64)
    ensures
        m == lo + (hi - lo) / 2,
{
    let d = hi as i128 - lo as i128;
    let q = crate::fixed::floor_div_i128(d, 2);
    proof {
        vstd::arithmetic::div_mod::lemma_fundamental_div_mod(d as int, 2);
        assert(d >= 0 ==> 0 <= q <= d);
        assert(d < 0 ==> d <= q < 0);
    }
    (lo as i128 + q) as i64
}

fn max_i64(a: i64, b: i64) -> (r: i64)
    ensures
        r == max_int(a as int, b as int),
{
    if a >= b {
        a
    } else {
        b
    }
}



/// One axis of a ray against a box: the ray's origin coordinate `o` and
/// direction component `d`, and the box's bounds `lo` and `hi` on that axis.
pub struct Axis {
    pub o: int,
    pub d: int,
    pub lo: int,
    pub hi: int,
}

/// Whether the point at parameter `p / q` (with `q > 0`) along the line
/// `o + t * d` lies between `lo` and `hi`.
pub open spec fn axis_hit(a: Axis, p: int, q: int) -> bool {
    a.lo * q <= a.o * q + p * a.d && a.o * q + p * a.d <= a.hi * q
}

/// The absolute value of the direction component.
pub open spec fn axis_den(a: Axis) -> int {
    if a.d >= 0 {
        a.d
    } else {
        -a.d
    }
}

/// Numerator of the smallest parameter at which the line is on the slab,
/// over `axis_den(a)` (for a non-zero direction component).
pub open spec fn axis_low(a: Axis) -> int {
    if a.d > 0 {
        a.lo - a.o
    } else {
        a.o - a.hi
    }
}

/// Numerator of the largest parameter at which the line is on the slab,
/// over `axis_den(a)` (for a non-zero direction component).
pub open spec fn axis_high(a: Axis) -> int {
    if a.d > 0 {
        a.hi - a.o
    } else {
        a.o - a.lo
    }
}

/// `n1 / d1 <= n2 / d2` for positive denominators.
pub open spec fn frac_le(n1: int, d1: int, n2: int, d2: int) -> bool {
    n1 * d2 <= n2 * d1
}

/// For an axis with a zero direction component: the origin is on the slab.
pub open spec fn still_axis_ok(a: Axis) -> bool {
    a.d != 0 || (a.lo <= a.o && a.o <= a.hi)
}

/// For two axes with non-zero direction components: the line enters the
/// slab of `a` no later than it leaves the slab of `b`.
pub open spec fn pair_ok(a: Axis, b: Axis) -> bool {
    a.d == 0 || b.d == 0 || frac_le(axis_low(a), axis_den(a), axis_high(b), axis_den(b))
}

pub open spec fn slabs_overlap(a: Axis, b: Axis, c: Axis) -> bool {
    &&& still_axis_ok(a)
    &&& still_axis_ok(b)
    &&& still_axis_ok(c)
    &&& pair_ok(a, a) && pair_ok(a, b) && pair_ok(a, c)
    &&& pair_ok(b, a) && pair_ok(b, b) && pair_ok(b, c)
    &&& pair_ok(c, a) && pair_ok(c, b) && pair_ok(c, c)
}

/// Whether some point of the line through the ray (at a rational parameter,
/// before or after its origin) lies in the three slabs.
pub open spec fn line_meets(a: Axis, b: Axis, c: Axis) -> bool {
    exists|p: int, q: int| q > 0 && #[trigger] axis_hit(a, p, q) && axis_hit(b, p, q) && axis_hit(c, p, q)
}

pub open spec fn x_axis(bx: BoundingBox, r: Ray) -> Axis {
    Axis { o: r.origin.x as int, d: r.direction.x as int, lo: bx.min.x as int, hi: bx.max.x as int }
}

pub open spec fn y_axis(bx: BoundingBox, r: Ray) -> Axis {
    Axis { o: r.origin.y as int, d: r.direction.y as int, lo: bx.min.y as int, hi: bx.max.y as int }
}

pub open spec fn z_axis(bx: BoundingBox, r: Ray) -> Axis {
    Axis { o: r.origin.z as int, d: r.direction.z as int, lo: bx.min.z as int, hi: bx.max.z as int }
}

/// Whether the line through the ray meets the closed box.
pub open spec fn ray_meets_box(bx: BoundingBox, r: Ray) -> bool {
    line_meets(x_axis(bx, r), y_axis(bx, r), z_axis(bx, r))
}

/// With a non-zero direction component, the line is on the slab at `p / q`
/// exactly when `p / q` lies between the entry and exit parameters.
proof fn lemma_axis_hit_moving(a: Axis, p: int, q: int)
    requires
        a.d != 0,
        q > 0,
    ensures
        axis_hit(a, p, q) <==> (axis_low(a) * q <= p * axis_den(a) && p * axis_den(a) <= axis_high(
            a,
        ) * q),
{
    assert(a.lo * q - a.o * q == (a.lo - a.o) * q) by (nonlinear_arith);
    assert(a.hi * q - a.o * q == (a.hi - a.o) * q) by (nonlinear_arith);
    assert(a.o * q - a.lo * q == (a.o - a.lo) * q) by (nonlinear_arith);
    assert(a.o * q - a.hi * q == (a.o - a.hi) * q) by (nonlinear_arith);
    assert(p * (-a.d) == -(p * a.d)) by (nonlinear_arith);
}

/// With a zero direction component, the line is on the slab (anywhere)
/// exactly when the origin is.
proof fn lemma_axis_hit_still(a: Axis, p: int, q: int)
    requires
        a.d == 0,
        q > 0,
    ensures
        axis_hit(a, p, q) <==> (a.lo <= a.o && a.o <= a.hi),
{
    assert(p * a.d == 0) by (nonlinear_arith)
        requires
            a.d == 0,
    ;
    if a.lo <= a.o {
        assert(a.lo * q <= a.o * q) by (nonlinear_arith)
            requires
                a.lo <= a.o,
                q > 0,
        ;
    } else {
        assert(a.lo * q > a.o * q) by (nonlinear_arith)
            requires
                a.lo > a.o,
                q > 0,
        ;
    }
    if a.o <= a.hi {
        assert(a.o * q <= a.hi * q) by (nonlinear_arith)
            requires
                a.o <= a.hi,
                q > 0,
        ;
    } else {
        assert(a.o * q > a.hi * q) by (nonlinear_arith)
            requires
                a.o > a.hi,
                q > 0,
        ;
    }
}

proof fn lemma_frac_chain(n1: int, d1: int, p: int, q: int, n2: int, d2: int)
    requires
        d1 > 0,
        d2 > 0,
        q > 0,
        n1 * q <= p * d1,
        p * d2 <= n2 * q,
    ensures
        frac_le(n1, d1, n2, d2),
{
    assert(n1 * q * d2 <= p * d1 * d2) by (nonlinear_arith)
        requires
            n1 * q <= p * d1,
            d2 > 0,
    ;
    assert(p * d2 * d1 <= n2 * q * d1) by (nonlinear_arith)
        requires
            p * d2 <= n2 * q,
            d1 > 0,
    ;
    assert((n1 * d2) * q <= (n2 * d1) * q) by (nonlinear_arith)
        requires
            n1 * q * d2 <= p * d1 * d2,
            p * d2 * d1 <= n2 * q * d1,
    ;
    assert(n1 * d2 <= n2 * d1) by (nonlinear_arith)
        requires
            (n1 * d2) * q <= (n2 * d1) * q,
            q > 0,
    ;
}

proof fn lemma_frac_trans(n1: int, d1: int, n2: int, d2: int, n3: int, d3: int)
    requires
        d1 > 0,
        d2 > 0,
        d3 > 0,
        frac_le(n1, d1, n2, d2),
        frac_le(n2, d2, n3, d3),
    ensures
        frac_le(n1, d1, n3, d3),
{
    lemma_frac_chain(n1, d1, n2, d2, n3, d3);
}

/// Of two axes, the one whose line enters its slab later (only axes with a
/// non-zero direction component count).
pub open spec fn later_entry(k: Axis, m: Axis) -> Axis {
    if k.d == 0 {
        m
    } else if m.d != 0 && !frac_le(axis_low(m), axis_den(m), axis_low(k), axis_den(k)) {
        m
    } else {
        k
    }
}

proof fn lemma_later_entry(k: Axis, m: Axis, x: Axis)
    requires
        x.d != 0 ==> (k.d != 0 && frac_le(axis_low(x), axis_den(x), axis_low(k), axis_den(k))),
    ensures
        later_entry(k, m) == k || later_entry(k, m) == m,
        x.d != 0 ==> frac_le(
            axis_low(x),
            axis_den(x),
            axis_low(later_entry(k, m)),
            axis_den(later_entry(k, m)),
        ),
        m.d != 0 ==> frac_le(
            axis_low(m),
            axis_den(m),
            axis_low(later_entry(k, m)),
            axis_den(later_entry(k, m)),
        ),
        later_entry(k, m).d == 0 ==> k.d == 0 && m.d == 0,
{
    let r = later_entry(k, m);
    if x.d != 0 && r == m && m.d != 0 && k.d != 0 {
        lemma_frac_trans(
            axis_low(x),
            axis_den(x),
            axis_low(k),
            axis_den(k),
            axis_low(m),
            axis_den(m),
        );
    }
}

/// The line meets the three slabs exactly when they overlap pairwise.
pub proof fn lemma_line_meets_iff(a: Axis, b: Axis, c: Axis)
    ensures
        line_meets(a, b, c) <==> slabs_overlap(a, b, c),
{
    if line_meets(a, b, c) {
        let (p, q) = choose|p: int, q: int|
            q > 0 && #[trigger] axis_hit(a, p, q) && axis_hit(b, p, q) && axis_hit(c, p, q);
        lemma_meets_gives_overlap(a, b, c, p, q);
    }
    if slabs_overlap(a, b, c) {
        lemma_overlap_gives_meets(a, b, c);
    }
}

proof fn lemma_hit_bounds(a: Axis, p: int, q: int)
    requires
        q > 0,
        axis_hit(a, p, q),
    ensures
        still_axis_ok(a),
        a.d != 0 ==> axis_low(a) * q <= p * axis_den(a) && p * axis_den(a) <= axis_high(a) * q,
{
    if a.d == 0 {
        lemma_axis_hit_still(a, p, q);
    } else {
        lemma_axis_hit_moving(a, p, q);
    }
}

proof fn lemma_pair_from_hits(a: Axis, b: Axis, p: int, q: int)
    requires
        q > 0,
        axis_hit(a, p, q),
        axis_hit(b, p, q),
    ensures
        pair_ok(a, b),
{
    lemma_hit_bounds(a, p, q);
    lemma_hit_bounds(b, p, q);
    if a.d != 0 && b.d != 0 {
        lemma_frac_chain(axis_low(a), axis_den(a), p, q, axis_high(b), axis_den(b));
    }
}

proof fn lemma_meets_gives_overlap(a: Axis, b: Axis, c: Axis, p: int, q: int)
    requires
        q > 0,
        axis_hit(a, p, q),
        axis_hit(b, p, q),
        axis_hit(c, p, q),
    ensures
        slabs_overlap(a, b, c),
{
    lemma_hit_bounds(a, p, q);
    lemma_hit_bounds(b, p, q);
    lemma_hit_bounds(c, p, q);
    lemma_pair_from_hits(a, a, p, q);
    lemma_pair_from_hits(a, b, p, q);
    lemma_pair_from_hits(a, c, p, q);
    lemma_pair_from_hits(b, a, p, q);
    lemma_pair_from_hits(b, b, p, q);
    lemma_pair_from_hits(b, c, p, q);
    lemma_pair_from_hits(c, a, p, q);
    lemma_pair_from_hits(c, b, p, q);
    lemma_pair_from_hits(c, c, p, q);
}

/// The entry parameter of `k` puts the line on the slab of `x`, given that
/// `x` enters no later than `k` and `k` enters no later than `x` leaves.
proof fn lemma_witness_axis(k: Axis, x: Axis)
    requires
        k.d != 0,
        still_axis_ok(x),
        x.d != 0 ==> frac_le(axis_low(x), axis_den(x), axis_low(k), axis_den(k)),
        pair_ok(k, x),
    ensures
        axis_hit(x, axis_low(k), axis_den(k)),
{
    let p = axis_low(k);
    let q = axis_den(k);
    if x.d == 0 {
        lemma_axis_hit_still(x, p, q);
    } else {
        assert(axis_low(x) * q <= p * axis_den(x)) by (nonlinear_arith)
            requires
                axis_low(x) * axis_den(k) <= axis_low(k) * axis_den(x),
                p == axis_low(k),
                q == axis_den(k),
        ;
        assert(p * axis_den(x) <= axis_high(x) * q) by (nonlinear_arith)
            requires
                axis_low(k) * axis_den(x) <= axis_high(x) * axis_den(k),
                p == axis_low(k),
                q == axis_den(k),
        ;
        lemma_axis_hit_moving(x, p, q);
    }
}

proof fn lemma_overlap_gives_meets(a: Axis, b: Axis, c: Axis)
    requires
        slabs_overlap(a, b, c),
    ensures
        line_meets(a, b, c),
{
    let k1 = later_entry(a, b);
    lemma_later_entry(a, b, a);
    let k = later_entry(k1, c);
    lemma_later_entry(k1, c, a);
    lemma_later_entry(k1, c, b);
    if k.d == 0 {
        lemma_axis_hit_still(a, 0, 1);
        lemma_axis_hit_still(b, 0, 1);
        lemma_axis_hit_still(c, 0, 1);
        assert(axis_hit(a, 0, 1) && axis_hit(b, 0, 1) && axis_hit(c, 0, 1));
    } else {
        lemma_witness_axis(k, a);
        lemma_witness_axis(k, b);
        lemma_witness_axis(k, c);
        let p = axis_low(k);
        let q = axis_den(k);
        assert(q > 0 && axis_hit(a, p, q) && axis_hit(b, p, q) && axis_hit(c, p, q));
    }
}


/// The entry numerator, exit numerator and denominator of one axis, and
/// whether its direction component is zero.
struct AxisBounds {
    still: bool,
    low: i128,
    high: i128,
    den: i128,
}

impl AxisBounds {
    spec fn matches(self, a: Axis) -> bool {
        &&& self.still == (a.d == 0)
        &&& self.low == axis_low(a)
        &&& self.high == axis_high(a)
        &&& self.den == axis_den(a)
        &&& -0x1_0000_0000_0000_0000 < self.low < 0x1_0000_0000_0000_0000
        &&& -0x1_0000_0000_0000_0000 < self.high < 0x1_0000_0000_0000_0000
        &&& 0 <= self.den <= 0x8000_0000_0000_0000
    }
}

fn axis_bounds(o: i64, d: i64, lo: i64, hi: i64) -> (r: AxisBounds)
    ensures
        r.matches(Axis { o: o as int, d: d as int, lo: lo as int, hi: hi as int }),
{
    let o = o as i128;
    let d = d as i128;
    let lo = lo as i128;
    let hi = hi as i128;
    if d > 0 {
        AxisBounds { still: false, low: lo - o, high: hi - o, den: d }
    } else {
        AxisBounds { still: d == 0, low: o - hi, high: o - lo, den: -d }
    }
}

fn still_ok_exec(b: &AxisBounds, o: i64, lo: i64, hi: i64) -> (r: bool)
    ensures
        r == (!b.still || (lo <= o && o <= hi)),
{
    !b.still || (lo <= o && o <= hi)
}

fn pair_ok_exec(a: &AxisBounds, b: &AxisBounds) -> (r: bool)
    requires
        a.den > 0 || a.still,
        b.den > 0 || b.still,
        -0x1_0000_0000_0000_0000 < a.low < 0x1_0000_0000_0000_0000,
        -0x1_0000_0000_0000_0000 < b.high < 0x1_0000_0000_0000_0000,
        0 <= a.den <= 0x8000_0000_0000_0000,
        0 <= b.den <= 0x8000_0000_0000_0000,
    ensures
        r == (a.still || b.still || frac_le(a.low as int, a.den as int, b.high as int, b.den as int)),
{
    if a.still || b.still {
        true
    } else {
        proof {
            assert(-0x7fff_ffff_ffff_ffff_8000_0000_0000_0000 <= (a.low as int) * (b.den as int)
                <= 0x7fff_ffff_ffff_ffff_8000_0000_0000_0000) by (nonlinear_arith)
                requires
                    -0x1_0000_0000_0000_0000 < a.low < 0x1_0000_0000_0000_0000,
                    0 <= b.den <= 0x8000_0000_0000_0000,
            ;
            assert(-0x7fff_ffff_ffff_ffff_8000_0000_0000_0000 <= (b.high as int) * (a.den as int)
                <= 0x7fff_ffff_ffff_ffff_8000_0000_0000_0000) by (nonlinear_arith)
                requires
                    -0x1_0000_0000_0000_0000 < b.high < 0x1_0000_0000_0000_0000,
                    0 <= a.den <= 0x8000_0000_0000_0000,
            ;
        }
        a.low * b.den <= b.high * a.den
    }
}

/// The box that holds the points of `vs` (the empty box when there are
/// none).
pub open spec fn bounds_of(vs: Seq<Tuple>) -> BoundingBox
    decreases vs.len(),
{
    if vs.len() == 0 {
        BoundingBox::empty_spec()
    } else {
        bounds_of(vs.drop_last()).add_point_spec(vs.last())
    }
}

/// The eight corners of a box: its minimum corner, the six points that mix
/// coordinates of both corners, and its maximum corner.
pub open spec fn corners_spec(b: BoundingBox) -> Seq<Tuple> {
    let lo = b.min;
    let hi = b.max;
    seq![
        lo,
        Tuple { x: lo.x, y: lo.y, z: hi.z, w: ONE },
        Tuple { x: lo.x, y: hi.y, z: lo.z, w: ONE },
        Tuple { x: lo.x, y: hi.y, z: hi.z, w: ONE },
        Tuple { x: hi.x, y: lo.y, z: lo.z, w: ONE },
        Tuple { x: hi.x, y: lo.y, z: hi.z, w: ONE },
        Tuple { x: hi.x, y: hi.y, z: lo.z, w: ONE },
        hi,
    ]
}

/// The corners of `b` carried by the matrix `m`.
pub open spec fn transformed_corners(b: BoundingBox, m: Seq<Seq<i64>>) -> Seq<Tuple> {
    corners_spec(b).map_values(|p: Tuple| tuple_product_spec(m, p))
}

/// Whether every corner of `b` can be carried by `m` without overflow.
pub open spec fn transform_fits(b: BoundingBox, m: Seq<Seq<i64>>) -> bool {
    forall|k: int| 0 <= k < 8 ==> #[trigger] tuple_product_fits(m, corners_spec(b)[k])
}

impl Default for BoundingBox {
    /// The empty box (see `BoundingBox::empty`).
    fn default() -> (b: BoundingBox)
        ensures
            b == BoundingBox::empty_spec(),
    {
        BoundingBox::empty()
    }
}

impl BoundingBox {
    /// Whether the box holds the point with the given coordinates (its `w`
    /// plays no part).
    pub open spec fn contains_spec(self, p: Tuple) -> bool {
        &&& between(p.x as int, self.min.x as int, self.max.x as int)
        &&& between(p.y as int, self.min.y as int, self.max.y as int)
        &&& between(p.z as int, self.min.z as int, self.max.z as int)
    }

    /// The empty box (see `empty`).
    pub open spec fn empty_spec() -> BoundingBox {
        BoundingBox {
            min: Tuple { x: i64::MAX, y: i64::MAX, z: i64::MAX, w: ONE },
            max: Tuple { x: i64::MIN, y: i64::MIN, z: i64::MIN, w: ONE },
        }
    }

    /// Whether the box holds both corners of `other`.
    pub open spec fn contains_box_spec(self, other: BoundingBox) -> bool {
        self.contains_spec(other.min) && self.contains_spec(other.max)
    }

    /// Whether the minimum corner is below the maximum one on every axis.
    pub open spec fn is_proper(self) -> bool {
        &&& self.min.x <= self.max.x
        &&& self.min.y <= self.max.y
        &&& self.min.z <= self.max.z
    }

    /// The box that `add_point` makes of `self` and `p`.
    pub open spec fn add_point_spec(self, p: Tuple) -> BoundingBox {
        BoundingBox {
            min: Tuple {
                x: min_int(self.min.x as int, p.x as int) as i64,
                y: min_int(self.min.y as int, p.y as int) as i64,
                z: min_int(self.min.z as int, p.z as int) as i64,
                w: self.min.w,
            },
            max: Tuple {
                x: max_int(self.max.x as int, p.x as int) as i64,
                y: max_int(self.max.y as int, p.y as int) as i64,
                z: max_int(self.max.z as int, p.z as int) as i64,
                w: self.max.w,
            },
        }
    }

    /// The empty box: it holds no point, and adding a point to it gives
    /// the box that holds just that point.
    pub fn empty() -> (b: BoundingBox)
        ensures
            b == BoundingBox::empty_spec(),
            b.min == (Tuple { x: i64::MAX, y: i64::MAX, z: i64::MAX, w: ONE }),
            b.max == (Tuple { x: i64::MIN, y: i64::MIN, z: i64::MIN, w: ONE }),
    {
        BoundingBox {
            min: Tuple::point(i64::MAX, i64::MAX, i64::MAX),
            max: Tuple::point(i64::MIN, i64::MIN, i64::MIN),
        }
    }

    /// The box with the given corners.
    pub fn with_bounds(min: Tuple, max: Tuple) -> (b: BoundingBox)
        ensures
            b.min == min,
            b.max == max,
    {
        BoundingBox { min, max }
    }

    /// Grows the box just enough to hold `p`.
    pub fn add_point(&mut self, p: Tuple)
        ensures
            *final(self) == old(self).add_point_spec(p),
    {
        self.min.x = min_i64(self.min.x, p.x);
        self.min.y = min_i64(self.min.y, p.y);
        self.min.z = min_i64(self.min.z, p.z);

        self.max.x = max_i64(self.max.x, p.x);
        self.max.y = max_i64(self.max.y, p.y);
        self.max.z = max_i64(self.max.z, p.z);
    }

    /// Grows the box just enough to hold both corners of `other`.
    pub fn add_bounding_box(&mut self, other: BoundingBox)
        ensures
            *final(self) == old(self).add_point_spec(other.min).add_point_spec(other.max),
    {
        self.add_point(other.min);
        self.add_point(other.max);
    }

    /// Whether `p` lies in the box, boundary included.
    pub fn contains_point(&self, p: Tuple) -> (b: bool)
        ensures
            b == self.contains_spec(p),
    {
        (p.x >= self.min.x && p.x <= self.max.x) && (p.y >= self.min.y && p.y <= self.max.y) && (
        p.z >= self.min.z && p.z <= self.max.z)
    }

    /// Whether both corners of `other` lie in the box.
    pub fn contains_bounding_box(&self, other: BoundingBox) -> (b: bool)
        ensures
            b == self.contains_box_spec(other),
    {
        self.contains_point(other.min) && self.contains_point(other.max)
    }

    /// The two halves that `split` makes: the box is cut across its widest
    /// axis (x before y before z on ties) at the midpoint, rounded down.
    pub open spec fn split_spec(self) -> (BoundingBox, BoundingBox) {
        let dx = self.max.x - self.min.x;
        let dy = self.max.y - self.min.y;
        let dz = self.max.z - self.min.z;
        let greatest = max_int(max_int(dx, dy), dz);
        let (x0, y0, z0, x1, y1, z1) = if greatest == dx {
            let x0 = self.min.x + dx / 2;
            (x0, self.min.y as int, self.min.z as int, x0, self.max.y as int, self.max.z as int)
        } else if greatest == dy {
            let y0 = self.min.y + dy / 2;
            (self.min.x as int, y0, self.min.z as int, self.max.x as int, y0, self.max.z as int)
        } else {
            let z0 = self.min.z + dz / 2;
            (self.min.x as int, self.min.y as int, z0, self.max.x as int, self.max.y as int, z0)
        };
        let mid_min = Tuple { x: x0 as i64, y: y0 as i64, z: z0 as i64, w: ONE };
        let mid_max = Tuple { x: x1 as i64, y: y1 as i64, z: z1 as i64, w: ONE };
        (
            BoundingBox { min: self.min, max: mid_max },
            BoundingBox { min: mid_min, max: self.max },
        )
    }

    /// Whether the extent of the box along each axis fits a raw scalar.
    pub open spec fn spans_fit(self) -> bool {
        &&& in_range(self.max.x - self.min.x)
        &&& in_range(self.max.y - self.min.y)
        &&& in_range(self.max.z - self.min.z)
    }

    /// The box that holds the eight corners of this box carried by the
    /// 4 by 4 matrix `m`.
    pub fn transform(&self, m: &Matrix) -> (b: BoundingBox)
        requires
            m@.len() == 4,
            is_square(m@),
            transform_fits(*self, m@),
        ensures
            b == bounds_of(transformed_corners(*self, m@)),
    {
        let ghost cs = corners_spec(*self);
        let ghost ts = transformed_corners(*self, m@);
        let mut corners: Vec<Tuple> = Vec::new();
        corners.push(self.min);
        corners.push(Tuple::point(self.min.x, self.min.y, self.max.z));
        corners.push(Tuple::point(self.min.x, self.max.y, self.min.z));
        corners.push(Tuple::point(self.min.x, self.max.y, self.max.z));
        corners.push(Tuple::point(self.max.x, self.min.y, self.min.z));
        corners.push(Tuple::point(self.max.x, self.min.y, self.max.z));
        corners.push(Tuple::point(self.max.x, self.max.y, self.min.z));
        corners.push(self.max);
        assert(corners@ =~= cs);
        let mut new_box = BoundingBox::empty();
        let mut k: usize = 0;
        assert(ts.take(0) =~= Seq::<Tuple>::empty());
        while k < 8
            invariant
                k <= 8,
                corners@ == cs,
                cs == corners_spec(*self),
                ts == transformed_corners(*self, m@),
                m@.len() == 4,
                is_square(m@),
                transform_fits(*self, m@),
                new_box == bounds_of(ts.take(k as int)),
            decreases 8 - k,
        {
            assert(tuple_product_fits(m@, cs[k as int]));
            let p = m.multiply_tuple(&corners[k]);
            new_box.add_point(p);
            assert(ts.take(k + 1).drop_last() =~= ts.take(k as int));
            k = k + 1;
        }
        assert(ts.take(8) =~= ts);
        new_box
    }

    /// Whether the line through the ray passes through the box (boundary
    /// included), at a point before or after the ray's origin.
    pub fn intersects(&self, r: Ray) -> (hit: bool)
        ensures
            hit == ray_meets_box(*self, r),
    {
        let ax = axis_bounds(r.origin.x, r.direction.x, self.min.x, self.max.x);
        let ay = axis_bounds(r.origin.y, r.direction.y, self.min.y, self.max.y);
        let az = axis_bounds(r.origin.z, r.direction.z, self.min.z, self.max.z);
        let result = still_ok_exec(&ax, r.origin.x, self.min.x, self.max.x)
            && still_ok_exec(&ay, r.origin.y, self.min.y, self.max.y)
            && still_ok_exec(&az, r.origin.z, self.min.z, self.max.z)
            && pair_ok_exec(&ax, &ax) && pair_ok_exec(&ax, &ay) && pair_ok_exec(&ax, &az)
            && pair_ok_exec(&ay, &ax) && pair_ok_exec(&ay, &ay) && pair_ok_exec(&ay, &az)
            && pair_ok_exec(&az, &ax) && pair_ok_exec(&az, &ay) && pair_ok_exec(&az, &az);
        proof {
            lemma_line_meets_iff(x_axis(*self, r), y_axis(*self, r), z_axis(*self, r));
        }
        result
    }

    /// Cuts the box in two across its widest axis, at the midpoint.
    pub fn split(&self) -> (halves: (BoundingBox, BoundingBox))
        ensures
            halves == self.split_spec(),
    {
        let dx = self.max.x as i128 - self.min.x as i128;
        let dy = self.max.y as i128 - self.min.y as i128;
        let dz = self.max.z as i128 - self.min.z as i128;

        let greatest = max_i128(max_i128(dx, dy), dz);

        let mut x0 = self.min.x;
        let mut y0 = self.min.y;
        let mut z0 = self.min.z;
        let mut x1 = self.max.x;
        let mut y1 = self.max.y;
        let mut z1 = self.max.z;

        if greatest == dx {
            x0 = midpoint(self.min.x, self.max.x);
            x1 = x0;
        } else if greatest == dy {
            y0 = midpoint(self.min.y, self.max.y);
            y1 = y0;
        } else {
            z0 = midpoint(self.min.z, self.max.z);
            z1 = z0;
        }

        let mid_min = Tuple::point(x0, y0, z0);
        let mid_max = Tuple::point(x1, y1, z1);

        let left = BoundingBox::with_bounds(self.min, mid_max);
        let right = BoundingBox::with_bounds(mid_min, self.max);
        (left, right)
    }
}

/// Whatever box `b` is, once `p` has been added the box holds `p`, and it
/// still holds every point it held before.
pub proof fn lemma_add_point_contains(b: BoundingBox, p: Tuple, q: Tuple)
    ensures
        b.add_point_spec(p).contains_spec(p),
        b.contains_spec(q) ==> b.add_point_spec(p).contains_spec(q),
{
}

/// Nothing lies in the empty box, and adding a point to the empty box gives
/// the box whose corners are both that point.
pub proof fn lemma_empty_box(p: Tuple)
    ensures
        !(BoundingBox {
            min: Tuple { x: i64::MAX, y: i64::MAX, z: i64::MAX, w: ONE },
            max: Tuple { x: i64::MIN, y: i64::MIN, z: i64::MIN, w: ONE },
        }).contains_spec(p),
        ({
            let b = (BoundingBox {
                min: Tuple { x: i64::MAX, y: i64::MAX, z: i64::MAX, w: ONE },
                max: Tuple { x: i64::MIN, y: i64::MIN, z: i64::MIN, w: ONE },
            }).add_point_spec(p);
            b.min.x == p.x && b.min.y == p.y && b.min.z == p.z && b.max.x == p.x && b.max.y == p.y
                && b.max.z == p.z
        }),
{
}

/// Once `other` has been added to `b`, `b` holds `other` (when `other` is a
/// proper box) and every point it held before.
pub proof fn lemma_add_bounding_box_contains(b: BoundingBox, other: BoundingBox, q: Tuple)
    ensures
        b.add_point_spec(other.min).add_point_spec(other.max).contains_spec(other.min),
        b.add_point_spec(other.min).add_point_spec(other.max).contains_spec(other.max),
        b.add_point_spec(other.min).add_point_spec(other.max).contains_box_spec(other),
        b.contains_spec(q) ==> b.add_point_spec(other.min).add_point_spec(
            other.max,
        ).contains_spec(q),
{
}

/// Containment of boxes is transitive: a box that holds a proper box holds
/// every point that box holds.
pub proof fn lemma_contains_box_transitive(outer: BoundingBox, inner: BoundingBox, p: Tuple)
    requires
        outer.contains_box_spec(inner),
        inner.contains_spec(p),
    ensures
        outer.contains_spec(p),
{
}

/// Splitting a proper box gives two proper boxes that both lie in it and
/// that between them hold every point it holds.
pub proof fn lemma_split_covers(b: BoundingBox, p: Tuple)
    requires
        b.is_proper(),
        b.spans_fit(),
    ensures
        b.split_spec().0.is_proper(),
        b.split_spec().1.is_proper(),
        b.contains_box_spec(b.split_spec().0),
        b.contains_box_spec(b.split_spec().1),
        b.contains_spec(p) ==> b.split_spec().0.contains_spec(p) || b.split_spec().1.contains_spec(
            p,
        ),
{
    let dx = b.max.x - b.min.x;
    let dy = b.max.y - b.min.y;
    let dz = b.max.z - b.min.z;
    assert(0 <= dx / 2 <= dx);
    assert(0 <= dy / 2 <= dy);
    assert(0 <= dz / 2 <= dz);
}

/// The box that `bounds_of` gives holds every point it was given.
pub proof fn lemma_bounds_of_holds(vs: Seq<Tuple>, i: int)
    requires
        0 <= i < vs.len(),
    ensures
        bounds_of(vs).contains_spec(vs[i]),
    decreases vs.len(),
{
    lemma_add_point_contains(bounds_of(vs.drop_last()), vs.last(), vs[i]);
    if i < vs.len() - 1 {
        lemma_bounds_of_holds(vs.drop_last(), i);
    }
}

/// The box that `bounds_of` gives for some points lies in every box that
/// holds those points.
pub proof fn lemma_bounds_of_least(vs: Seq<Tuple>, c: BoundingBox)
    requires
        vs.len() > 0,
        forall|i: int| 0 <= i < vs.len() ==> c.contains_spec(#[trigger] vs[i]),
    ensures
        c.contains_box_spec(bounds_of(vs)),
    decreases vs.len(),
{
    let d = vs.drop_last();
    assert(c.contains_spec(vs[vs.len() - 1]));
    if vs.len() > 1 {
        assert forall|i: int| 0 <= i < d.len() implies c.contains_spec(#[trigger] d[i]) by {
            assert(d[i] == vs[i]);
        }
        lemma_bounds_of_least(d, c);
    } else {
        assert(d.len() == 0);
        assert(bounds_of(d) == BoundingBox::empty_spec());
    }
}

/// Transforming a box gives the smallest box that holds the box's corners
/// carried by the matrix: it holds each of them, and it lies in every box
/// that holds them all.
pub proof fn lemma_transform_bounds(b: BoundingBox, m: Seq<Seq<i64>>, c: BoundingBox, k: int)
    requires
        0 <= k < 8,
    ensures
        bounds_of(transformed_corners(b, m)).contains_spec(transformed_corners(b, m)[k]),
        (forall|i: int| 0 <= i < 8 ==> c.contains_spec(#[trigger] transformed_corners(b, m)[i]))
            ==> c.contains_box_spec(bounds_of(transformed_corners(b, m))),
{
    lemma_bounds_of_holds(transformed_corners(b, m), k);
    if forall|i: int| 0 <= i < 8 ==> c.contains_spec(#[trigger] transformed_corners(b, m)[i]) {
        lemma_bounds_of_least(transformed_corners(b, m), c);
    }
}

} // verus!
