//! Light sources: a point light, and a rectangular area light cut into
//! cells that are sampled at jittered points.
use vstd::prelude::*;
use crate::color::Color;
use crate::fixed::{checked_product, checked_sum, in_range, mul_spec, ONE};
use crate::tuple::{add_fits, scale_fits, Tuple};

verus! {

/// A light with no size, at a single point.
#[derive(Clone, Copy, Debug, PartialEq, Eq, Structural)]
pub struct PointLight {
    pub position: Tuple,
    pub intensity: Color,
}

impl PointLight {
    pub fn new(position: Tuple, intensity: Color) -> (l: PointLight)
        ensures
            l.position == position,
            l.intensity == intensity,
    {
        PointLight { position, intensity }
    }

    /// How much of the light reaches a point: all of it, or none when
    /// `is_shadowed` tells that something stands between the light's
    /// position and the point.
    pub fn intensity_at<F: Fn(Tuple) -> bool>(&self, is_shadowed: F) -> (i: i64)
        requires
            is_shadowed.requires((self.position,)),
        ensures
            exists|shadowed: bool|
                #![trigger is_shadowed.ensures((self.position,), shadowed)]
                is_shadowed.ensures((self.position,), shadowed) && i == if shadowed {
                    0
                } else {
                    ONE
                },
    {
        if is_shadowed(self.position) {
            0
        } else {
            ONE
        }
    }
}

/// A rectangular light: a corner, the edge vectors of one cell, the number
/// of cells along each edge, and the center of the whole rectangle.
#[derive(Clone, Copy, Debug, PartialEq, Eq, Structural)]
pub struct RectangleLight {
    pub intensity: Color,
    pub corner: Tuple,
    pub u: Tuple,
    pub u_steps: i32,
    pub v: Tuple,
    pub v_steps: i32,
    pub cells: i32,
    pub position: Tuple,
}

/// Each component of `t` divided by `n`, rounded down.
pub open spec fn divided(t: Tuple, n: int) -> Tuple {
    Tuple {
        x: (t.x as int / n) as i64,
        y: (t.y as int / n) as i64,
        z: (t.z as int / n) as i64,
        w: (t.w as int / n) as i64,
    }
}

/// The exact component-wise sum of three tuples.
pub open spec fn sum3(a: Tuple, b: Tuple, c: Tuple) -> Tuple {
    Tuple {
        x: (a.x + b.x + c.x) as i64,
        y: (a.y + b.y + c.y) as i64,
        z: (a.z + b.z + c.z) as i64,
        w: (a.w + b.w + c.w) as i64,
    }
}

/// Whether three tuples add up without overflow, in order.
pub open spec fn sum3_fits(a: Tuple, b: Tuple, c: Tuple) -> bool {
    &&& add_fits(a, b)
    &&& in_range(a.x + b.x + c.x)
    &&& in_range(a.y + b.y + c.y)
    &&& in_range(a.z + b.z + c.z)
    &&& in_range(a.w + b.w + c.w)
}

/// Whether `RectangleLight::new` can build the light without overflow.
pub open spec fn rectangle_fits(corner: Tuple, full_u: Tuple, u_steps: int, full_v: Tuple, v_steps: int) -> bool {
    &&& u_steps > 0
    &&& v_steps > 0
    &&& u_steps * v_steps <= i32::MAX
    &&& sum3_fits(corner, divided(full_u, 2), divided(full_v, 2))
}

/// Each component of `t` divided by the positive whole number `n`, rounded
/// down.
fn divide_tuple(t: Tuple, n: i64) -> (r: Tuple)
    requires
        n > 0,
    ensures
        r == divided(t, n as int),
{
    Tuple {
        x: floor_div_i64(t.x, n),
        y: floor_div_i64(t.y, n),
        z: floor_div_i64(t.z, n),
        w: floor_div_i64(t.w, n),
    }
}

fn floor_div_i64(a: i64, n: i64) -> (q: i64)
    requires
        n > 0,
    ensures
        q == a as int / n as int,
{
    let q = crate::fixed::floor_div_i128(a as i128, n as i128);
    proof {
        let ai = a as int;
        let ni = n as int;
        vstd::arithmetic::div_mod::lemma_fundamental_div_mod(ai, ni);
        assert(i64::MIN <= ai / ni <= i64::MAX) by (nonlinear_arith)
            requires
                ai == ni * (ai / ni) + (ai % ni),
                0 <= (ai % ni) < ni,
                ni >= 1,
                i64::MIN <= ai <= i64::MAX,
        ;
    }
    q as i64
}

/// Adds three tuples in order.
fn add3(a: Tuple, b: Tuple, c: Tuple) -> (r: Tuple)
    requires
        sum3_fits(a, b, c),
    ensures
        r == sum3(a, b, c),
{
    let ab = a.add(&b);
    ab.add(&c)
}

/// The point of cell `(u, v)` sampled at jitters `ju` and `jv` (fractions of
/// a cell): `corner + u_edge * (u + ju) + v_edge * (v + jv)`.
pub open spec fn point_on_light_spec(l: RectangleLight, u: int, v: int, ju: int, jv: int) -> Tuple {
    let a = Tuple {
        x: mul_spec(l.u.x as int, u * ONE + ju) as i64,
        y: mul_spec(l.u.y as int, u * ONE + ju) as i64,
        z: mul_spec(l.u.z as int, u * ONE + ju) as i64,
        w: mul_spec(l.u.w as int, u * ONE + ju) as i64,
    };
    let b = Tuple {
        x: mul_spec(l.v.x as int, v * ONE + jv) as i64,
        y: mul_spec(l.v.y as int, v * ONE + jv) as i64,
        z: mul_spec(l.v.z as int, v * ONE + jv) as i64,
        w: mul_spec(l.v.w as int, v * ONE + jv) as i64,
    };
    sum3(l.corner, a, b)
}

/// Whether `point_on_light` can compute the point without overflow.
pub open spec fn point_on_light_fits(l: RectangleLight, u: int, v: int, ju: int, jv: int) -> bool {
    let a = Tuple {
        x: mul_spec(l.u.x as int, u * ONE + ju) as i64,
        y: mul_spec(l.u.y as int, u * ONE + ju) as i64,
        z: mul_spec(l.u.z as int, u * ONE + ju) as i64,
        w: mul_spec(l.u.w as int, u * ONE + ju) as i64,
    };
    let b = Tuple {
        x: mul_spec(l.v.x as int, v * ONE + jv) as i64,
        y: mul_spec(l.v.y as int, v * ONE + jv) as i64,
        z: mul_spec(l.v.z as int, v * ONE + jv) as i64,
        w: mul_spec(l.v.w as int, v * ONE + jv) as i64,
    };
    &&& in_range(u * ONE + ju)
    &&& in_range(v * ONE + jv)
    &&& scale_fits(l.u, u * ONE + ju)
    &&& scale_fits(l.v, v * ONE + jv)
    &&& sum3_fits(l.corner, a, b)
}

impl RectangleLight {
    /// The light with the given corner and full edges, cut into `u_steps`
    /// by `v_steps` cells; its position is the center of the rectangle.
    pub fn new(
        intensity: Color,
        corner: Tuple,
        full_u: Tuple,
        u_steps: i32,
        full_v: Tuple,
        v_steps: i32,
    ) -> (l: RectangleLight)
        requires
            rectangle_fits(corner, full_u, u_steps as int, full_v, v_steps as int),
        ensures
            l.intensity == intensity,
            l.corner == corner,
            l.u == divided(full_u, u_steps as int),
            l.v == divided(full_v, v_steps as int),
            l.u_steps == u_steps,
            l.v_steps == v_steps,
            l.cells == u_steps * v_steps,
            l.position == sum3(corner, divided(full_u, 2), divided(full_v, 2)),
    {
        let u = divide_tuple(full_u, u_steps as i64);
        let v = divide_tuple(full_v, v_steps as i64);
        let half_u = divide_tuple(full_u, 2);
        let half_v = divide_tuple(full_v, 2);
        let position = add3(corner, half_u, half_v);
        RectangleLight {
            intensity,
            corner,
            u,
            u_steps,
            v,
            v_steps,
            cells: u_steps * v_steps,
            position,
        }
    }

    /// A point in cell `(u, v)`, placed within the cell by the jitters
    /// `jitter_u` and `jitter_v` (fractions of a cell, drawn at random by
    /// the caller).
    pub fn point_on_light(&self, u: i32, v: i32, jitter_u: i64, jitter_v: i64) -> (p: Tuple)
        requires
            point_on_light_fits(*self, u as int, v as int, jitter_u as int, jitter_v as int),
        ensures
            p == point_on_light_spec(*self, u as int, v as int, jitter_u as int, jitter_v as int),
    {
        let su = (u as i64) * ONE + jitter_u;
        let sv = (v as i64) * ONE + jitter_v;
        let a = self.u.scale(su);
        let b = self.v.scale(sv);
        add3(self.corner, a, b)
    }

    /// The point of cell `(u, v)` at the given jitters (see
    /// `point_on_light`), or `None` when the computation would overflow.
    pub fn try_point_on_light(&self, u: i32, v: i32, jitter_u: i64, jitter_v: i64) -> (r: Option<
        Tuple,
    >)
        ensures
            r is Some <==> point_on_light_fits(*self, u as int, v as int, jitter_u as int, jitter_v as int),
            r matches Some(p) ==> p == point_on_light_spec(
                *self,
                u as int,
                v as int,
                jitter_u as int,
                jitter_v as int,
            ),
    {
        let su = checked_sum((u as i64) * ONE, jitter_u)?;
        let sv = checked_sum((v as i64) * ONE, jitter_v)?;
        let ax = checked_product(self.u.x, su)?;
        let ay = checked_product(self.u.y, su)?;
        let az = checked_product(self.u.z, su)?;
        let aw = checked_product(self.u.w, su)?;
        let bx = checked_product(self.v.x, sv)?;
        let by = checked_product(self.v.y, sv)?;
        let bz = checked_product(self.v.z, sv)?;
        let bw = checked_product(self.v.w, sv)?;
        let cx = checked_sum(self.corner.x, ax)?;
        let cy = checked_sum(self.corner.y, ay)?;
        let cz = checked_sum(self.corner.z, az)?;
        let cw = checked_sum(self.corner.w, aw)?;
        checked_sum(cx, bx)?;
        checked_sum(cy, by)?;
        checked_sum(cz, bz)?;
        checked_sum(cw, bw)?;
        Some(self.point_on_light(u, v, jitter_u, jitter_v))
    }

    /// The light's position.
    pub fn position(&self) -> (p: Tuple)
        ensures
            p == self.position,
    {
        self.position
    }

    /// The light's color.
    pub fn intensity(&self) -> (c: Color)
        ensures
            c == self.intensity,
    {
        self.intensity
    }

    /// How much of the light reaches a point that sees `lit_cells` of its
    /// cells: that count over the number of cells, rounded down.
    pub fn lit_fraction(&self, lit_cells: i32) -> (i: i64)
        requires
            self.cells > 0,
            0 <= lit_cells <= self.cells,
        ensures
            i == (lit_cells as int * ONE) / (self.cells as int),
    {
        ((lit_cells as i64) * ONE) / (self.cells as i64)
    }

    /// How much of the light reaches a point: every cell is sampled once,
    /// row by row along `v` and along `u` within a row, at the point of the
    /// cell jittered by the next pair of `jitters` (drawn at random by the
    /// caller); `is_shadowed` tells whether something stands between that
    /// point of the light and the lit point. The result is the fraction of
    /// samples that are not shadowed (see `lit_fraction`), or `None` when a
    /// sample point overflows.
    pub fn intensity_at<F: Fn(Tuple) -> bool>(&self, jitters: &Vec<(i64, i64)>, is_shadowed: F) -> (r:
        Option<i64>)
        requires
            self.u_steps > 0,
            self.v_steps > 0,
            self.cells == self.u_steps * self.v_steps,
            jitters@.len() == self.cells,
            forall|t: Tuple| is_shadowed.requires((t,)),
        ensures
            r is Some <==> samples_fit(*self, jitters@),
            r matches Some(i) ==> exists|shadowed: Seq<bool>|
                {
                    &&& shadowed.len() == self.cells
                    &&& forall|k: int|
                        0 <= k < self.cells ==> is_shadowed.ensures(
                            (sample_point(*self, jitters@, k),),
                            #[trigger] shadowed[k],
                        )
                    &&& i == count_unshadowed(shadowed) * ONE / (self.cells as int)
                },
    {
        let ghost mut shadowed: Seq<bool> = Seq::empty();
        let mut lit: i32 = 0;
        let mut k: usize = 0;
        let mut v: i32 = 0;
        while v < self.v_steps
            invariant
                self.u_steps > 0,
                self.v_steps > 0,
                self.cells == self.u_steps * self.v_steps,
                jitters@.len() == self.cells,
                forall|t: Tuple| is_shadowed.requires((t,)),
                0 <= v <= self.v_steps,
                k == v * self.u_steps,
                shadowed.len() == k,
                0 <= lit <= k,
                lit == count_unshadowed(shadowed),
                forall|j: int| 0 <= j < k ==> samples_fit_at(*self, jitters@, j),
                forall|j: int|
                    0 <= j < k ==> is_shadowed.ensures(
                        (sample_point(*self, jitters@, j),),
                        #[trigger] shadowed[j],
                    ),
            decreases self.v_steps - v,
        {
            proof {
                assert((v as int + 1) * self.u_steps <= self.v_steps * self.u_steps) by (nonlinear_arith)
                    requires
                        v < self.v_steps,
                        self.u_steps > 0,
                ;
                assert((v as int + 1) * self.u_steps == v * self.u_steps + self.u_steps) by (nonlinear_arith);
                assert(self.v_steps * self.u_steps == self.cells) by (nonlinear_arith)
                    requires
                        self.cells == self.u_steps * self.v_steps,
                ;
            }
            let mut u: i32 = 0;
            while u < self.u_steps
                invariant
                    self.u_steps > 0,
                    self.v_steps > 0,
                    self.cells == self.u_steps * self.v_steps,
                    jitters@.len() == self.cells,
                    forall|t: Tuple| is_shadowed.requires((t,)),
                    0 <= v < self.v_steps,
                    0 <= u <= self.u_steps,
                    k == v * self.u_steps + u,
                    v * self.u_steps + self.u_steps <= self.cells,
                    shadowed.len() == k,
                    0 <= lit <= k,
                    lit == count_unshadowed(shadowed),
                    forall|j: int| 0 <= j < k ==> samples_fit_at(*self, jitters@, j),
                    forall|j: int|
                        0 <= j < k ==> is_shadowed.ensures(
                            (sample_point(*self, jitters@, j),),
                            #[trigger] shadowed[j],
                        ),
                decreases self.u_steps - u,
            {
                proof {
                    vstd::arithmetic::div_mod::lemma_fundamental_div_mod_converse(
                        k as int,
                        self.u_steps as int,
                        v as int,
                        u as int,
                    );
                }
                let (jitter_u, jitter_v) = jitters[k];
                let light_position = match self.try_point_on_light(u, v, jitter_u, jitter_v) {
                    Some(p) => p,
                    None => {
                        assert(!samples_fit_at(*self, jitters@, k as int));
                        return None;
                    },
                };
                let hidden = is_shadowed(light_position);
                proof {
                    lemma_count_push(shadowed, hidden);
                    shadowed = shadowed.push(hidden);
                }
                if !hidden {
                    lit = lit + 1;
                }
                k = k + 1;
                u = u + 1;
            }
            v = v + 1;
        }
        proof {
            assert(k == self.cells && self.cells > 0) by (nonlinear_arith)
                requires
                    k == v * self.u_steps,
                    v == self.v_steps,
                    self.cells == self.u_steps * self.v_steps,
                    self.u_steps > 0,
                    self.v_steps > 0,
            ;
        }
        assert(samples_fit(*self, jitters@));
        Some(self.lit_fraction(lit))
    }
}

/// The `k`-th sample point: in cell `(k % u_steps, k / u_steps)`, at the
/// `k`-th pair of jitters.
pub open spec fn sample_point(l: RectangleLight, jitters: Seq<(i64, i64)>, k: int) -> Tuple {
    point_on_light_spec(
        l,
        k % (l.u_steps as int),
        k / (l.u_steps as int),
        jitters[k].0 as int,
        jitters[k].1 as int,
    )
}

/// Whether the `k`-th sample point can be computed without overflow.
pub open spec fn samples_fit_at(l: RectangleLight, jitters: Seq<(i64, i64)>, k: int) -> bool {
    point_on_light_fits(
        l,
        k % (l.u_steps as int),
        k / (l.u_steps as int),
        jitters[k].0 as int,
        jitters[k].1 as int,
    )
}

/// Whether every sample point can be computed without overflow.
pub open spec fn samples_fit(l: RectangleLight, jitters: Seq<(i64, i64)>) -> bool {
    forall|k: int| 0 <= k < l.cells ==> #[trigger] samples_fit_at(l, jitters, k)
}

/// How many samples are not shadowed.
pub open spec fn count_unshadowed(shadowed: Seq<bool>) -> int
    decreases shadowed.len(),
{
    if shadowed.len() == 0 {
        0
    } else {
        count_unshadowed(shadowed.drop_last()) + if shadowed.last() {
            0int
        } else {
            1int
        }
    }
}

proof fn lemma_count_push(shadowed: Seq<bool>, b: bool)
    ensures
        count_unshadowed(shadowed.push(b)) == count_unshadowed(shadowed) + if b {
            0int
        } else {
            1int
        },
{
    assert(shadowed.push(b).drop_last() =~= shadowed);
}

} // verus!
