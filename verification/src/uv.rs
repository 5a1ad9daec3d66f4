//! Texture-mapping helpers that work on exact coordinates: which face of a
//! cube a point is on, where on that face it lies, and planar mapping.
use vstd::prelude::*;
use crate::fixed::{abs_int, floor_div, floor_div_i128, half, in_range, ONE};
use crate::color::Color;
use crate::canvas::Canvas;
use crate::constants::{black, cyan, green, red, white, yellow};
use crate::tuple::Tuple;

verus! {

/// A face of the unit cube.
#[derive(Clone, Copy, Debug, PartialEq, Eq, Structural)]
pub enum Face {
    Front,
    Back,
    Left,
    Right,
    Up,
    Down,
}

impl Face {
    /// The position of the face in the order Front, Back, Left, Right, Up,
    /// Down (the order in which a cubic map stores its six patterns).
    pub fn index(&self) -> (i: usize)
        ensures
            i == face_index_spec(*self),
    {
        match self {
            Face::Front => 0,
            Face::Back => 1,
            Face::Left => 2,
            Face::Right => 3,
            Face::Up => 4,
            Face::Down => 5,
        }
    }
}

pub open spec fn face_index_spec(f: Face) -> nat {
    match f {
        Face::Front => 0,
        Face::Back => 1,
        Face::Left => 2,
        Face::Right => 3,
        Face::Up => 4,
        Face::Down => 5,
    }
}

/// The face whose axis has the largest coordinate magnitude; ties go to
/// x before y before z, and on each axis the positive side before the
/// negative one.
pub open spec fn face_spec(x: int, y: int, z: int) -> Face {
    let m = if abs_int(x) >= abs_int(y) {
        if abs_int(x) >= abs_int(z) {
            abs_int(x)
        } else {
            abs_int(z)
        }
    } else if abs_int(y) >= abs_int(z) {
        abs_int(y)
    } else {
        abs_int(z)
    };
    if m == x {
        Face::Right
    } else if m == -x {
        Face::Left
    } else if m == y {
        Face::Up
    } else if m == -y {
        Face::Down
    } else if m == z {
        Face::Front
    } else {
        Face::Back
    }
}

/// The face on the other side of the cube.
pub open spec fn opposite_face(f: Face) -> Face {
    match f {
        Face::Front => Face::Back,
        Face::Back => Face::Front,
        Face::Left => Face::Right,
        Face::Right => Face::Left,
        Face::Up => Face::Down,
        Face::Down => Face::Up,
    }
}

/// Mirroring a point through the center of the cube selects the opposite
/// face, ties included (the center itself has no opposite).
pub proof fn lemma_face_mirror(x: int, y: int, z: int)
    requires
        !(x == 0 && y == 0 && z == 0),
    ensures
        face_spec(-x, -y, -z) == opposite_face(face_spec(x, y, z)),
{
}

/// The face of a cube centered at the origin that the point lies on.
pub fn face_from_point(p: Tuple) -> (f: Face)
    ensures
        f == face_spec(p.x as int, p.y as int, p.z as int),
{
    let x = p.x as i128;
    let y = p.y as i128;
    let z = p.z as i128;
    let abs_x = if x < 0 { -x } else { x };
    let abs_y = if y < 0 { -y } else { y };
    let abs_z = if z < 0 { -z } else { z };
    let xy = if abs_x >= abs_y {
        abs_x
    } else {
        abs_y
    };
    let coord = if xy >= abs_z {
        xy
    } else {
        abs_z
    };

    if coord == x {
        Face::Right
    } else if coord == -x {
        Face::Left
    } else if coord == y {
        Face::Up
    } else if coord == -y {
        Face::Down
    } else if coord == z {
        Face::Front
    } else {
        Face::Back
    }
}

/// The remainder of `a` divided by `m > 0` that has the sign of `a`
/// (the remainder of floating-point `%`).
pub open spec fn trunc_rem(a: int, m: int) -> int {
    if a >= 0 {
        a % m
    } else {
        -((-a) % m)
    }
}

fn trunc_rem_i64(a: i64, m: i64) -> (r: i64)
    requires
        m > 0,
        a > i64::MIN,
    ensures
        r == trunc_rem(a as int, m as int),
{
    if a >= 0 {
        a % m
    } else {
        -((-a) % m)
    }
}


/// Maps a coordinate of the cube to a texture coordinate: the remainder of
/// `a` by two units (sign of `a` kept), halved and rounded down.
pub open spec fn cube_coord(a: int) -> int {
    trunc_rem(a, 2 * ONE) / 2
}

fn cube_coord_exec(a: i64) -> (r: i64)
    requires
        a > i64::MIN,
    ensures
        r == cube_coord(a as int),
{
    half(trunc_rem_i64(a, 2 * ONE))
}

/// Whether the cube coordinates can be computed without overflow.
pub open spec fn cube_uv_fits(p: Tuple) -> bool {
    &&& in_range(p.x + ONE)
    &&& in_range(p.y + ONE)
    &&& in_range(p.z + ONE)
    &&& in_range(ONE - p.x)
    &&& in_range(ONE - p.y)
    &&& in_range(ONE - p.z)
    &&& p.x + ONE > i64::MIN
    &&& p.y + ONE > i64::MIN
    &&& p.z + ONE > i64::MIN
    &&& ONE - p.x > i64::MIN
    &&& ONE - p.z > i64::MIN
}

/// Texture coordinates of a point on the front face (z = 1).
pub fn cube_uv_front(p: Tuple) -> (uv: (i64, i64))
    requires
        cube_uv_fits(p),
    ensures
        uv == (cube_coord(p.x + ONE) as i64, cube_coord(p.y + ONE) as i64),
{
    (cube_coord_exec(p.x + ONE), cube_coord_exec(p.y + ONE))
}

/// Texture coordinates of a point on the back face (z = -1).
pub fn cube_uv_back(p: Tuple) -> (uv: (i64, i64))
    requires
        cube_uv_fits(p),
    ensures
        uv == (cube_coord(ONE - p.x) as i64, cube_coord(p.y + ONE) as i64),
{
    (cube_coord_exec(ONE - p.x), cube_coord_exec(p.y + ONE))
}

/// Texture coordinates of a point on the left face (x = -1).
pub fn cube_uv_left(p: Tuple) -> (uv: (i64, i64))
    requires
        cube_uv_fits(p),
    ensures
        uv == (cube_coord(p.z + ONE) as i64, cube_coord(p.y + ONE) as i64),
{
    (cube_coord_exec(p.z + ONE), cube_coord_exec(p.y + ONE))
}

/// Texture coordinates of a point on the right face (x = 1).
pub fn cube_uv_right(p: Tuple) -> (uv: (i64, i64))
    requires
        cube_uv_fits(p),
    ensures
        uv == (cube_coord(ONE - p.z) as i64, cube_coord(p.y + ONE) as i64),
{
    (cube_coord_exec(ONE - p.z), cube_coord_exec(p.y + ONE))
}

/// Texture coordinates of a point on the upper face (y = 1).
pub fn cube_uv_up(p: Tuple) -> (uv: (i64, i64))
    requires
        cube_uv_fits(p),
    ensures
        uv == (cube_coord(p.x + ONE) as i64, cube_coord(ONE - p.z) as i64),
{
    (cube_coord_exec(p.x + ONE), cube_coord_exec(ONE - p.z))
}

/// Texture coordinates of a point on the lower face (y = -1).
pub fn cube_uv_down(p: Tuple) -> (uv: (i64, i64))
    requires
        cube_uv_fits(p),
    ensures
        uv == (cube_coord(p.x + ONE) as i64, cube_coord(p.z + ONE) as i64),
{
    (cube_coord_exec(p.x + ONE), cube_coord_exec(p.z + ONE))
}

/// Maps points onto texture coordinates by their position on a plane.
#[derive(Clone, Copy, Debug, PartialEq, Eq)]
pub struct PlanarMap;

/// Maps points onto texture coordinates by their angles around the origin
/// (the mapping itself works on angles and lives outside this library).
#[derive(Clone, Copy, Debug, PartialEq, Eq)]
pub struct SphericalMap;

/// Maps points onto texture coordinates by their angle around the y axis and
/// their height (the mapping itself works on angles and lives outside this
/// library).
#[derive(Clone, Copy, Debug, PartialEq, Eq)]
pub struct CylindricalMap;

/// The non-negative remainder of `v` by one unit.
pub fn rem_one(v: i64) -> (r: i64)
    ensures
        r == (v as int) % (ONE as int),
{
    let t = v % ONE;
    if t >= 0 {
        proof {
            lemma_rem_one(v as int, t as int);
        }
        t
    } else {
        proof {
            lemma_rem_one(v as int, t as int);
        }
        t + ONE
    }
}

proof fn lemma_rem_one(v: int, t: int)
    requires
        i64::MIN <= v <= i64::MAX,
        t == v - (ONE as int) * (if v >= 0 { v / (ONE as int) } else { -((-v) / (ONE as int)) }),
    ensures
        0 <= (if t >= 0 { t } else { t + ONE }) < ONE,
        (if t >= 0 { t } else { t + ONE }) == v % (ONE as int),
{
    let m = ONE as int;
    if v >= 0 {
        vstd::arithmetic::div_mod::lemma_fundamental_div_mod(v, m);
    } else {
        vstd::arithmetic::div_mod::lemma_fundamental_div_mod(-v, m);
        let q = (-v) / m;
        let r = (-v) % m;
        if t >= 0 {
            assert(t == 0);
            vstd::arithmetic::div_mod::lemma_fundamental_div_mod_converse(v, m, -q, 0);
        } else {
            vstd::arithmetic::div_mod::lemma_fundamental_div_mod_converse(v, m, -q - 1, t + m);
        }
    }
}

impl PlanarMap {
    /// The texture coordinates of a point: the fractional parts of its x and
    /// z coordinates, each in `[0, 1)`.
    pub fn point_to_uv(&self, p: Tuple) -> (uv: (i64, i64))
        ensures
            uv == ((p.x as int % ONE as int) as i64, (p.z as int % ONE as int) as i64),
            0 <= uv.0 < ONE,
            0 <= uv.1 < ONE,
    {
        (rem_one(p.x), rem_one(p.z))
    }
}

/// The texture coordinates of a point on the face its largest coordinate
/// points to.
pub open spec fn cube_map_uv_spec(p: Tuple) -> (Face, (i64, i64)) {
    let f = face_spec(p.x as int, p.y as int, p.z as int);
    let uv = match f {
        Face::Left => (cube_coord(p.z + ONE) as i64, cube_coord(p.y + ONE) as i64),
        Face::Right => (cube_coord(ONE - p.z) as i64, cube_coord(p.y + ONE) as i64),
        Face::Front => (cube_coord(p.x + ONE) as i64, cube_coord(p.y + ONE) as i64),
        Face::Back => (cube_coord(ONE - p.x) as i64, cube_coord(p.y + ONE) as i64),
        Face::Up => (cube_coord(p.x + ONE) as i64, cube_coord(ONE - p.z) as i64),
        Face::Down => (cube_coord(p.x + ONE) as i64, cube_coord(p.z + ONE) as i64),
    };
    (f, uv)
}

/// Where a cubic map looks up a point: the face the point is on (see
/// `face_from_point`) and the texture coordinates on that face.
pub fn cube_map_uv(p: Tuple) -> (r: (Face, (i64, i64)))
    requires
        cube_uv_fits(p),
    ensures
        r == cube_map_uv_spec(p),
{
    let face = face_from_point(p);
    let uv = match face {
        Face::Left => cube_uv_left(p),
        Face::Right => cube_uv_right(p),
        Face::Front => cube_uv_front(p),
        Face::Back => cube_uv_back(p),
        Face::Up => cube_uv_up(p),
        Face::Down => cube_uv_down(p),
    };
    (face, uv)
}

/// Where a cubic map looks up a point (see `cube_map_uv`), or `None` when
/// a coordinate is so large that the texture coordinates cannot be
/// computed.
pub fn try_cube_map_uv(p: Tuple) -> (r: Option<(Face, (i64, i64))>)
    ensures
        r is Some <==> cube_uv_fits(p),
        r matches Some(v) ==> v == cube_map_uv_spec(p),
{
    let lo = i64::MIN + ONE + 1;
    let hi = i64::MAX - ONE;
    if lo <= p.x && p.x <= hi && lo <= p.y && p.y <= hi && lo <= p.z && p.z <= hi {
        Some(cube_map_uv(p))
    } else {
        None
    }
}

/// The value of an integer cast to `i32` with saturation (what `as i32`
/// does to a float).
pub open spec fn saturate_i32(n: int) -> int {
    if n < i32::MIN {
        i32::MIN as int
    } else if n > i32::MAX {
        i32::MAX as int
    } else {
        n
    }
}

/// The index of the checker cell that texture coordinate `t` falls in, for
/// `cells` cells per unit: `t * cells` rounded down.
pub open spec fn cell_of(t: int, cells: int) -> int {
    floor_div(t * cells, ONE * ONE)
}

/// A checker pattern in texture space: `width` cells across and `height`
/// cells up per unit, colored `a` and `b` in turn.
#[derive(Clone, Copy, Debug, PartialEq, Eq, Structural)]
pub struct UVCheckers {
    pub a: Color,
    pub b: Color,
    pub width: i64,
    pub height: i64,
}

/// The color of a checker pattern at texture coordinates `u` and `v`: `a`
/// where the cell indices (each cast to `i32`) add up to an even number,
/// `b` elsewhere.
pub open spec fn checker_color(c: UVCheckers, u: int, v: int) -> Color {
    let s = saturate_i32(cell_of(u, c.width as int)) + saturate_i32(cell_of(v, c.height as int));
    if s % 2 == 0 {
        c.a
    } else {
        c.b
    }
}

/// The checker cell that texture coordinate `t` falls in for `cells`
/// cells per unit, cast to `i32` with saturation.
pub fn cell_index(t: i64, cells: i64) -> (n: i32)
    ensures
        n == saturate_i32(cell_of(t as int, cells as int)),
{
    proof {
        assert(-0x8000_0000_0000_0000 * 0x8000_0000_0000_0000 <= (t as int) * (cells as int)
            <= 0x8000_0000_0000_0000 * 0x8000_0000_0000_0000) by (nonlinear_arith)
            requires
                -0x8000_0000_0000_0000 <= t <= 0x7fff_ffff_ffff_ffff,
                -0x8000_0000_0000_0000 <= cells <= 0x7fff_ffff_ffff_ffff,
        ;
    }
    let p = (t as i128) * (cells as i128);
    let unit_sq: i128 = 0x1_0000_0000_0000_0000;
    assert(unit_sq == ONE * ONE);
    let q = floor_div_i128(p, unit_sq);
    if q < i32::MIN as i128 {
        i32::MIN
    } else if q > i32::MAX as i128 {
        i32::MAX
    } else {
        q as i32
    }
}

impl UVCheckers {
    pub fn new(width: i64, height: i64, a: Color, b: Color) -> (c: UVCheckers)
        ensures
            c == (UVCheckers { a, b, width, height }),
    {
        UVCheckers { a, b, width, height }
    }

    /// The color at texture coordinates `u` and `v` (see `checker_color`).
    pub fn color_at(&self, u: i64, v: i64) -> (c: Color)
        requires
            i32::MIN <= saturate_i32(cell_of(u as int, self.width as int)) + saturate_i32(
                cell_of(v as int, self.height as int),
            ) <= i32::MAX,
        ensures
            c == checker_color(*self, u as int, v as int),
    {
        let u2 = cell_index(u, self.width);
        let v2 = cell_index(v, self.height);
        if (u2 + v2) % 2 == 0 {
            self.a
        } else {
            self.b
        }
    }
}

/// The checker color depends on `u` only through its cell along the
/// width, `floor(u * width)`, and on `v` only through its cell along the
/// height, `floor(v * height)`.
pub proof fn lemma_checker_cells(c: UVCheckers, u1: int, u2: int, v1: int, v2: int)
    requires
        (u1 * c.width) / (ONE * ONE) == (u2 * c.width) / (ONE * ONE),
        (v1 * c.height) / (ONE * ONE) == (v2 * c.height) / (ONE * ONE),
    ensures
        checker_color(c, u1, v1) == checker_color(c, u2, v2),
{
}

/// Moving to the next cell along `u` (every `1 / width`), or along `v`
/// (every `1 / height`), swaps the two colors, as long as the cell indices
/// stay within `i32`.
pub proof fn lemma_checker_alternates(c: UVCheckers, u1: int, u2: int, v1: int, v2: int)
    requires
        c.a != c.b,
        i32::MIN <= (u1 * c.width) / (ONE * ONE) <= i32::MAX,
        i32::MIN <= (u2 * c.width) / (ONE * ONE) <= i32::MAX,
        i32::MIN <= (v1 * c.height) / (ONE * ONE) <= i32::MAX,
        i32::MIN <= (v2 * c.height) / (ONE * ONE) <= i32::MAX,
        ((u2 * c.width) / (ONE * ONE) == (u1 * c.width) / (ONE * ONE) + 1 && (v1 * c.height) / (ONE
            * ONE) == (v2 * c.height) / (ONE * ONE)) || ((v2 * c.height) / (ONE * ONE) == (v1
            * c.height) / (ONE * ONE) + 1 && (u1 * c.width) / (ONE * ONE) == (u2 * c.width) / (ONE
            * ONE)),
    ensures
        checker_color(c, u1, v1) != checker_color(c, u2, v2),
{
}

/// At the origin of texture space the color is `a`.
pub proof fn lemma_checker_origin(c: UVCheckers)
    ensures
        checker_color(c, 0, 0) == c.a,
{
    assert(0 * c.width == 0 && 0 * c.height == 0) by (nonlinear_arith);
}

impl Default for UVCheckers {
    /// One cell per unit, white and black.
    fn default() -> (c: UVCheckers)
        ensures
            c == (UVCheckers { a: Color { r: ONE, g: ONE, b: ONE }, b: Color { r: 0, g: 0, b: 0 }, width: ONE, height: ONE }),
    {
        UVCheckers::new(ONE, ONE, white(), black())
    }
}

/// The texture coordinate above which a point counts as near the top (or
/// right) edge: 0.8.
pub const NEAR_HIGH_EDGE: i64 = 3435973837;

/// The texture coordinate below which a point counts as near the bottom (or
/// left) edge: 0.2.
pub const NEAR_LOW_EDGE: i64 = 858993459;

/// A pattern for checking how a texture is aligned: one color over the
/// face, and a color of its own in each corner.
#[derive(Clone, Copy, Debug, PartialEq, Eq, Structural)]
pub struct AlignCheck {
    pub main: Color,
    pub ul: Color,
    pub ur: Color,
    pub bl: Color,
    pub br: Color,
}

/// The color of an alignment pattern at `u` (left to right) and `v`
/// (bottom to top): a corner's color within 0.2 of both of its edges, the
/// main color elsewhere.
pub open spec fn align_color(c: AlignCheck, u: int, v: int) -> Color {
    if v > NEAR_HIGH_EDGE && u < NEAR_LOW_EDGE {
        c.ul
    } else if v > NEAR_HIGH_EDGE && u > NEAR_HIGH_EDGE {
        c.ur
    } else if v < NEAR_LOW_EDGE && u < NEAR_LOW_EDGE {
        c.bl
    } else if v < NEAR_LOW_EDGE && u > NEAR_HIGH_EDGE {
        c.br
    } else {
        c.main
    }
}

impl AlignCheck {
    pub fn new(main: Color, ul: Color, ur: Color, bl: Color, br: Color) -> (c: AlignCheck)
        ensures
            c == (AlignCheck { main, ul, ur, bl, br }),
    {
        AlignCheck { main, ul, ur, bl, br }
    }

    /// The color at texture coordinates `u` and `v` (see `align_color`).
    pub fn color_at(&self, u: i64, v: i64) -> (c: Color)
        ensures
            c == align_color(*self, u as int, v as int),
    {
        // v is 0 at the bottom and 1 at the top
        if v > NEAR_HIGH_EDGE {
            if u < NEAR_LOW_EDGE {
                return self.ul;
            }
            if u > NEAR_HIGH_EDGE {
                return self.ur;
            }
        } else if v < NEAR_LOW_EDGE {
            if u < NEAR_LOW_EDGE {
                return self.bl;
            }
            if u > NEAR_HIGH_EDGE {
                return self.br;
            }
        }
        self.main
    }
}

/// Away from the left and right edges (`0.2 <= u <= 0.8`), or away from
/// the bottom and top edges (`0.2 <= v <= 0.8`), an alignment pattern shows
/// its main color.
pub proof fn lemma_align_main_away_from_corners(c: AlignCheck, u: int, v: int)
    requires
        (ONE <= 5 * u <= 4 * ONE) || (ONE <= 5 * v <= 4 * ONE),
    ensures
        align_color(c, u, v) == c.main,
{
}

/// Within 0.2 of both edges of a corner (to the raw unit: `u` and `v`
/// below 0.2, or above 0.8), an alignment pattern shows that corner's
/// color: upper left, upper right, lower left, lower right.
pub proof fn lemma_align_corners(c: AlignCheck, u: int, v: int)
    ensures
        5 * v > 4 * ONE + 5 && 5 * u < ONE - 1 ==> align_color(c, u, v) == c.ul,
        5 * v > 4 * ONE + 5 && 5 * u > 4 * ONE + 5 ==> align_color(c, u, v) == c.ur,
        5 * v < ONE - 1 && 5 * u < ONE - 1 ==> align_color(c, u, v) == c.bl,
        5 * v < ONE - 1 && 5 * u > 4 * ONE + 5 ==> align_color(c, u, v) == c.br,
{
}

impl Default for AlignCheck {
    /// White, with red, yellow, green and cyan corners (upper left, upper
    /// right, lower left, lower right).
    fn default() -> (c: AlignCheck)
        ensures
            c == (AlignCheck {
                main: Color { r: ONE, g: ONE, b: ONE },
                ul: Color { r: ONE, g: 0, b: 0 },
                ur: Color { r: ONE, g: ONE, b: 0 },
                bl: Color { r: 0, g: ONE, b: 0 },
                br: Color { r: 0, g: ONE, b: ONE },
            }),
    {
        AlignCheck::new(white(), red(), yellow(), green(), cyan())
    }
}

/// The index nearest to `t * n` for a texture coordinate `t` in `[0, 1]`
/// (halves round up).
pub open spec fn nearest_index(t: int, n: int) -> int {
    floor_div(2 * t * n + ONE, 2 * ONE)
}

proof fn lemma_nearest_index_bounds(t: int, n: int)
    requires
        0 <= t <= ONE,
        n >= 0,
    ensures
        0 <= nearest_index(t, n) <= n,
{
    let a = 2 * t * n + ONE;
    let d = 2 * ONE;
    assert(0 <= 2 * t * n <= 2 * ONE * n) by (nonlinear_arith)
        requires
            0 <= t <= ONE,
            n >= 0,
    ;
    vstd::arithmetic::div_mod::lemma_div_pos_is_pos(a, d);
    vstd::arithmetic::div_mod::lemma_div_is_ordered(a, d * n + ONE, d);
    vstd::arithmetic::div_mod::lemma_fundamental_div_mod_converse(d * n + ONE, d, n, ONE as int);
}

/// A texture made of an image: texture coordinates pick the nearest pixel.
#[derive(Clone, Debug)]
pub struct UVImage {
    pub canvas: Canvas,
}

impl UVImage {
    pub fn new(canvas: Canvas) -> (i: UVImage)
        ensures
            i.canvas == canvas,
    {
        UVImage { canvas }
    }

    /// The color of the pixel nearest to `(u, v)`, with `u` running left to
    /// right and `v` bottom to top over the whole image.
    pub fn color_at(&self, u: i64, v: i64) -> (c: Color)
        requires
            self.canvas.wf(),
            self.canvas@.width >= 1,
            self.canvas@.height >= 1,
            0 <= u <= ONE,
            0 <= v <= ONE,
        ensures
            c == self.canvas.pixel(
                nearest_index(u as int, self.canvas@.width - 1),
                nearest_index(ONE - v, self.canvas@.height - 1),
            ),
    {
        // flip v over so that it runs top to bottom, as the rows do
        let flipped = ONE - v;
        let (width, height) = self.canvas.dimensions();
        let w = (width - 1) as i128;
        let h = (height - 1) as i128;
        proof {
            lemma_nearest_index_bounds(u as int, w as int);
            lemma_nearest_index_bounds(flipped as int, h as int);
            assert(0 <= 2 * (u as int) * (w as int) <= 2 * 0x1_0000_0000 * 0x1_0000_0000_0000_0000) by (nonlinear_arith)
                requires
                    0 <= u <= 0x1_0000_0000,
                    0 <= w < 0x1_0000_0000_0000_0000,
            ;
            assert(0 <= 2 * (flipped as int) * (h as int) <= 2 * 0x1_0000_0000 * 0x1_0000_0000_0000_0000) by (nonlinear_arith)
                requires
                    0 <= flipped <= 0x1_0000_0000,
                    0 <= h < 0x1_0000_0000_0000_0000,
            ;
        }
        let x = floor_div_i128(2 * (u as i128) * w + (ONE as i128), 2 * (ONE as i128));
        let y = floor_div_i128(2 * (flipped as i128) * h + (ONE as i128), 2 * (ONE as i128));
        self.canvas.pixel_at(x as usize, y as usize)
    }
}


/// The face is the axis of largest magnitude, on the side of its sign:
/// each face is picked only for points whose coordinate along its axis has
/// that sign and is at least as large in magnitude as the other two, and a
/// coordinate strictly larger in magnitude than the other two picks its
/// face.
pub proof fn lemma_face_is_largest_axis(x: int, y: int, z: int)
    ensures
        face_spec(x, y, z) == Face::Right ==> x >= 0 && x >= abs_int(y) && x >= abs_int(z),
        face_spec(x, y, z) == Face::Left ==> x <= 0 && -x >= abs_int(y) && -x >= abs_int(z),
        face_spec(x, y, z) == Face::Up ==> y >= 0 && y >= abs_int(x) && y >= abs_int(z),
        face_spec(x, y, z) == Face::Down ==> y <= 0 && -y >= abs_int(x) && -y >= abs_int(z),
        face_spec(x, y, z) == Face::Front ==> z >= 0 && z >= abs_int(x) && z >= abs_int(y),
        face_spec(x, y, z) == Face::Back ==> z <= 0 && -z >= abs_int(x) && -z >= abs_int(y),
        x > abs_int(y) && x > abs_int(z) ==> face_spec(x, y, z) == Face::Right,
        -x > abs_int(y) && -x > abs_int(z) ==> face_spec(x, y, z) == Face::Left,
        y > abs_int(x) && y > abs_int(z) ==> face_spec(x, y, z) == Face::Up,
        -y > abs_int(x) && -y > abs_int(z) ==> face_spec(x, y, z) == Face::Down,
        z > abs_int(x) && z > abs_int(y) ==> face_spec(x, y, z) == Face::Front,
        -z > abs_int(x) && -z > abs_int(y) ==> face_spec(x, y, z) == Face::Back,
{
}

/// A point on the surface of the unit cube, away from its edges, is looked
/// up on the face it lies on, at texture coordinates that are half its
/// distances from that face's left and bottom edges as seen from outside
/// the cube (rounded down): on the front `((x + 1) / 2, (y + 1) / 2)`, on
/// the back `((1 - x) / 2, (y + 1) / 2)`, on the left `((z + 1) / 2,
/// (y + 1) / 2)`, on the right `((1 - z) / 2, (y + 1) / 2)`, on the top
/// `((x + 1) / 2, (1 - z) / 2)` and on the bottom `((x + 1) / 2,
/// (z + 1) / 2)`.
pub proof fn lemma_cube_map_on_faces(p: Tuple)
    ensures
        p.z == ONE && -ONE < p.x < ONE && -ONE < p.y < ONE ==> cube_map_uv_spec(p) == (
        Face::Front,
        (((p.x + ONE) / 2) as i64, ((p.y + ONE) / 2) as i64),
        ),
        p.z == -ONE && -ONE < p.x < ONE && -ONE < p.y < ONE ==> cube_map_uv_spec(p) == (
        Face::Back,
        (((ONE - p.x) / 2) as i64, ((p.y + ONE) / 2) as i64),
        ),
        p.x == -ONE && -ONE < p.y < ONE && -ONE < p.z < ONE ==> cube_map_uv_spec(p) == (
        Face::Left,
        (((p.z + ONE) / 2) as i64, ((p.y + ONE) / 2) as i64),
        ),
        p.x == ONE && -ONE < p.y < ONE && -ONE < p.z < ONE ==> cube_map_uv_spec(p) == (
        Face::Right,
        (((ONE - p.z) / 2) as i64, ((p.y + ONE) / 2) as i64),
        ),
        p.y == ONE && -ONE < p.x < ONE && -ONE < p.z < ONE ==> cube_map_uv_spec(p) == (
        Face::Up,
        (((p.x + ONE) / 2) as i64, ((ONE - p.z) / 2) as i64),
        ),
        p.y == -ONE && -ONE < p.x < ONE && -ONE < p.z < ONE ==> cube_map_uv_spec(p) == (
        Face::Down,
        (((p.x + ONE) / 2) as i64, ((p.z + ONE) / 2) as i64),
        ),
{
    lemma_face_is_largest_axis(p.x as int, p.y as int, p.z as int);
    assert forall|a: int| 0 < a < 2 * ONE implies #[trigger] cube_coord(a) == a / 2 by {
        vstd::arithmetic::div_mod::lemma_small_mod(a as nat, (2 * ONE) as nat);
    }
}

/// The pixel an image texture picks is the nearest to `t * n` (halves go
/// up): `k` with `k - 1/2 <= t * n < k + 1/2`, in units where `ONE` is one.
pub proof fn lemma_nearest_index_is_nearest(t: int, n: int)
    ensures
        2 * ONE * nearest_index(t, n) - ONE <= 2 * t * n < 2 * ONE * nearest_index(t, n) + ONE,
{
    vstd::arithmetic::div_mod::lemma_fundamental_div_mod(2 * t * n + ONE, 2 * ONE as int);
}

} // verus!
