//! Materials and the Phong model of lighting: the color at a point is the
//! sum of an ambient, a diffuse and a specular contribution.
use vstd::prelude::*;
use crate::color::Color;
use crate::fixed::{checked_product, checked_sum, in_range, mul_spec, ONE};
use crate::light::PointLight;
use crate::ray::{reflect_component, reflect_fits, reflected};
use crate::tuple::{dot_fits, dot_spec, lemma_unit_components, norm_fits, norm_sq, sub_fits, unit_spec, Tuple};

verus! {

/// How a surface reflects light; every coefficient is a fixed-point scalar.
#[derive(Clone, Copy, Debug, PartialEq, Eq, Structural)]
pub struct Material {
    pub color: Color,
    /// Light reflected from other objects in the environment, in `[0, 1]`.
    pub ambient: i64,
    /// Light reflected from a matte surface, in `[0, 1]`; it depends on the
    /// angle between the light and the surface normal.
    pub diffuse: i64,
    /// The reflection of the light source itself, in `[0, 1]`; it depends
    /// on the angle between the reflected light and the eye.
    pub specular: i64,
    /// Higher values give smaller and tighter specular highlights.
    pub shininess: i64,
    pub reflective: i64,
    pub transparency: i64,
    pub refractive_index: i64,
}

impl Material {
    /// The default material (see `default`).
    pub open spec fn default_spec() -> Material {
        Material {
            color: Color { r: ONE, g: ONE, b: ONE },
            ambient: 429496730,
            diffuse: 3865470566,
            specular: 3865470566,
            shininess: 858993459200,
            reflective: 0,
            transparency: 0,
            refractive_index: ONE,
        }
    }
}

impl Default for Material {
    /// A white surface: ambient 0.1, diffuse 0.9, specular 0.9, shininess
    /// 200, neither reflective nor transparent, refractive index 1.
    fn default() -> (m: Material)
        ensures
            m == Material::default_spec(),
    {
        Material {
            color: Color { r: ONE, g: ONE, b: ONE },
            ambient: 429496730,
            diffuse: 3865470566,
            specular: 3865470566,
            shininess: 858993459200,
            reflective: 0,
            transparency: 0,
            refractive_index: ONE,
        }
    }
}

/// Black: no light at all.
pub open spec fn no_light() -> Color {
    Color { r: 0, g: 0, b: 0 }
}

/// Every channel of `c` times the scalar `s`.
pub open spec fn color_scaled(c: Color, s: int) -> Color {
    Color {
        r: mul_spec(c.r as int, s) as i64,
        g: mul_spec(c.g as int, s) as i64,
        b: mul_spec(c.b as int, s) as i64,
    }
}

pub open spec fn color_scaled_fits(c: Color, s: int) -> bool {
    &&& in_range(mul_spec(c.r as int, s))
    &&& in_range(mul_spec(c.g as int, s))
    &&& in_range(mul_spec(c.b as int, s))
}

/// The channel-by-channel product of two colors.
pub open spec fn color_mixed(a: Color, b: Color) -> Color {
    Color {
        r: mul_spec(a.r as int, b.r as int) as i64,
        g: mul_spec(a.g as int, b.g as int) as i64,
        b: mul_spec(a.b as int, b.b as int) as i64,
    }
}

pub open spec fn color_mixed_fits(a: Color, b: Color) -> bool {
    &&& in_range(mul_spec(a.r as int, b.r as int))
    &&& in_range(mul_spec(a.g as int, b.g as int))
    &&& in_range(mul_spec(a.b as int, b.b as int))
}

/// The channel-by-channel sum of two colors.
pub open spec fn color_sum(a: Color, b: Color) -> Color {
    Color { r: (a.r + b.r) as i64, g: (a.g + b.g) as i64, b: (a.b + b.b) as i64 }
}

pub open spec fn color_sum_fits(a: Color, b: Color) -> bool {
    &&& in_range(a.r + b.r)
    &&& in_range(a.g + b.g)
    &&& in_range(a.b + b.b)
}

/// The component-wise difference of two tuples.
pub open spec fn tuple_diff(a: Tuple, b: Tuple) -> Tuple {
    Tuple {
        x: (a.x - b.x) as i64,
        y: (a.y - b.y) as i64,
        z: (a.z - b.z) as i64,
        w: (a.w - b.w) as i64,
    }
}

/// The tuple pointing the other way.
pub open spec fn tuple_neg(a: Tuple) -> Tuple {
    Tuple { x: -a.x as i64, y: -a.y as i64, z: -a.z as i64, w: -a.w as i64 }
}

/// The unit vector from `point` toward the light.
pub open spec fn to_light(light: PointLight, point: Tuple) -> Tuple {
    unit_spec(tuple_diff(light.position, point))
}

/// Whether the direction toward the light and its cosine with the normal
/// can be computed.
pub open spec fn light_cosine_fits(light: PointLight, point: Tuple, normal: Tuple) -> bool {
    &&& sub_fits(light.position, point)
    &&& norm_fits(tuple_diff(light.position, point))
    &&& dot_fits(to_light(light, point), normal)
}

/// The cosine of the angle between the light and the surface normal; it is
/// negative when the light is behind the surface.
pub open spec fn light_normal_cosine(light: PointLight, point: Tuple, normal: Tuple) -> int {
    dot_spec(to_light(light, point), normal)
}

/// Whether the reflection of the light and its cosine with the eye can be
/// computed.
pub open spec fn reflection_cosine_fits(
    light: PointLight,
    point: Tuple,
    eye: Tuple,
    normal: Tuple,
) -> bool {
    &&& reflect_fits(tuple_neg(to_light(light, point)), normal)
    &&& dot_fits(reflected(tuple_neg(to_light(light, point)), normal), eye)
}

/// The cosine of the angle between the light reflected about the normal and
/// the eye; it is not positive when the light reflects away from the eye.
pub open spec fn reflection_eye_cosine(light: PointLight, point: Tuple, eye: Tuple, normal: Tuple) -> int {
    dot_spec(reflected(tuple_neg(to_light(light, point)), normal), eye)
}

/// Whether the point is lit at all, the light is in front of the surface
/// and reflects toward the eye: only then is there a specular highlight,
/// and only then is the specular power of the cosine asked for.
pub open spec fn has_highlight(
    light: PointLight,
    point: Tuple,
    eye: Tuple,
    normal: Tuple,
    light_intensity: int,
) -> bool {
    &&& light_intensity != 0
    &&& light_cosine_fits(light, point, normal)
    &&& light_normal_cosine(light, point, normal) >= 0
    &&& reflection_cosine_fits(light, point, eye, normal)
    &&& reflection_eye_cosine(light, point, eye, normal) > 0
}

/// The surface color mixed with the light's color.
pub open spec fn effective_color(material_color: Color, light: PointLight) -> Color {
    color_mixed(material_color, light.intensity)
}

/// The diffuse contribution: none when the light is behind the surface.
pub open spec fn diffuse_part(
    m: Material,
    material_color: Color,
    light: PointLight,
    point: Tuple,
    normal: Tuple,
) -> Color {
    let cosine = light_normal_cosine(light, point, normal);
    if cosine < 0 {
        no_light()
    } else {
        color_scaled(color_scaled(effective_color(material_color, light), m.diffuse as int), cosine)
    }
}

/// The specular contribution, given the specular power `factor` of the
/// reflection's cosine with the eye: none without a highlight.
pub open spec fn specular_part(
    m: Material,
    light: PointLight,
    point: Tuple,
    eye: Tuple,
    normal: Tuple,
    factor: i64,
) -> Color {
    if light_normal_cosine(light, point, normal) < 0 || reflection_eye_cosine(light, point, eye, normal)
        <= 0 {
        no_light()
    } else {
        color_scaled(color_scaled(light.intensity, m.specular as int), factor as int)
    }
}

/// The Phong color at a point: the ambient contribution, plus the diffuse
/// and specular contributions scaled by how much of the light reaches the
/// point (`light_intensity`). With no light reaching it, only the ambient
/// contribution is left.
pub open spec fn phong_spec(
    m: Material,
    material_color: Color,
    light: PointLight,
    point: Tuple,
    eye: Tuple,
    normal: Tuple,
    light_intensity: int,
    factor: i64,
) -> Color {
    let ambient = color_scaled(effective_color(material_color, light), m.ambient as int);
    if light_intensity == 0 {
        ambient
    } else {
        let lit = color_sum(
            diffuse_part(m, material_color, light, point, normal),
            specular_part(m, light, point, eye, normal, factor),
        );
        color_sum(ambient, color_scaled(lit, light_intensity))
    }
}

/// Whether every step of `phong_spec` fits a raw scalar.
pub open spec fn phong_fits(
    m: Material,
    material_color: Color,
    light: PointLight,
    point: Tuple,
    eye: Tuple,
    normal: Tuple,
    light_intensity: int,
    factor: i64,
) -> bool {
    let effective = effective_color(material_color, light);
    let ambient = color_scaled(effective, m.ambient as int);
    let cosine = light_normal_cosine(light, point, normal);
    let lit = color_sum(
        diffuse_part(m, material_color, light, point, normal),
        specular_part(m, light, point, eye, normal, factor),
    );
    &&& color_mixed_fits(material_color, light.intensity)
    &&& color_scaled_fits(effective, m.ambient as int)
    &&& light_intensity != 0 ==> {
        &&& light_cosine_fits(light, point, normal)
        &&& cosine >= 0 ==> {
            &&& color_scaled_fits(effective, m.diffuse as int)
            &&& color_scaled_fits(color_scaled(effective, m.diffuse as int), cosine)
            &&& reflection_cosine_fits(light, point, eye, normal)
            &&& reflection_eye_cosine(light, point, eye, normal) > 0 ==> {
                &&& color_scaled_fits(light.intensity, m.specular as int)
                &&& color_scaled_fits(color_scaled(light.intensity, m.specular as int), factor as int)
            }
        }
        &&& color_sum_fits(
            diffuse_part(m, material_color, light, point, normal),
            specular_part(m, light, point, eye, normal, factor),
        )
        &&& color_scaled_fits(lit, light_intensity)
        &&& color_sum_fits(ambient, color_scaled(lit, light_intensity))
    }
}

/// How the light's intensity at a point attenuates the Phong color: in
/// shadow (intensity zero) only the ambient contribution is left; at full
/// intensity (one) the ambient and the lit contributions add up; in
/// between, the color moves from the first toward the second in
/// proportion to the intensity: it is the ambient contribution plus the
/// difference between the two times the intensity (rounded down).
pub proof fn lemma_phong_attenuation(
    m: Material,
    material_color: Color,
    light: PointLight,
    point: Tuple,
    eye: Tuple,
    normal: Tuple,
    light_intensity: int,
    factor: i64,
)
    requires
        phong_fits(m, material_color, light, point, eye, normal, ONE as int, factor),
        phong_fits(m, material_color, light, point, eye, normal, light_intensity, factor),
    ensures
        ({
            let shadowed = phong_spec(m, material_color, light, point, eye, normal, 0, factor);
            let full = phong_spec(m, material_color, light, point, eye, normal, ONE as int, factor);
            let c = phong_spec(m, material_color, light, point, eye, normal, light_intensity, factor);
            &&& shadowed == color_scaled(effective_color(material_color, light), m.ambient as int)
            &&& c.r == shadowed.r + mul_spec(full.r - shadowed.r, light_intensity)
            &&& c.g == shadowed.g + mul_spec(full.g - shadowed.g, light_intensity)
            &&& c.b == shadowed.b + mul_spec(full.b - shadowed.b, light_intensity)
        }),
{
    let lit = color_sum(
        diffuse_part(m, material_color, light, point, normal),
        specular_part(m, light, point, eye, normal, factor),
    );
    lemma_mul_one(lit.r as int);
    lemma_mul_one(lit.g as int);
    lemma_mul_one(lit.b as int);
    if light_intensity == 0 {
        assert(mul_spec(0, 0) == 0) by {
            vstd::arithmetic::div_mod::lemma_fundamental_div_mod_converse(0, ONE as int, 0, 0);
        }
    }
}

/// Multiplying by one keeps a scalar.
proof fn lemma_mul_one(x: int)
    ensures
        mul_spec(x, ONE as int) == x,
        mul_spec(0, x) == 0,
{
    vstd::arithmetic::div_mod::lemma_div_multiples_vanish(x, ONE as int);
    assert(ONE * x == x * ONE) by (nonlinear_arith);
    assert(0 * x == 0) by (nonlinear_arith);
    vstd::arithmetic::div_mod::lemma_fundamental_div_mod_converse(0, ONE as int, 0, 0);
}

/// Multiplying by zero gives zero.
proof fn lemma_mul_zero(x: int)
    ensures
        mul_spec(x, 0) == 0,
{
    assert(x * 0 == 0) by (nonlinear_arith);
    vstd::arithmetic::div_mod::lemma_fundamental_div_mod_converse(0, ONE as int, 0, 0);
}

/// The specular highlight takes nothing from the surface's color: at full
/// light, with the light in front of the surface and reflecting toward the
/// eye, the color with specular power `factor` is the color with specular
/// power zero plus, in each channel, the light's intensity times the
/// material's specular coefficient times `factor`, whatever the surface
/// color (a red surface under white light gets a white highlight).
pub proof fn lemma_highlight_is_light_colored(
    m: Material,
    material_color: Color,
    light: PointLight,
    point: Tuple,
    eye: Tuple,
    normal: Tuple,
    factor: i64,
)
    requires
        phong_fits(m, material_color, light, point, eye, normal, ONE as int, factor),
        phong_fits(m, material_color, light, point, eye, normal, ONE as int, 0),
        light_normal_cosine(light, point, normal) >= 0,
        reflection_eye_cosine(light, point, eye, normal) > 0,
    ensures
        ({
            let lit = phong_spec(m, material_color, light, point, eye, normal, ONE as int, factor);
            let dark = phong_spec(m, material_color, light, point, eye, normal, ONE as int, 0);
            &&& lit.r == dark.r + mul_spec(mul_spec(light.intensity.r as int, m.specular as int), factor as int)
            &&& lit.g == dark.g + mul_spec(mul_spec(light.intensity.g as int, m.specular as int), factor as int)
            &&& lit.b == dark.b + mul_spec(mul_spec(light.intensity.b as int, m.specular as int), factor as int)
        }),
{
    let d = diffuse_part(m, material_color, light, point, normal);
    let sp = specular_part(m, light, point, eye, normal, factor);
    let s0 = specular_part(m, light, point, eye, normal, 0);
    let w = color_scaled(light.intensity, m.specular as int);
    lemma_mul_zero(w.r as int);
    lemma_mul_zero(w.g as int);
    lemma_mul_zero(w.b as int);
    assert(s0 == no_light());
    let l1 = color_sum(d, sp);
    let l0 = color_sum(d, s0);
    lemma_mul_one(l1.r as int);
    lemma_mul_one(l1.g as int);
    lemma_mul_one(l1.b as int);
    lemma_mul_one(l0.r as int);
    lemma_mul_one(l0.g as int);
    lemma_mul_one(l0.b as int);
}

/// On a black surface only the highlight is seen: at full light the color
/// is, in each channel, the light's intensity times the material's
/// specular coefficient times `factor` when the light is in front of the
/// surface and reflects toward the eye, and black otherwise, whatever the
/// material's own color.
pub proof fn lemma_black_surface_shows_highlight(
    m: Material,
    light: PointLight,
    point: Tuple,
    eye: Tuple,
    normal: Tuple,
    factor: i64,
)
    requires
        phong_fits(m, no_light(), light, point, eye, normal, ONE as int, factor),
    ensures
        phong_spec(m, no_light(), light, point, eye, normal, ONE as int, factor) == (if light_normal_cosine(
            light,
            point,
            normal,
        ) >= 0 && reflection_eye_cosine(light, point, eye, normal) > 0 {
            Color {
                r: mul_spec(mul_spec(light.intensity.r as int, m.specular as int), factor as int) as i64,
                g: mul_spec(mul_spec(light.intensity.g as int, m.specular as int), factor as int) as i64,
                b: mul_spec(mul_spec(light.intensity.b as int, m.specular as int), factor as int) as i64,
            }
        } else {
            no_light()
        }),
{
    let black = no_light();
    lemma_mul_one(light.intensity.r as int);
    lemma_mul_one(light.intensity.g as int);
    lemma_mul_one(light.intensity.b as int);
    let e = effective_color(black, light);
    assert(e == black);
    lemma_mul_one(m.ambient as int);
    lemma_mul_one(m.diffuse as int);
    lemma_mul_one(light_normal_cosine(light, point, normal));
    let d = diffuse_part(m, black, light, point, normal);
    assert(d == black);
    let sp = specular_part(m, light, point, eye, normal, factor);
    let l = color_sum(d, sp);
    lemma_mul_one(l.r as int);
    lemma_mul_one(l.g as int);
    lemma_mul_one(l.b as int);
    assert(color_scaled(black, m.ambient as int) == black);
}

/// In shadow (no light reaching the point) only the ambient light is
/// seen: in each channel, the surface color times the light's color times
/// the ambient coefficient.
pub proof fn lemma_shadow_is_ambient(
    m: Material,
    material_color: Color,
    light: PointLight,
    point: Tuple,
    eye: Tuple,
    normal: Tuple,
    factor: i64,
)
    requires
        phong_fits(m, material_color, light, point, eye, normal, 0, factor),
    ensures
        ({
            let c = phong_spec(m, material_color, light, point, eye, normal, 0, factor);
            &&& c.r == mul_spec(mul_spec(material_color.r as int, light.intensity.r as int), m.ambient as int)
            &&& c.g == mul_spec(mul_spec(material_color.g as int, light.intensity.g as int), m.ambient as int)
            &&& c.b == mul_spec(mul_spec(material_color.b as int, light.intensity.b as int), m.ambient as int)
        }),
{
}

/// Without a specular highlight (specular power zero), at full light, each
/// channel is the ambient part plus, when the light is in front of the
/// surface, the diffuse part: with `e` the surface color times the light's
/// color, `e * ambient + e * diffuse * cosine`, where `cosine` is the
/// cosine between the light and the normal; `e * ambient` alone when the
/// light is behind the surface.
pub proof fn lemma_ambient_and_diffuse(
    m: Material,
    material_color: Color,
    light: PointLight,
    point: Tuple,
    eye: Tuple,
    normal: Tuple,
)
    requires
        phong_fits(m, material_color, light, point, eye, normal, ONE as int, 0),
    ensures
        ({
            let c = phong_spec(m, material_color, light, point, eye, normal, ONE as int, 0);
            let cosine = light_normal_cosine(light, point, normal);
            let er = mul_spec(material_color.r as int, light.intensity.r as int);
            let eg = mul_spec(material_color.g as int, light.intensity.g as int);
            let eb = mul_spec(material_color.b as int, light.intensity.b as int);
            &&& c.r == mul_spec(er, m.ambient as int) + if cosine >= 0 {
                mul_spec(mul_spec(er, m.diffuse as int), cosine)
            } else {
                0
            }
            &&& c.g == mul_spec(eg, m.ambient as int) + if cosine >= 0 {
                mul_spec(mul_spec(eg, m.diffuse as int), cosine)
            } else {
                0
            }
            &&& c.b == mul_spec(eb, m.ambient as int) + if cosine >= 0 {
                mul_spec(mul_spec(eb, m.diffuse as int), cosine)
            } else {
                0
            }
        }),
{
    let w = color_scaled(light.intensity, m.specular as int);
    lemma_mul_zero(w.r as int);
    lemma_mul_zero(w.g as int);
    lemma_mul_zero(w.b as int);
    let d = diffuse_part(m, material_color, light, point, normal);
    let sp = specular_part(m, light, point, eye, normal, 0);
    assert(sp == no_light());
    let l = color_sum(d, sp);
    lemma_mul_one(l.r as int);
    lemma_mul_one(l.g as int);
    lemma_mul_one(l.b as int);
}

fn checked_scale_color(c: Color, s: i64) -> (r: Option<Color>)
    ensures
        r is Some <==> color_scaled_fits(c, s as int),
        r matches Some(v) ==> v == color_scaled(c, s as int),
{
    match (checked_product(c.r, s), checked_product(c.g, s), checked_product(c.b, s)) {
        (Some(r), Some(g), Some(b)) => Some(Color { r, g, b }),
        _ => None,
    }
}

fn checked_mix_color(a: Color, b: Color) -> (r: Option<Color>)
    ensures
        r is Some <==> color_mixed_fits(a, b),
        r matches Some(v) ==> v == color_mixed(a, b),
{
    match (checked_product(a.r, b.r), checked_product(a.g, b.g), checked_product(a.b, b.b)) {
        (Some(r), Some(g), Some(b)) => Some(Color { r, g, b }),
        _ => None,
    }
}

fn checked_add_color(a: Color, b: Color) -> (r: Option<Color>)
    ensures
        r is Some <==> color_sum_fits(a, b),
        r matches Some(v) ==> v == color_sum(a, b),
{
    match (checked_sum(a.r, b.r), checked_sum(a.g, b.g), checked_sum(a.b, b.b)) {
        (Some(r), Some(g), Some(b)) => Some(Color { r, g, b }),
        _ => None,
    }
}

fn checked_sub_tuple(a: Tuple, b: Tuple) -> (r: Option<Tuple>)
    ensures
        r is Some <==> sub_fits(a, b),
        r matches Some(v) ==> v == tuple_diff(a, b),
{
    match (a.x.checked_sub(b.x), a.y.checked_sub(b.y), a.z.checked_sub(b.z), a.w.checked_sub(b.w)) {
        (Some(x), Some(y), Some(z), Some(w)) => Some(Tuple { x, y, z, w }),
        _ => None,
    }
}

fn checked_dot(a: Tuple, b: Tuple) -> (r: Option<i64>)
    ensures
        r is Some <==> dot_fits(a, b),
        r matches Some(v) ==> v == dot_spec(a, b),
{
    let px = checked_product(a.x, b.x);
    let py = checked_product(a.y, b.y);
    let pz = checked_product(a.z, b.z);
    let pw = checked_product(a.w, b.w);
    match (px, py, pz, pw) {
        (Some(px), Some(py), Some(pz), Some(pw)) => match checked_sum(px, py) {
            Some(s1) => match checked_sum(s1, pz) {
                Some(s2) => checked_sum(s2, pw),
                None => None,
            },
            None => None,
        },
        _ => None,
    }
}

fn checked_reflect_component(i: i64, n: i64, d: i64) -> (r: Option<i64>)
    ensures
        r is Some <==> (in_range(2 * n) && in_range(mul_spec(2 * n, d as int)) && in_range(
            reflect_component(i as int, n as int, d as int),
        )),
        r matches Some(v) ==> v == reflect_component(i as int, n as int, d as int),
{
    match checked_sum(n, n) {
        Some(n2) => match checked_product(n2, d) {
            Some(p) => i.checked_sub(p),
            None => None,
        },
        None => None,
    }
}

fn checked_reflect(in_vector: Tuple, normal: Tuple) -> (r: Option<Tuple>)
    ensures
        r is Some <==> reflect_fits(in_vector, normal),
        r matches Some(v) ==> v == reflected(in_vector, normal),
{
    let d = match checked_dot(in_vector, normal) {
        Some(d) => d,
        None => {
            return None;
        },
    };
    match (
        checked_reflect_component(in_vector.x, normal.x, d),
        checked_reflect_component(in_vector.y, normal.y, d),
        checked_reflect_component(in_vector.z, normal.z, d),
        checked_reflect_component(in_vector.w, normal.w, d),
    ) {
        (Some(x), Some(y), Some(z), Some(w)) => Some(Tuple { x, y, z, w }),
        _ => None,
    }
}

/// A tuple whose squares sum to zero is the zero tuple.
proof fn lemma_zero_norm(t: Tuple)
    ensures
        norm_sq(t) == 0 ==> t.x == 0 && t.y == 0 && t.z == 0 && t.w == 0,
{
    let x = t.x as int;
    let y = t.y as int;
    let z = t.z as int;
    let w = t.w as int;
    assert(x * x >= 0 && y * y >= 0 && z * z >= 0 && w * w >= 0) by (nonlinear_arith);
    assert(x * x == 0 ==> x == 0) by (nonlinear_arith);
    assert(y * y == 0 ==> y == 0) by (nonlinear_arith);
    assert(z * z == 0 ==> z == 0) by (nonlinear_arith);
    assert(w * w == 0 ==> w == 0) by (nonlinear_arith);
}

fn fits_norm(t: Tuple) -> (b: bool)
    ensures
        b == norm_fits(t),
{
    let limit: i64 = 0x4000_0000_0000_0000;
    -limit < t.x && t.x < limit && -limit < t.y && t.y < limit && -limit < t.z && t.z < limit
        && -limit < t.w && t.w < limit
}

/// The color of a surface at `point` lit by `light` and seen along
/// `eye_vector`, with `surface_normal` the normal there, by the Phong model
/// (see `phong_spec`). `material_color` is the color of the surface at the
/// point (its pattern's color, or the material's own); `light_intensity`
/// is how much of the light reaches the point, from 0 (in shadow) to 1.
///
/// The specular highlight is the specular power of the cosine between the
/// reflected light and the eye; `specular_power` computes it, and is asked
/// only when there is a highlight (see `has_highlight`). The result is
/// `None` exactly when a step overflows (see `phong_fits`).
pub fn phong_lighting<F: Fn(i64) -> i64>(
    material: &Material,
    material_color: Color,
    light: &PointLight,
    point: Tuple,
    eye_vector: Tuple,
    surface_normal: Tuple,
    light_intensity: i64,
    specular_power: F,
) -> (r: Option<Color>)
    requires
        forall|c: i64| specular_power.requires((c,)),
    ensures
        exists|factor: i64|
            #![trigger phong_fits(*material, material_color, *light, point, eye_vector, surface_normal, light_intensity as int, factor)]
            {
                &&& has_highlight(*light, point, eye_vector, surface_normal, light_intensity as int)
                    ==> specular_power.ensures(
                    (reflection_eye_cosine(*light, point, eye_vector, surface_normal) as i64,),
                    factor,
                )
                &&& r == if phong_fits(
                    *material,
                    material_color,
                    *light,
                    point,
                    eye_vector,
                    surface_normal,
                    light_intensity as int,
                    factor,
                ) {
                    Some(
                        phong_spec(
                            *material,
                            material_color,
                            *light,
                            point,
                            eye_vector,
                            surface_normal,
                            light_intensity as int,
                            factor,
                        ),
                    )
                } else {
                    None
                }
            },
{
    let ghost m = *material;
    let ghost l = *light;
    let ghost li = light_intensity as int;
    let mut factor: i64 = 0;
    let mut light_cosine: i64 = 0;
    let mut eye_cosine: i64 = 0;
    if light_intensity != 0 {
        let offset = match checked_sub_tuple(light.position, point) {
            Some(t) => t,
            None => {
                assert(!phong_fits(m, material_color, l, point, eye_vector, surface_normal, li, 0));
                return None;
            },
        };
        if !fits_norm(offset) {
            assert(!phong_fits(m, material_color, l, point, eye_vector, surface_normal, li, 0));
            return None;
        }
        let direction = offset.norm();
        light_cosine = match checked_dot(direction, surface_normal) {
            Some(c) => c,
            None => {
                assert(!phong_fits(m, material_color, l, point, eye_vector, surface_normal, li, 0));
                return None;
            },
        };
        if light_cosine >= 0 {
            proof {
                lemma_unit_components(offset);
                lemma_zero_norm(offset);
            }
            let reflection = match checked_reflect(direction.neg(), surface_normal) {
                Some(t) => t,
                None => {
                    assert(!phong_fits(m, material_color, l, point, eye_vector, surface_normal, li, 0));
                    return None;
                },
            };
            eye_cosine = match checked_dot(reflection, eye_vector) {
                Some(c) => c,
                None => {
                    assert(!phong_fits(m, material_color, l, point, eye_vector, surface_normal, li, 0));
                    return None;
                },
            };
            if eye_cosine > 0 {
                factor = specular_power(eye_cosine);
            }
        }
    }
    assert(has_highlight(l, point, eye_vector, surface_normal, li) ==> specular_power.ensures(
        (reflection_eye_cosine(l, point, eye_vector, surface_normal) as i64,),
        factor,
    ));
    let effective = match checked_mix_color(material_color, light.intensity) {
        Some(c) => c,
        None => {
            assert(!phong_fits(m, material_color, l, point, eye_vector, surface_normal, li, factor));
            return None;
        },
    };
    let ambient = match checked_scale_color(effective, material.ambient) {
        Some(c) => c,
        None => {
            assert(!phong_fits(m, material_color, l, point, eye_vector, surface_normal, li, factor));
            return None;
        },
    };
    if light_intensity == 0 {
        assert(phong_fits(m, material_color, l, point, eye_vector, surface_normal, li, factor));
        return Some(ambient);
    }
    let black = Color { r: 0, g: 0, b: 0 };
    let diffuse = if light_cosine < 0 {
        black
    } else {
        match checked_scale_color(effective, material.diffuse) {
            Some(c) => match checked_scale_color(c, light_cosine) {
                Some(d) => d,
                None => {
                    assert(!phong_fits(m, material_color, l, point, eye_vector, surface_normal, li, factor));
                    return None;
                },
            },
            None => {
                assert(!phong_fits(m, material_color, l, point, eye_vector, surface_normal, li, factor));
                return None;
            },
        }
    };
    let specular = if light_cosine < 0 || eye_cosine <= 0 {
        black
    } else {
        match checked_scale_color(light.intensity, material.specular) {
            Some(c) => match checked_scale_color(c, factor) {
                Some(s) => s,
                None => {
                    assert(!phong_fits(m, material_color, l, point, eye_vector, surface_normal, li, factor));
                    return None;
                },
            },
            None => {
                assert(!phong_fits(m, material_color, l, point, eye_vector, surface_normal, li, factor));
                return None;
            },
        }
    };
    let lit = match checked_add_color(diffuse, specular) {
        Some(c) => c,
        None => {
            assert(!phong_fits(m, material_color, l, point, eye_vector, surface_normal, li, factor));
            return None;
        },
    };
    let scaled = match checked_scale_color(lit, light_intensity) {
        Some(c) => c,
        None => {
            assert(!phong_fits(m, material_color, l, point, eye_vector, surface_normal, li, factor));
            return None;
        },
    };
    let result = checked_add_color(ambient, scaled);
    assert(phong_fits(m, material_color, l, point, eye_vector, surface_normal, li, factor) == result is Some);
    result
}

} // verus!
