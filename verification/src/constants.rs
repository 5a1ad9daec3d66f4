//! Named colors and materials, refractive indices, and the depth to which
//! rays are followed.
use vstd::prelude::*;
use crate::color::Color;
use crate::fixed::ONE;
use crate::lighting::Material;

verus! {

/// How many times a ray is followed through reflections and refractions.
pub const DEFAULT_RAY_RECURSION_DEPTH: i16 = 5;

/// Refractive indices of common media, as fixed-point scalars.
pub const REFRACTION_VACCUM: i64 = 4294967296;
pub const REFRACTION_AIR: i64 = 4296212837;
pub const REFRACTION_WATER: i64 = 5725191406;
pub const REFRACTION_GLASS: i64 = 6528350290;
pub const REFRACTION_DIAMOND: i64 = 10380935954;

/// The default material made fully transparent, bending light as glass
/// does.
pub fn glass() -> (m: Material)
    ensures
        m == (Material { transparency: ONE, refractive_index: REFRACTION_GLASS, ..Material::default_spec() }),
{
    let base = Material::default();
    Material { transparency: ONE, refractive_index: REFRACTION_GLASS, ..base }
}

pub fn white() -> (c: Color)
    ensures
        c == (Color { r: ONE, g: ONE, b: ONE }),
{
    Color::new(ONE, ONE, ONE)
}

pub fn black() -> (c: Color)
    ensures
        c == (Color { r: 0, g: 0, b: 0 }),
{
    Color::new(0, 0, 0)
}

pub fn red() -> (c: Color)
    ensures
        c == (Color { r: ONE, g: 0, b: 0 }),
{
    Color::new(ONE, 0, 0)
}

pub fn green() -> (c: Color)
    ensures
        c == (Color { r: 0, g: ONE, b: 0 }),
{
    Color::new(0, ONE, 0)
}

pub fn blue() -> (c: Color)
    ensures
        c == (Color { r: 0, g: 0, b: ONE }),
{
    Color::new(0, 0, ONE)
}

pub fn yellow() -> (c: Color)
    ensures
        c == (Color { r: ONE, g: ONE, b: 0 }),
{
    Color::new(ONE, ONE, 0)
}

pub fn cyan() -> (c: Color)
    ensures
        c == (Color { r: 0, g: ONE, b: ONE }),
{
    Color::new(0, ONE, ONE)
}

pub fn purple() -> (c: Color)
    ensures
        c == (Color { r: ONE, g: 0, b: ONE }),
{
    Color::new(ONE, 0, ONE)
}

/// Half intensity on every channel.
pub fn gray() -> (c: Color)
    ensures
        c.r == ONE / 2 && c.g == ONE / 2 && c.b == ONE / 2,
{
    Color::new(ONE / 2, ONE / 2, ONE / 2)
}

/// A gray, slightly reflective material: ambient 1, diffuse 0.6,
/// specular 0.4, shininess 10, reflective 0.1.
pub fn metal() -> (m: Material)
    ensures
        m == (Material {
            color: Color { r: 2147483648, g: 2147483648, b: 2147483648 },
            ambient: ONE,
            diffuse: 2576980378,
            specular: 1717986918,
            shininess: 42949672960,
            reflective: 429496730,
            transparency: 0,
            refractive_index: ONE,
        }),
{
    Material {
        color: gray(),
        ambient: ONE,
        diffuse: 2576980378,
        specular: 1717986918,
        shininess: 42949672960,
        reflective: 429496730,
        transparency: 0,
        refractive_index: ONE,
    }
}

/// Full red, half green.
pub fn brown() -> (c: Color)
    ensures
        c.r == ONE && c.g == ONE / 2 && c.b == 0,
{
    Color::new(ONE, ONE / 2, 0)
}

} // verus!
