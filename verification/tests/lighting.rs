use ray_tracer_challenge::color::Color;
use ray_tracer_challenge::constants::{black, glass, metal, white, REFRACTION_GLASS};
use ray_tracer_challenge::light::PointLight;
use ray_tracer_challenge::lighting::{phong_lighting, Material};
use ray_tracer_challenge::pattern::Stripes;
use ray_tracer_challenge::tuple::Tuple;
use std::f64::consts::FRAC_1_SQRT_2;

const ONE: f64 = 4294967296.0;

fn fx(v: f64) -> i64 {
    (v * ONE).round() as i64
}

fn point(x: f64, y: f64, z: f64) -> Tuple {
    Tuple::point(fx(x), fx(y), fx(z))
}

fn vector(x: f64, y: f64, z: f64) -> Tuple {
    Tuple::vector(fx(x), fx(y), fx(z))
}

fn color(r: f64, g: f64, b: f64) -> Color {
    Color::new(fx(r), fx(g), fx(b))
}

fn close_within(a: Color, b: Color, eps: f64) -> bool {
    [(a.r, b.r), (a.g, b.g), (a.b, b.b)]
        .iter()
        .all(|(p, q)| ((*p as f64 - *q as f64) / ONE).abs() <= eps)
}

fn close(a: Color, b: Color) -> bool {
    close_within(a, b, f32::EPSILON as f64)
}

/// The Phong color with the specular power computed as a floating-point
/// power of the cosine, as the material's shininess asks.
fn lighting(
    m: &Material,
    material_color: Color,
    light: &PointLight,
    position: Tuple,
    eye_vector: Tuple,
    surface_normal: Tuple,
    light_intensity: f64,
) -> Color {
    let shininess = m.shininess as f64 / ONE;
    phong_lighting(
        m,
        material_color,
        light,
        position,
        eye_vector,
        surface_normal,
        fx(light_intensity),
        |c: i64| fx((c as f64 / ONE).powf(shininess)),
    )
    .unwrap()
}

fn check_eye_between_light_and_surface() {
    let m = Material::default();
    let position = point(0., 0., 0.);
    let eye_vector = vector(0., 0., -1.);
    let surface_normal = vector(0., 0., -1.);
    let light = PointLight::new(point(0., 0., -10.), white());
    let result = lighting(&m, m.color, &light, position, eye_vector, surface_normal, 1.0);
    assert!(close(result, color(1.9, 1.9, 1.9)));
}

fn check_eye_offset_45_degrees() {
    let m = Material::default();
    let position = point(0., 0., 0.);
    let eye_vector = vector(0., FRAC_1_SQRT_2, FRAC_1_SQRT_2);
    let surface_normal = vector(0., 0., -1.);
    let light = PointLight::new(point(0., 0., -10.), white());
    let result = lighting(&m, m.color, &light, position, eye_vector, surface_normal, 1.0);
    assert!(close(result, white()));
}

fn check_light_offset_45_degrees() {
    let m = Material::default();
    let position = point(0., 0., 0.);
    let eye_vector = vector(0., 0., -1.);
    let surface_normal = vector(0., 0., -1.);
    let light = PointLight::new(point(0., 10., -10.), white());
    let result = lighting(&m, m.color, &light, position, eye_vector, surface_normal, 1.0);
    let expected_intensity = 0.1 + 0.9 * FRAC_1_SQRT_2;
    assert!(close(result, color(expected_intensity, expected_intensity, expected_intensity)));
}

fn check_eye_in_path_of_reflection_vector() {
    let m = Material::default();
    let position = point(0., 0., 0.);
    let eye_vector = vector(0., -FRAC_1_SQRT_2, -FRAC_1_SQRT_2);
    let surface_normal = vector(0., 0., -1.);
    let light = PointLight::new(point(0., 10., -10.), white());
    let result = lighting(&m, m.color, &light, position, eye_vector, surface_normal, 1.0);
    // 0.1 + 0.9 * FRAC_1_SQRT_2 + 0.9; the single-precision computation
    // lands on 1.6363853, which fixed-point arithmetic comes within 2e-5 of
    let exact = 0.1 + 0.9 * FRAC_1_SQRT_2 + 0.9;
    assert!(close(result, color(exact, exact, exact)));
    assert!(close_within(result, color(1.636_385_3, 1.636_385_3, 1.636_385_3), 2e-5));
}

fn check_light_behind_surface() {
    let m = Material::default();
    let position = point(0., 0., 0.);
    let eye_vector = vector(0., 0., -1.);
    let surface_normal = vector(0., 0., -1.);
    let light = PointLight::new(point(0., 0., 10.), white());
    let result = lighting(&m, m.color, &light, position, eye_vector, surface_normal, 1.0);
    assert!(close(result, color(0.1, 0.1, 0.1)));
}

fn check_shadowed_surface() {
    let m = Material::default();
    let position = point(0., 0., 0.);
    let eye_vector = vector(0., 0., -1.);
    let surface_normal = vector(0., 0., -1.);
    let light = PointLight::new(point(0., 0., -10.), white());
    let result = lighting(&m, m.color, &light, position, eye_vector, surface_normal, 0.0);
    assert!(close(result, color(0.1, 0.1, 0.1)));
}

fn check_with_pattern_applied() {
    let pattern = Stripes::new(white(), black());
    let m = Material {
        ambient: fx(1.0),
        diffuse: 0,
        specular: 0,
        reflective: 0,
        shininess: fx(200.0),
        color: color(0.5, 0.5, 0.5),
        transparency: 0,
        refractive_index: fx(1.0),
    };
    let eye_vector = vector(0., 0., -1.);
    let surface_normal = vector(0., 0., -1.);
    let light = PointLight::new(point(0., 0., -10.), white());
    // the pattern and the object are not transformed
    let p1 = point(0.9, 0., 0.);
    let p2 = point(1.1, 0., 0.);
    let c1 = lighting(&m, pattern.color_at_world(p1), &light, p1, eye_vector, surface_normal, 1.0);
    let c2 = lighting(&m, pattern.color_at_world(p2), &light, p2, eye_vector, surface_normal, 1.0);
    assert_eq!(c1, white());
    assert_eq!(c2, black());
}

#[test]
fn light_lighting_eye_between_light_and_surface() {
    check_eye_between_light_and_surface();
}

#[test]
fn phong_lighting_lighting_eye_between_light_and_surface() {
    check_eye_between_light_and_surface();
}

#[test]
fn light_light_eye_between_light_and_surface_eye_offset_45_degrees() {
    check_eye_offset_45_degrees();
}

#[test]
fn phong_lighting_light_eye_between_light_and_surface_eye_offset_45_degrees() {
    check_eye_offset_45_degrees();
}

#[test]
fn light_light_eye_between_light_and_surface_light_offset_45_degrees() {
    check_light_offset_45_degrees();
}

#[test]
fn phong_lighting_light_eye_between_light_and_surface_light_offset_45_degrees() {
    check_light_offset_45_degrees();
}

#[test]
fn light_light_eye_in_path_of_reflection_vector() {
    check_eye_in_path_of_reflection_vector();
}

#[test]
fn phong_lighting_light_eye_in_path_of_reflection_vector() {
    check_eye_in_path_of_reflection_vector();
}

#[test]
fn light_behind_surface() {
    check_light_behind_surface();
}

#[test]
fn phong_light_behind_surface() {
    check_light_behind_surface();
}

#[test]
fn lighting_shadowed_surface() {
    check_shadowed_surface();
}

#[test]
fn phong_lighting_shadowed_surface() {
    check_shadowed_surface();
}

#[test]
fn lighting_with_pattern_applied() {
    check_with_pattern_applied();
}

#[test]
fn phong_lighting_with_pattern_applied() {
    check_with_pattern_applied();
}

#[test]
fn phong_lighting_uses_light_intensity_to_attenuate_color() {
    let m = Material {
        ambient: fx(0.1),
        diffuse: fx(0.9),
        specular: 0,
        color: color(1., 1., 1.),
        ..Material::default()
    };
    let light = PointLight::new(point(0., 0., -10.), color(1., 1., 1.));
    let p = point(0., 0., -1.);
    let eye_vector = vector(0., 0., -1.);
    let surface_normal = vector(0., 0., -1.);
    let test_data = vec![
        ("1", 1.0, color(1., 1., 1.)),
        ("2", 0.5, color(0.55, 0.55, 0.55)),
        ("3", 0.0, color(0.1, 0.1, 0.1)),
    ];
    for (name, intensity, expected) in test_data {
        let result = lighting(&m, m.color, &light, p, eye_vector, surface_normal, intensity);
        assert!(close(result, expected), "case {}", name);
    }
}

#[test]
fn specular_power_is_asked_only_for_a_highlight() {
    let m = Material::default();
    let light = PointLight::new(point(0., 0., 10.), white());
    // the light is behind the surface: no highlight, so the power is never
    // computed
    let result = phong_lighting(
        &m,
        m.color,
        &light,
        point(0., 0., 0.),
        vector(0., 0., -1.),
        vector(0., 0., -1.),
        fx(1.0),
        |_c: i64| -> i64 { panic!("no highlight was expected") },
    );
    assert!(close(result.unwrap(), color(0.1, 0.1, 0.1)));
}

#[test]
fn specular_power_scales_the_highlight() {
    let m = Material::default();
    let light = PointLight::new(point(0., 0., -10.), white());
    // a power of one half halves the specular contribution
    let result = phong_lighting(
        &m,
        m.color,
        &light,
        point(0., 0., 0.),
        vector(0., 0., -1.),
        vector(0., 0., -1.),
        fx(1.0),
        |_c: i64| fx(0.5),
    );
    assert!(close(result.unwrap(), color(0.1 + 0.9 + 0.45, 0.1 + 0.9 + 0.45, 0.1 + 0.9 + 0.45)));
}

#[test]
fn phong_lighting_that_overflows_gives_nothing() {
    let m = Material::default();
    let huge = Color::new(i64::MAX, i64::MAX, i64::MAX);
    let light = PointLight::new(point(0., 0., -10.), huge);
    let result = phong_lighting(
        &m,
        huge,
        &light,
        point(0., 0., 0.),
        vector(0., 0., -1.),
        vector(0., 0., -1.),
        fx(1.0),
        |c: i64| c,
    );
    assert_eq!(result, None);
}

#[test]
fn glass_and_metal_materials() {
    let g = glass();
    assert_eq!(g.transparency, fx(1.0));
    assert_eq!(g.refractive_index, REFRACTION_GLASS);
    assert_eq!(g.refractive_index, fx(1.52));
    assert_eq!(g.ambient, Material::default().ambient);
    let m = metal();
    assert_eq!(m.color, color(0.5, 0.5, 0.5));
    assert_eq!(m.ambient, fx(1.0));
    assert_eq!(m.diffuse, fx(0.6));
    assert_eq!(m.specular, fx(0.4));
    assert_eq!(m.shininess, fx(10.0));
    assert_eq!(m.reflective, fx(0.1));
}

#[test]
fn phong_lighting_attenuates_in_proportion() {
    let m = Material::default();
    let light = PointLight::new(point(0., 10., -10.), white());
    let at = |t: f64| lighting(&m, m.color, &light, point(0., 0., 0.), vector(0., 0., -1.), vector(0., 0., -1.), t);
    let shadowed = at(0.0);
    let full = at(1.0);
    let half = at(0.5);
    // the ambient term plus half of the lit term, rounded down
    assert_eq!(half.r, shadowed.r + ((full.r - shadowed.r) as i128 * fx(0.5) as i128).div_euclid(1 << 32) as i64);
    assert!(close(shadowed, color(0.1, 0.1, 0.1)));
}
