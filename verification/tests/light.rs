use ray_tracer_challenge::constants::white;
use ray_tracer_challenge::light::{PointLight, RectangleLight};
use ray_tracer_challenge::tuple::Tuple;

const ONE: f64 = 4294967296.0;

fn fx(v: f64) -> i64 {
    (v * ONE).round() as i64
}

fn point(x: f64, y: f64, z: f64) -> Tuple {
    Tuple::point(fx(x), fx(y), fx(z))
}

fn vector(x: f64, y: f64, z: f64) -> Tuple {
    Tuple::vector(fx(x), fx(y), fx(z))
}

#[test]
fn light_point_light_has_position_and_intensity() {
    let position = point(0., 0., 0.);
    let intensity = white();
    let light = PointLight::new(position, intensity);
    assert_eq!(light.position, position);
    assert_eq!(light.intensity, intensity);
}

#[test]
fn point_light_point_light_has_position_and_intensity() {
    let position = point(0., 0., 0.);
    let intensity = white();
    let light = PointLight::new(position, intensity);
    assert_eq!(light.position, position);
    assert_eq!(light.intensity, intensity);
}

#[test]
fn point_light_intensity_depends_on_shadow() {
    let light = PointLight::new(point(0., 0., 0.), white());
    assert_eq!(light.intensity_at(|_l: Tuple| false), fx(1.0));
    assert_eq!(light.intensity_at(|_l: Tuple| true), 0);
    // the shadow test is asked about the light's position
    assert_eq!(light.intensity_at(|l: Tuple| l == point(0., 0., 0.)), 0);
}

#[test]
fn rectangle_light_construction() {
    let corner = point(0., 0., 0.);
    let u = vector(2., 0., 0.);
    let v = vector(0., 0., 1.);
    let light = RectangleLight::new(white(), corner, u, 4, v, 2);

    assert_eq!(light.u, vector(0.5, 0., 0.));
    assert_eq!(light.u_steps, 4);
    assert_eq!(light.v, vector(0., 0., 0.5));
    assert_eq!(light.v_steps, 2);
    assert_eq!(light.cells, 8);
    assert_eq!(light.position, point(1., 0., 0.5));
}

#[test]
fn finding_single_point_on_rectangle_light() {
    let corner = point(0., 0., 0.);
    let u_vec = vector(2., 0., 0.);
    let v_vec = vector(0., 0., 1.);
    let test_data = vec![
        ("1", 0, 0, point(0.25, 0., 0.25)),
        ("2", 1, 0, point(0.75, 0., 0.25)),
        ("3", 0, 1, point(0.25, 0., 0.75)),
        ("4", 2, 0, point(1.25, 0., 0.25)),
        ("5", 3, 1, point(1.75, 0., 0.75)),
    ];
    for (name, u, v, expected) in test_data {
        let light = RectangleLight::new(white(), corner, u_vec, 4, v_vec, 2);
        // a constant jitter puts every sample in the middle of its cell
        let p = light.point_on_light(u, v, fx(0.5), fx(0.5));
        assert_eq!(p, expected, "case: {:?}", name);
    }
}

#[test]
fn find_single_point_on_randomized_rectangle_light() {
    let corner = point(0., 0., 0.);
    let u_vec = vector(2., 0., 0.);
    let v_vec = vector(0., 0., 1.);
    let test_data = vec![
        ("1", 0, 0, point(0.15, 0., 0.35)),
        ("2", 1, 0, point(0.65, 0., 0.35)),
        ("3", 0, 1, point(0.15, 0., 0.85)),
        ("4", 2, 0, point(1.15, 0., 0.35)),
        ("5", 3, 1, point(1.65, 0., 0.85)),
    ];
    let close = |a: Tuple, b: Tuple| {
        [(a.x, b.x), (a.y, b.y), (a.z, b.z), (a.w, b.w)]
            .iter()
            .all(|(p, q)| ((*p as f64 - *q as f64) / ONE).abs() <= f32::EPSILON as f64)
    };
    for (name, u, v, expected) in test_data {
        let light = RectangleLight::new(white(), corner, u_vec, 4, v_vec, 2);
        // the first two jitters of the hardcoded sequence
        let p = light.point_on_light(u, v, fx(0.3), fx(0.7));
        assert!(close(p, expected), "case: {:?}", name);
    }
}

#[test]
fn rectangle_light_intensity_is_fraction_of_lit_cells() {
    let light = RectangleLight::new(white(), point(-0.5, -0.5, -5.), vector(1., 0., 0.), 2, vector(0., 1., 0.), 2);
    assert_eq!(light.lit_fraction(0), 0);
    assert_eq!(light.lit_fraction(1), fx(0.25));
    assert_eq!(light.lit_fraction(2), fx(0.5));
    assert_eq!(light.lit_fraction(3), fx(0.75));
    assert_eq!(light.lit_fraction(4), fx(1.0));
    assert_eq!(light.position(), point(0., 0., -5.));
    assert_eq!(light.intensity(), white());
}

fn to_f64(t: Tuple) -> [f64; 3] {
    [t.x as f64 / ONE, t.y as f64 / ONE, t.z as f64 / ONE]
}

/// Whether the segment from `from` to `to` passes through the sphere of
/// the given radius around the origin before reaching `to`.
fn segment_hits_sphere(from: [f64; 3], to: [f64; 3], radius: f64) -> bool {
    let d = [to[0] - from[0], to[1] - from[1], to[2] - from[2]];
    let dot = |a: [f64; 3], b: [f64; 3]| a[0] * b[0] + a[1] * b[1] + a[2] * b[2];
    let a = dot(d, d);
    let b = 2.0 * dot(from, d);
    let c = dot(from, from) - radius * radius;
    let discriminant = b * b - 4.0 * a * c;
    if discriminant < 0.0 {
        return false;
    }
    let t1 = (-b - discriminant.sqrt()) / (2.0 * a);
    let t2 = (-b + discriminant.sqrt()) / (2.0 * a);
    // the nearest intersection in front of the point decides
    let hit = if t1 >= 0.0 { Some(t1) } else if t2 >= 0.0 { Some(t2) } else { None };
    matches!(hit, Some(t) if t < 1.0)
}

/// The default world's shadow test: a unit sphere around the origin with a
/// sphere of half its radius inside it.
fn shadowed_in_default_world(point: Tuple, light_position: Tuple) -> bool {
    let p = to_f64(point);
    let l = to_f64(light_position);
    segment_hits_sphere(p, l, 1.0) || segment_hits_sphere(p, l, 0.5)
}

#[test]
fn intensity_at() {
    let test_data = vec![
        ("1", point(0., 0., 2.), 0.0),
        ("2", point(1., -1., 2.), 0.25),
        ("3", point(1.5, 0., 2.), 0.5),
        ("4", point(1.25, 1.25, 3.), 0.75),
        ("5", point(0., 0., -2.), 1.0),
    ];
    let corner = point(-0.5, -0.5, -5.);
    let u_vec = vector(1., 0., 0.);
    let v_vec = vector(0., 1., 0.);
    for (name, p, expected) in test_data {
        let light = RectangleLight::new(white(), corner, u_vec, 2, v_vec, 2);
        // a constant jitter puts every sample in the middle of its cell
        let jitters = vec![(fx(0.5), fx(0.5)); 4];
        let intensity = light.intensity_at(&jitters, |l: Tuple| shadowed_in_default_world(p, l));
        assert_eq!(intensity, Some(fx(expected)), "case: {:?}", name);
    }
}

#[test]
fn samples_are_taken_row_by_row() {
    let light = RectangleLight::new(white(), point(0., 0., 0.), vector(2., 0., 0.), 2, vector(0., 2., 0.), 2);
    // only the sample of cell (1, 0), the second one, is shadowed
    let jitters = vec![(fx(0.5), fx(0.5)); 4];
    let intensity = light.intensity_at(&jitters, |l: Tuple| l == point(1.5, 0.5, 0.));
    assert_eq!(intensity, Some(fx(0.75)));
    // the jitters are taken in the same order
    let jitters = vec![(0, 0), (fx(0.5), 0), (0, 0), (0, 0)];
    let intensity = light.intensity_at(&jitters, |l: Tuple| l == point(1.5, 0., 0.));
    assert_eq!(intensity, Some(fx(0.75)));
}

#[test]
fn sampling_a_light_that_overflows_gives_nothing() {
    let light = RectangleLight::new(white(), point(0., 0., 0.), vector(2., 0., 0.), 2, vector(0., 2., 0.), 2);
    let jitters = vec![(0, 0), (0, 0), (0, i64::MAX), (0, 0)];
    assert_eq!(light.intensity_at(&jitters, |_l: Tuple| false), None);
}
