use ray_tracer_challenge::color::Color;
use ray_tracer_challenge::constants::{black, white, yellow};
use ray_tracer_challenge::matrix::{identity_4x4, Matrix};
use ray_tracer_challenge::pattern::{
    pattern_point, try_pattern_point, Checkers, Gradient, Rings, Solid, Stripes, TestPattern,
};
use ray_tracer_challenge::tuple::Tuple;

const ONE: f64 = 4294967296.0;

fn fx(v: f64) -> i64 {
    (v * ONE).round() as i64
}

fn point(x: f64, y: f64, z: f64) -> Tuple {
    Tuple::point(fx(x), fx(y), fx(z))
}

fn color(r: f64, g: f64, b: f64) -> Color {
    Color::new(fx(r), fx(g), fx(b))
}

fn scaling(x: f64, y: f64, z: f64) -> Matrix {
    Matrix {
        data: vec![
            vec![fx(x), 0, 0, 0],
            vec![0, fx(y), 0, 0],
            vec![0, 0, fx(z), 0],
            vec![0, 0, 0, fx(1.0)],
        ],
    }
}

fn translation(x: f64, y: f64, z: f64) -> Matrix {
    Matrix {
        data: vec![
            vec![fx(1.0), 0, 0, fx(x)],
            vec![0, fx(1.0), 0, fx(y)],
            vec![0, 0, fx(1.0), fx(z)],
            vec![0, 0, 0, fx(1.0)],
        ],
    }
}

fn check_stripe_pattern_constructor() {
    let pattern = Stripes::default();
    assert_eq!(pattern.a, white());
    assert_eq!(pattern.b, black());
}

#[test]
fn stripe_pattern_constructor() {
    check_stripe_pattern_constructor();
}

#[test]
fn pattern_stripe_pattern_constructor() {
    check_stripe_pattern_constructor();
}

#[test]
fn stripes_stripe_pattern_constructor() {
    check_stripe_pattern_constructor();
}

fn check_stripe_pattern_is_constant_in_y() {
    let pattern = Stripes::default();
    assert_eq!(pattern.color_at_world(point(0., 0., 0.)), white());
    assert_eq!(pattern.color_at_world(point(0., 1., 0.)), white());
    assert_eq!(pattern.color_at_world(point(0., 2., 0.)), white());
}

#[test]
fn stripe_pattern_is_constant_in_y() {
    check_stripe_pattern_is_constant_in_y();
}

#[test]
fn pattern_stripe_pattern_is_constant_in_y() {
    check_stripe_pattern_is_constant_in_y();
}

#[test]
fn stripes_stripe_pattern_is_constant_in_y() {
    check_stripe_pattern_is_constant_in_y();
}

fn check_stripe_pattern_is_constant_in_z() {
    let pattern = Stripes::default();
    assert_eq!(pattern.color_at_world(point(0., 0., 0.)), white());
    assert_eq!(pattern.color_at_world(point(0., 0., 1.)), white());
    assert_eq!(pattern.color_at_world(point(0., 0., 2.)), white());
}

#[test]
fn stripe_pattern_is_constant_in_z() {
    check_stripe_pattern_is_constant_in_z();
}

#[test]
fn pattern_stripe_pattern_is_constant_in_z() {
    check_stripe_pattern_is_constant_in_z();
}

#[test]
fn stripes_stripe_pattern_is_constant_in_z() {
    check_stripe_pattern_is_constant_in_z();
}

fn check_stripe_pattern_alternates_in_x() {
    let pattern = Stripes::default();
    assert_eq!(pattern.color_at_world(point(0., 0., 0.)), white());
    assert_eq!(pattern.color_at_world(point(0.9, 0., 0.)), white());
    assert_eq!(pattern.color_at_world(point(1., 0., 0.)), black());
    assert_eq!(pattern.color_at_world(point(-0.1, 0., 0.)), black());
    assert_eq!(pattern.color_at_world(point(-1., 0., 0.)), black());
    assert_eq!(pattern.color_at_world(point(-1.1, 0., 0.)), white());
}

#[test]
fn stripe_pattern_alternates_in_x() {
    check_stripe_pattern_alternates_in_x();
}

#[test]
fn pattern_stripe_pattern_alternates_in_x() {
    check_stripe_pattern_alternates_in_x();
}

#[test]
fn stripes_stripe_pattern_alternates_in_x() {
    check_stripe_pattern_alternates_in_x();
}

fn stripes_color_at_object(pattern: &Stripes, object_transform: &Matrix, world: Tuple) -> Color {
    let object_inverse = object_transform.inverse();
    let p = pattern_point(&object_inverse, pattern.base.transformation_inverse(), world);
    pattern.color_at_world(p)
}

#[test]
fn stripes_with_an_object_transformation() {
    let object = scaling(2.0, 2.0, 2.0);
    let pattern = Stripes::new(white(), black());
    let c = stripes_color_at_object(&pattern, &object, point(1.5, 0., 0.));
    assert_eq!(c, white());
}

#[test]
fn stripes_with_a_pattern_transformation() {
    let object = identity_4x4();
    let mut pattern = Stripes::new(white(), black());
    pattern.base.set_transformation(scaling(2.0, 2.0, 2.0));
    let c = stripes_color_at_object(&pattern, &object, point(1.5, 0., 0.));
    assert_eq!(c, white());
}

#[test]
fn stripes_with_both_object_and_pattern_transformation() {
    let object = scaling(2.0, 2.0, 2.0);
    let mut pattern = Stripes::new(white(), black());
    pattern.base.set_transformation(translation(0.5, 0.0, 0.0));
    let c = stripes_color_at_object(&pattern, &object, point(1.5, 0., 0.));
    assert_eq!(c, white());
}

#[test]
fn checkers_repeat_in_x() {
    let pattern = Checkers::default();
    assert_eq!(pattern.color_at_world(point(0., 0., 0.)), white());
    assert_eq!(pattern.color_at_world(point(0.99, 0., 0.)), white());
    assert_eq!(pattern.color_at_world(point(1.01, 0., 0.)), black());
}

#[test]
fn checkers_repeat_in_y() {
    let pattern = Checkers::default();
    assert_eq!(pattern.color_at_world(point(0., 0., 0.)), white());
    assert_eq!(pattern.color_at_world(point(0., 0.99, 0.)), white());
    assert_eq!(pattern.color_at_world(point(0., 1.01, 0.)), black());
}

#[test]
fn checkers_repeat_in_z() {
    let pattern = Checkers::default();
    assert_eq!(pattern.color_at_world(point(0., 0., 0.)), white());
    assert_eq!(pattern.color_at_world(point(0., 0., 0.99)), white());
    assert_eq!(pattern.color_at_world(point(0., 0., 1.01)), black());
}

#[test]
fn gradient_linearly_interpolates_between_colors() {
    let pattern = Gradient::default();
    assert_eq!(pattern.color_at_world(point(0., 0., 0.)), white());
    assert_eq!(pattern.color_at_world(point(0.25, 0., 0.)), color(0.75, 0.75, 0.75));
    assert_eq!(pattern.color_at_world(point(0.5, 0., 0.)), color(0.5, 0.5, 0.5));
    assert_eq!(pattern.color_at_world(point(0.75, 0., 0.)), color(0.25, 0.25, 0.25));
}

fn check_rings_extend_in_both_x_and_z() {
    let pattern = Rings::new(white(), black());
    assert_eq!(pattern.color_at_world(point(0., 0., 0.)), white());
    assert_eq!(pattern.color_at_world(point(1., 0., 0.)), black());
    assert_eq!(pattern.color_at_world(point(0., 0., 1.)), black());
    // 0.708 = just slightly more than √2/2
    assert_eq!(pattern.color_at_world(point(0.708, 0., 0.708)), black());
}

#[test]
fn rings_extend_in_both_x_and_z() {
    check_rings_extend_in_both_x_and_z();
}

#[test]
fn rings_rings_extend_in_both_x_and_z() {
    check_rings_extend_in_both_x_and_z();
}

#[test]
fn solid_pattern_returns_same_color_everywhere() {
    let pattern = Solid::default();
    assert_eq!(pattern.color_at_object(point(0., 0., 0.)), black());
    assert_eq!(pattern.color_at_object(point(100., -100., 20.)), black());
    assert_eq!(pattern.color_at_object(point(1., 1_000., 1_000_000.)), black());

    let pattern = Solid::new(yellow());
    assert_eq!(pattern.color_at_object(point(0., 0., 0.)), yellow());
    assert_eq!(pattern.color_at_object(point(100., -100., 20.)), yellow());
    assert_eq!(pattern.color_at_object(point(1., 1_000., 1_000_000.)), yellow());
}

fn test_color_at_object(pattern: &TestPattern, object_transform: &Matrix, world: Tuple) -> Color {
    let object_inverse = object_transform.inverse();
    let p = pattern_point(&object_inverse, pattern.base.transformation_inverse(), world);
    pattern.color_at_world(p)
}

#[test]
fn pattern_with_object_transformation() {
    let object = scaling(2.0, 2.0, 2.0);
    let test_pattern = TestPattern::new();
    let c = test_color_at_object(&test_pattern, &object, point(2., 3., 4.));
    assert_eq!(c, color(1., 1.5, 2.));
}

#[test]
fn pattern_with_pattern_transformation() {
    let object = identity_4x4();
    let mut test_pattern = TestPattern::new();
    test_pattern.base.set_transformation(scaling(2.0, 2.0, 2.0));
    let c = test_color_at_object(&test_pattern, &object, point(2., 3., 4.));
    assert_eq!(c, color(1., 1.5, 2.));
}

#[test]
fn pattern_with_both_object_and_pattern_transformation() {
    let object = scaling(2.0, 2.0, 2.0);
    let mut test_pattern = TestPattern::new();
    test_pattern.base.set_transformation(translation(0.5, 1.0, 1.5));
    let c = test_color_at_object(&test_pattern, &object, point(2.5, 3., 3.5));
    assert_eq!(c, color(0.75, 0.5, 0.25));
}

#[test]
fn checked_pattern_point() {
    let world = Tuple::point(fx(2.0), fx(3.0), fx(4.0));
    let scaled = Matrix {
        data: vec![
            vec![fx(0.5), 0, 0, 0],
            vec![0, fx(0.5), 0, 0],
            vec![0, 0, fx(0.5), 0],
            vec![0, 0, 0, fx(1.0)],
        ],
    };
    let p = try_pattern_point(&scaled, &identity_4x4(), world).unwrap();
    assert_eq!(p, Tuple::point(fx(1.0), fx(1.5), fx(2.0)));
    assert_eq!(p, pattern_point(&scaled, &identity_4x4(), world));
    // a product that overflows
    let huge = Matrix { data: vec![vec![i64::MAX; 4]; 4] };
    assert_eq!(try_pattern_point(&huge, &identity_4x4(), world), None);
    // a matrix that is not 4 by 4
    assert_eq!(try_pattern_point(&identity_4x4().submatrix(0, 0), &identity_4x4(), world), None);
}
