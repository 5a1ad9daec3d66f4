use ray_tracer_challenge::camera::{build_camera, Camera};
use ray_tracer_challenge::matrix::{identity_4x4, Matrix};
use ray_tracer_challenge::tuple::Tuple;
use std::f64::consts::{FRAC_1_SQRT_2, PI};

const ONE: f64 = 4294967296.0;

fn fx(v: f64) -> i64 {
    (v * ONE).round() as i64
}

fn point(x: f64, y: f64, z: f64) -> Tuple {
    Tuple::point(fx(x), fx(y), fx(z))
}

fn vector(x: f64, y: f64, z: f64) -> Tuple {
    Tuple::vector(fx(x), fx(y), fx(z))
}

fn close_within(a: Tuple, b: Tuple, eps: f64) -> bool {
    [(a.x, b.x), (a.y, b.y), (a.z, b.z), (a.w, b.w)]
        .iter()
        .all(|(p, q)| ((*p as f64 - *q as f64) / ONE).abs() <= eps)
}

fn close(a: Tuple, b: Tuple) -> bool {
    close_within(a, b, f32::EPSILON as f64)
}

fn matrix(rows: [[f64; 4]; 4]) -> Matrix {
    Matrix { data: rows.iter().map(|r| r.iter().map(|v| fx(*v)).collect()).collect() }
}

fn rotation_y(r: f64) -> Matrix {
    matrix([
        [r.cos(), 0., r.sin(), 0.],
        [0., 1., 0., 0.],
        [-r.sin(), 0., r.cos(), 0.],
        [0., 0., 0., 1.],
    ])
}

fn translation(x: f64, y: f64, z: f64) -> Matrix {
    matrix([[1., 0., 0., x], [0., 1., 0., y], [0., 0., 1., z], [0., 0., 0., 1.]])
}

/// A camera with the given field of view; the tangent of half of it is
/// the half view the library takes.
fn camera(width: u32, height: u32, field_of_view: f64, transform: Matrix) -> Camera {
    build_camera(width, height, fx(field_of_view), fx((field_of_view / 2.0).tan()), transform)
}

fn close_scalar(a: i64, b: f64) -> bool {
    (a as f64 / ONE - b).abs() <= f32::EPSILON as f64
}

#[test]
fn horizontal_canvas_pixel_size() {
    let c = camera(200, 125, PI / 2.0, identity_4x4());
    assert!(close_scalar(c.pixel_size, 0.01));
}

#[test]
fn vertical_canvas_pixel_size() {
    let c = camera(125, 200, PI / 2.0, identity_4x4());
    assert!(close_scalar(c.pixel_size, 0.01));
}

#[test]
fn construct_ray_through_canvas_center() {
    let c = camera(201, 101, PI / 2.0, identity_4x4());
    let r = c.ray_for_pixel(100, 50);
    assert_eq!(r.origin, point(0., 0., 0.));
    assert!(close(r.direction, vector(0., 0., -1.)));
}

#[test]
fn construct_ray_through_canvas_corner() {
    let c = camera(201, 101, PI / 2.0, identity_4x4());
    let r = c.ray_for_pixel(0, 0);
    assert_eq!(r.origin, point(0., 0., 0.));
    assert!(close(r.direction, vector(0.6651864, 0.33259323, -0.66851234)));
}

#[test]
fn construct_ray_with_transformed_camera() {
    let transform = rotation_y(PI / 4.0).try_multiply(&translation(0.0, -2.0, 5.0)).unwrap();
    let c = camera(201, 101, PI / 2.0, transform);
    let r = c.ray_for_pixel(100, 50);
    // a wider tolerance for the longer chain of roundings
    assert!(close_within(r.origin, point(0., 2., -5.), 10.0 * f32::EPSILON as f64));
    assert!(close(r.direction, vector(FRAC_1_SQRT_2, 0., -FRAC_1_SQRT_2)));
}

#[test]
fn camera_keeps_its_size_and_half_extents() {
    let c = camera(160, 120, PI / 2.0, identity_4x4());
    assert_eq!(c.width_pixels, 160);
    assert_eq!(c.height_pixels, 120);
    assert_eq!(c.half_width_world, fx(1.0));
    // three quarters of the half view, rounded down
    assert_eq!(c.half_height_world, fx(0.75));
    assert_eq!(c.pixel_size, (2 * fx(1.0)) / 160);
}

#[test]
fn checked_ray_matches_ray_for_pixel() {
    let c = camera(201, 101, PI / 2.0, identity_4x4());
    let r = c.try_ray_for_pixel(0, 0).unwrap();
    assert_eq!(r, c.ray_for_pixel(0, 0));
}

#[test]
fn no_ray_through_a_camera_that_cannot_be_inverted() {
    let c = camera(201, 101, PI / 2.0, Matrix::new(4));
    assert_eq!(c.try_ray_for_pixel(0, 0), None);
}

#[test]
fn no_ray_through_a_camera_that_is_not_four_by_four() {
    let c = camera(201, 101, PI / 2.0, identity_4x4().submatrix(0, 0));
    assert_eq!(c.try_ray_for_pixel(0, 0), None);
}

#[test]
fn no_camera_without_pixels() {
    let c = ray_tracer_challenge::camera::try_build_camera(0, 100, fx(PI / 2.0), fx(1.0), identity_4x4());
    assert!(c.is_none());
    let c = ray_tracer_challenge::camera::try_build_camera(100, 0, fx(PI / 2.0), fx(1.0), identity_4x4());
    assert!(c.is_none());
}

#[test]
fn checked_camera_matches_build_camera() {
    let c = ray_tracer_challenge::camera::try_build_camera(200, 125, fx(PI / 2.0), fx(1.0), identity_4x4())
        .unwrap();
    assert_eq!(c.pixel_size, build_camera(200, 125, fx(PI / 2.0), fx(1.0), identity_4x4()).pixel_size);
    assert_eq!(c.half_height_world, fx(0.625));
}
