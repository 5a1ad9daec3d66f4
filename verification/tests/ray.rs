use ray_tracer_challenge::matrix::Matrix;
use ray_tracer_challenge::ray::Ray;
use ray_tracer_challenge::tuple::Tuple;

const ONE: f64 = 4294967296.0;

fn fx(v: f64) -> i64 {
    (v * ONE).round() as i64
}

fn point(x: f64, y: f64, z: f64) -> Tuple {
    Tuple::point(fx(x), fx(y), fx(z))
}

fn vector(x: f64, y: f64, z: f64) -> Tuple {
    Tuple::vector(fx(x), fx(y), fx(z))
}

fn close(a: Tuple, b: Tuple) -> bool {
    let eps = f32::EPSILON as f64;
    [(a.x, b.x), (a.y, b.y), (a.z, b.z), (a.w, b.w)]
        .iter()
        .all(|(p, q)| ((*p as f64 - *q as f64) / ONE).abs() <= eps)
}

fn check_basic_ray_creation() {
    let origin = point(1.0, 2.0, 3.0);
    let direction = vector(4.0, 5.0, 6.0);
    let r = Ray::new(origin, direction);
    assert_eq!(r.origin, origin);
    assert_eq!(r.direction, direction);
}

fn check_reflect_45() {
    let v = vector(1.0, -1.0, 0.0);
    let n = vector(0.0, 1.0, 0.0);
    let r = Ray::reflect(v, n);
    assert_eq!(r, vector(1.0, 1.0, 0.0));
}

fn check_reflect_slanted() {
    let v = vector(0.0, -1.0, 0.0);
    let n = vector(std::f64::consts::FRAC_1_SQRT_2, std::f64::consts::FRAC_1_SQRT_2, 0.0);
    let r = Ray::reflect(v, n);
    assert!(close(r, vector(1.0, 0.0, 0.0)), "{:?}", r);
}

#[test]
fn basic_ray_creation() {
    check_basic_ray_creation();
}

#[test]
fn ray_basic_ray_creation() {
    check_basic_ray_creation();
}

#[test]
fn reflect_vector_approaching_at_45_degrees() {
    check_reflect_45();
}

#[test]
fn ray_reflect_vector_approaching_at_45_degrees() {
    check_reflect_45();
}

#[test]
fn reflect_vector_off_slanted_surface() {
    check_reflect_slanted();
}

#[test]
fn ray_reflect_vector_off_slanted_surface() {
    check_reflect_slanted();
}

fn check_compute_point_from_distance() {
    let r = Ray::new(point(2.0, 3.0, 4.0), vector(1.0, 0.0, 0.0));
    assert_eq!(r.position(fx(0.0)), point(2.0, 3.0, 4.0));
    assert_eq!(r.position(fx(1.0)), point(3.0, 3.0, 4.0));
    assert_eq!(r.position(fx(-1.0)), point(1.0, 3.0, 4.0));
    assert_eq!(r.position(fx(2.5)), point(4.5, 3.0, 4.0));
}

#[test]
fn compute_point_from_distance() {
    check_compute_point_from_distance();
}

#[test]
fn ray_compute_point_from_distance() {
    check_compute_point_from_distance();
}

#[test]
fn reflection_off_a_flat_floor_flips_the_vertical_component() {
    let v = vector(0.25, -0.5, 0.75);
    let n = vector(0.0, 1.0, 0.0);
    assert_eq!(Ray::reflect(v, n), vector(0.25, 0.5, 0.75));
}

fn translation(x: f64, y: f64, z: f64) -> Matrix {
    Matrix {
        data: vec![
            vec![fx(1.0), 0, 0, fx(x)],
            vec![0, fx(1.0), 0, fx(y)],
            vec![0, 0, fx(1.0), fx(z)],
            vec![0, 0, 0, fx(1.0)],
        ],
    }
}

fn scaling(x: f64, y: f64, z: f64) -> Matrix {
    Matrix {
        data: vec![
            vec![fx(x), 0, 0, 0],
            vec![0, fx(y), 0, 0],
            vec![0, 0, fx(z), 0],
            vec![0, 0, 0, fx(1.0)],
        ],
    }
}

fn check_ray_translation() {
    let r = Ray::new(point(1.0, 2.0, 3.0), vector(0.0, 1.0, 0.0));
    let m = translation(3.0, 4.0, 5.0);
    let r2 = r.transform(&m);
    assert_eq!(r2.origin, point(4.0, 6.0, 8.0));
    assert_eq!(r2.direction, vector(0.0, 1.0, 0.0));
}

fn check_ray_scaling() {
    let r = Ray::new(point(1.0, 2.0, 3.0), vector(0.0, 1.0, 0.0));
    let m = scaling(2.0, 3.0, 4.0);
    let r2 = r.transform(&m);
    assert_eq!(r2.origin, point(2.0, 6.0, 12.0));
    assert_eq!(r2.direction, vector(0.0, 3.0, 0.0));
}

#[test]
fn ray_translation() {
    check_ray_translation();
}

#[test]
fn ray_ray_translation() {
    check_ray_translation();
}

#[test]
fn ray_scaling() {
    check_ray_scaling();
}

#[test]
fn ray_ray_scaling() {
    check_ray_scaling();
}

#[test]
fn reflecting_twice_gives_the_vector_back() {
    let n = vector(1.0, 1.0, 0.0).norm();
    let v = vector(1.0, -2.0, 3.5);
    let back = Ray::reflect(Ray::reflect(v, n), n);
    let p = ONE;
    let nn = [n.x, n.y, n.z, n.w].iter().map(|c| (*c as f64) * (*c as f64)).sum::<f64>();
    let d = v.dot(&n) as f64;
    let slack = 18.0 + 4.0 * d.abs() * (nn - p * p).abs() / (p * p);
    for (b, o) in [(back.x, v.x), (back.y, v.y), (back.z, v.z), (back.w, v.w)] {
        assert!(((b - o) as f64).abs() <= slack);
    }
    assert!(close(back, v));
}

#[test]
fn reflection_negates_the_dot_product_and_keeps_the_length() {
    let n = vector(1.0, 1.0, 0.0).norm();
    let v = vector(1.0, -2.0, 3.5);
    let r = Ray::reflect(v, n);
    let p = ONE;
    let comps = |t: Tuple| [t.x as f64, t.y as f64, t.z as f64, t.w as f64];
    let exact_dot = |a: Tuple, b: Tuple| comps(a).iter().zip(comps(b).iter()).map(|(x, y)| x * y).sum::<f64>();
    let sq = |t: Tuple| comps(t).iter().map(|c| c * c).sum::<f64>();
    let d = v.dot(&n) as f64;
    let off = sq(n) - p * p;
    // the dot product with the normal changes sign
    assert!((p * exact_dot(r, n) + p * p * d).abs() <= (8.0 * p * p + 2.0 * (d * off).abs()) * (1.0 + 1e-9));
    assert!(((exact_dot(r, n) / p) + d).abs() / p <= 1e-6);
    // the squared length is kept
    let va: f64 = comps(v).iter().map(|c| c.abs()).sum();
    let bound = 4.0 * (d * d * off).abs() + p * p * (32.0 * d.abs() + 2.0 * va + 4.0);
    assert!(p * p * (sq(r) - sq(v)).abs() <= bound * (1.0 + 1e-9));
    assert!(((sq(r) - sq(v)) / sq(v)).abs() <= 1e-6);
}
