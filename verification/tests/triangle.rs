use ray_tracer_challenge::ray::Ray;
use ray_tracer_challenge::triangle::{SmoothTriangle, Triangle, TriangleHit};
use ray_tracer_challenge::tuple::{isqrt, Tuple};

const ONE: f64 = 4294967296.0;

fn fx(v: f64) -> i64 {
    (v * ONE).round() as i64
}

fn point(x: f64, y: f64, z: f64) -> Tuple {
    Tuple::point(fx(x), fx(y), fx(z))
}

fn vector(x: f64, y: f64, z: f64) -> Tuple {
    Tuple::vector(fx(x), fx(y), fx(z))
}

fn close(a: Tuple, b: Tuple) -> bool {
    let eps = f32::EPSILON as f64;
    [(a.x, b.x), (a.y, b.y), (a.z, b.z), (a.w, b.w)]
        .iter()
        .all(|(p, q)| ((*p as f64 - *q as f64) / ONE).abs() <= eps)
}

fn default_triangle() -> Triangle {
    Triangle::new(point(0.0, 1.0, 0.0), point(-1.0, 0.0, 0.0), point(1.0, 0.0, 0.0))
}

fn default_smooth_triangle() -> SmoothTriangle {
    SmoothTriangle::new(
        point(0.0, 1.0, 0.0),
        point(-1.0, 0.0, 0.0),
        point(1.0, 0.0, 0.0),
        vector(0.0, 1.0, 0.0),
        vector(-1.0, 0.0, 0.0),
        vector(1.0, 0.0, 0.0),
    )
}

#[test]
fn triangle_construction() {
    let t = default_triangle();

    assert_eq!(t.p1, point(0.0, 1.0, 0.0));
    assert_eq!(t.p2, point(-1.0, 0.0, 0.0));
    assert_eq!(t.p3, point(1.0, 0.0, 0.0));
    assert_eq!(t.e1, vector(-1.0, -1.0, 0.0));
    assert_eq!(t.e2, vector(1.0, -1.0, 0.0));
    assert_eq!(t.normal, vector(0.0, 0.0, -1.0));
}

#[test]
fn triangle_normal() {
    let t = default_triangle();

    let n1 = t.local_norm_at(point(0.0, 0.5, 0.0));
    let n2 = t.local_norm_at(point(-0.5, 0.75, 0.0));
    let n3 = t.local_norm_at(point(0.5, 0.25, 0.0));

    // t.normal should always be used for triangle's normal
    assert_eq!(n1, t.normal);
    assert_eq!(n2, t.normal);
    assert_eq!(n3, t.normal);
}

#[test]
fn intersect_ray_parallel_to_triangle() {
    let t = default_triangle();
    let r = Ray::new(point(0.0, -1.0, -2.0), vector(0.0, 1.0, 0.0));
    let xs = t.local_intersect(r);
    assert!(xs.is_empty());
}

#[test]
fn ray_misses_p1_p3_edge() {
    let t = default_triangle();
    let r = Ray::new(point(1.0, 1.0, -2.0), vector(0.0, 0.0, 1.0));
    let xs = t.local_intersect(r);
    assert!(xs.is_empty());
}

#[test]
fn ray_misses_p1_p2_edge() {
    let t = default_triangle();
    let r = Ray::new(point(-1.0, 1.0, -2.0), vector(0.0, 0.0, 1.0));
    let xs = t.local_intersect(r);
    assert!(xs.is_empty());
}

#[test]
fn ray_misses_p2_p3_edge() {
    let t = default_triangle();
    let r = Ray::new(point(0.0, -1.0, -2.0), vector(0.0, 0.0, 1.0));
    let xs = t.local_intersect(r);
    assert!(xs.is_empty());
}

#[test]
fn ray_strikes_triangle() {
    let t = default_triangle();
    let r = Ray::new(point(0.0, 0.5, -2.0), vector(0.0, 0.0, 1.0));
    let xs = t.local_intersect(r);
    assert_eq!(xs.len(), 1);
    assert_eq!(xs[0].distance, fx(2.0));
}

#[test]
fn triangle_bounding_box() {
    let p1 = point(-3.0, 7.0, 2.0);
    let p2 = point(6.0, 2.0, -4.0);
    let p3 = point(2.0, -1.0, -1.0);
    let t = Triangle::new(p1, p2, p3);
    let b = t.bounding_box();
    assert_eq!(b.min, point(-3.0, -1.0, -4.0));
    assert_eq!(b.max, point(6.0, 7.0, 2.0));
}

#[test]
fn smooth_triangle_construction() {
    let t = default_smooth_triangle();

    assert_eq!(t.base.p1, point(0.0, 1.0, 0.0));
    assert_eq!(t.base.p2, point(-1.0, 0.0, 0.0));
    assert_eq!(t.base.p3, point(1.0, 0.0, 0.0));

    assert_eq!(t.n1, vector(0.0, 1.0, 0.0));
    assert_eq!(t.n2, vector(-1.0, 0.0, 0.0));
    assert_eq!(t.n3, vector(1.0, 0.0, 0.0));
}

#[test]
fn intersection_stores_u_and_v() {
    let t = default_smooth_triangle();
    let r = Ray::new(point(-0.2, 0.3, -2.0), vector(0.0, 0.0, 1.0));
    let xs = t.local_intersect(r);
    assert_eq!(xs[0].u, fx(0.45));
    assert_eq!(xs[0].v, fx(0.25));
}

#[test]
fn uses_u_and_v_to_interpolate_normal() {
    let t = default_smooth_triangle();
    let n = t.local_norm_at(point(0.0, 0.0, 0.0), fx(0.45), fx(0.25)).norm();
    assert!(close(n, vector(-0.5547002, 0.8320504, 0.0)));
}

#[test]
fn triangle_hit_reports_barycentric_coordinates() {
    let t = default_triangle();
    let r = Ray::new(point(0.0, 0.5, -2.0), vector(0.0, 0.0, 1.0));
    let xs = t.local_intersect(r);
    assert_eq!(xs, vec![TriangleHit { distance: fx(2.0), u: fx(0.25), v: fx(0.25) }]);
}

#[test]
fn triangle_ray_from_behind_gives_negative_distance() {
    let t = default_triangle();
    let r = Ray::new(point(0.0, 0.5, 3.0), vector(0.0, 0.0, 1.0));
    let xs = t.local_intersect(r);
    assert_eq!(xs.len(), 1);
    assert_eq!(xs[0].distance, fx(-3.0));
}

#[test]
fn degenerate_triangle_keeps_zero_normal() {
    let t = Triangle::new(point(0.0, 0.0, 0.0), point(1.0, 1.0, 1.0), point(2.0, 2.0, 2.0));
    assert_eq!(t.normal, vector(0.0, 0.0, 0.0));
}

#[test]
fn integer_square_roots() {
    assert_eq!(isqrt(0), 0);
    assert_eq!(isqrt(1), 1);
    assert_eq!(isqrt(15), 3);
    assert_eq!(isqrt(16), 4);
    assert_eq!(isqrt(1 << 100), 1 << 50);
    assert_eq!(isqrt((1 << 100) - 1), (1 << 50) - 1);
}

#[test]
fn normalizing_a_vector() {
    assert_eq!(vector(4.0, 0.0, 0.0).norm(), vector(1.0, 0.0, 0.0));
    assert!(close(vector(1.0, 2.0, 3.0).norm(), vector(0.2672612419, 0.5345224838, 0.8017837257)));
}

/// A thin triangle whose first edge is `edge` raw units long along x, seen
/// by a ray along +z through a point inside it.
fn thin_triangle_hits(edge: i64) -> usize {
    let one = 4294967296i64;
    let t = Triangle::new(
        Tuple::point(0, 0, 0),
        Tuple::point(edge, 0, 0),
        Tuple::point(0, -one, 0),
    );
    let r = Ray::new(Tuple::point(100, -one / 10, -one), Tuple::vector(0, 0, one));
    t.local_intersect(r).len()
}

#[test]
fn determinant_below_1e_7_counts_as_parallel() {
    // 429 raw units is below 1e-7, 430 is above it
    assert_eq!(thin_triangle_hits(429), 0);
    assert_eq!(thin_triangle_hits(430), 1);
}
