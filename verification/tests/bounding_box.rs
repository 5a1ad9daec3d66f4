use ray_tracer_challenge::bounding_box::BoundingBox;
use ray_tracer_challenge::matrix::Matrix;
use ray_tracer_challenge::ray::Ray;
use ray_tracer_challenge::tuple::Tuple;

fn fx(v: f64) -> i64 {
    (v * 4294967296.0).round() as i64
}

fn point(x: f64, y: f64, z: f64) -> Tuple {
    Tuple::point(fx(x), fx(y), fx(z))
}

fn unit_vector(x: f64, y: f64, z: f64) -> Tuple {
    let m = (x * x + y * y + z * z).sqrt();
    Tuple::vector(fx(x / m), fx(y / m), fx(z / m))
}

fn check_adding_points_to_empty_bounding_box() {
    let mut bounding_box = BoundingBox::empty();
    let p1 = point(-5.0, 2.0, 0.0);
    let p2 = point(7.0, 0.0, -3.0);
    bounding_box.add_point(p1);
    bounding_box.add_point(p2);
    assert_eq!(bounding_box.min, point(-5.0, 0.0, -3.0));
    assert_eq!(bounding_box.max, point(7.0, 2.0, 0.0));
}

fn check_add_one_bounding_box_to_another() {
    let mut box1 = BoundingBox::with_bounds(point(-5.0, -2.0, 0.0), point(7.0, 4.0, 4.0));
    let box2 = BoundingBox::with_bounds(point(8.0, -7.0, -2.0), point(14.0, 2.0, 8.0));
    box1.add_bounding_box(box2);
    assert_eq!(box1.min, point(-5.0, -7.0, -2.0));
    assert_eq!(box1.max, point(14.0, 4.0, 8.0));
}

fn check_if_contains_given_point() {
    let b = BoundingBox::with_bounds(point(5.0, -2.0, 0.0), point(11.0, 4.0, 7.0));
    let test_data = vec![
        ("1", point(5.0, -2.0, 0.0), true),
        ("2", point(11.0, 4.0, 7.0), true),
        ("3", point(8.0, 1.0, 3.0), true),
        ("4", point(3.0, 0.0, 3.0), false),
        ("5", point(8.0, -4.0, 3.0), false),
        ("6", point(8.0, 1.0, -1.0), false),
        ("7", point(13.0, 1.0, 3.0), false),
        ("8", point(8.0, 5.0, 3.0), false),
        ("9", point(8.0, 1.0, 8.0), false),
    ];
    for (name, p, expected) in test_data {
        assert_eq!(b.contains_point(p), expected, "Case {}", name);
    }
}

fn check_if_contains_other_box() {
    let box1 = BoundingBox::with_bounds(point(5.0, -2.0, 0.0), point(11.0, 4.0, 7.0));
    let test_data = vec![
        ("1", point(5.0, -2.0, 0.0), point(11.0, 4.0, 7.0), true),
        ("2", point(6.0, -1.0, 1.0), point(10.0, 3.0, 6.0), true),
        ("3", point(4.0, -3.0, -1.0), point(10.0, 3.0, 6.0), false),
        ("4", point(6.0, -1.0, 1.0), point(12.0, 5.0, 8.0), false),
    ];
    for (name, min, max, expected) in test_data {
        let box2 = BoundingBox::with_bounds(min, max);
        assert_eq!(box1.contains_bounding_box(box2), expected, "Case {}", name);
    }
}

#[test]
fn adding_points_to_empty_bounding_box() {
    check_adding_points_to_empty_bounding_box();
}

#[test]
fn bounding_box_adding_points_to_empty_bounding_box() {
    check_adding_points_to_empty_bounding_box();
}

#[test]
fn add_one_bounding_box_to_another() {
    check_add_one_bounding_box_to_another();
}

#[test]
fn bounding_box_add_one_bounding_box_to_another() {
    check_add_one_bounding_box_to_another();
}

#[test]
fn check_if_bounding_box_contains_given_point() {
    check_if_contains_given_point();
}

#[test]
fn bounding_box_check_if_bounding_box_contains_given_point() {
    check_if_contains_given_point();
}

#[test]
fn check_if_bounding_box_contains_other_box() {
    check_if_contains_other_box();
}

#[test]
fn bounding_box_check_if_bounding_box_contains_other_box() {
    check_if_contains_other_box();
}

#[test]
fn intersecting_ray_with_bounding_box_at_origin() {
    let b = BoundingBox::with_bounds(point(-1.0, -1.0, -1.0), point(1.0, 1.0, 1.0));
    let test_data = vec![
        ("1", point(5.0, 0.5, 0.0), (-1.0, 0.0, 0.0), true),
        ("2", point(-5.0, 0.5, 0.0), (1.0, 0.0, 0.0), true),
        ("3", point(0.5, 5.0, 0.0), (0.0, -1.0, 0.0), true),
        ("4", point(0.5, -5.0, 0.0), (0.0, 1.0, 0.0), true),
        ("5", point(0.5, 0.0, 5.0), (0.0, 0.0, -1.0), true),
        ("6", point(0.5, 0.0, -5.0), (0.0, 0.0, 1.0), true),
        ("7", point(0.0, 0.5, 0.0), (0.0, 0.0, 1.0), true),
        ("8", point(-2.0, 0.0, 0.0), (2.0, 4.0, 6.0), false),
        ("9", point(0.0, -2.0, 0.0), (6.0, 2.0, 4.0), false),
        ("10", point(0.0, 0.0, -2.0), (4.0, 6.0, 2.0), false),
        ("11", point(2.0, 0.0, 2.0), (0.0, 0.0, -1.0), false),
        ("12", point(0.0, 2.0, 2.0), (0.0, -1.0, 0.0), false),
        ("13", point(2.0, 2.0, 0.0), (-1.0, 0.0, 0.0), false),
    ];
    for (name, origin, (dx, dy, dz), expected) in test_data {
        let r = Ray::new(origin, unit_vector(dx, dy, dz));
        assert_eq!(expected, b.intersects(r), "Case {}", name);
    }
}

#[test]
fn intersecting_ray_with_bounding_box_not_at_origin() {
    let b = BoundingBox::with_bounds(point(5.0, -2.0, 0.0), point(11.0, 4.0, 7.0));
    let test_data = vec![
        ("1", point(15.0, 1.0, 2.0), (-1.0, 0.0, 0.0), true),
        ("2", point(-5.0, -1.0, 4.0), (1.0, 0.0, 0.0), true),
        ("3", point(7.0, 6.0, 5.0), (0.0, -1.0, 0.0), true),
        ("4", point(9.0, -5.0, 6.0), (0.0, 1.0, 0.0), true),
        ("5", point(8.0, 2.0, 12.0), (0.0, 0.0, -1.0), true),
        ("6", point(6.0, 0.0, -5.0), (0.0, 0.0, 1.0), true),
        ("7", point(8.0, 1.0, 3.5), (0.0, 0.0, 1.0), true),
        ("8", point(9.0, -1.0, -8.0), (2.0, 4.0, 6.0), false),
        ("9", point(8.0, 3.0, -4.0), (6.0, 2.0, 4.0), false),
        ("10", point(9.0, -1.0, -2.0), (4.0, 6.0, 2.0), false),
        ("11", point(4.0, 0.0, 9.0), (0.0, 0.0, -1.0), false),
        ("12", point(8.0, 6.0, -1.0), (0.0, -1.0, 0.0), false),
        ("13", point(12.0, 5.0, 4.0), (-1.0, 0.0, 0.0), false),
    ];
    for (name, origin, (dx, dy, dz), expected) in test_data {
        let r = Ray::new(origin, unit_vector(dx, dy, dz));
        assert_eq!(expected, b.intersects(r), "Case {}", name);
    }
}

#[test]
fn splitting_perfect_cube() {
    let b = BoundingBox::with_bounds(point(-1.0, -4.0, -5.0), point(9.0, 6.0, 5.0));
    let (left, right) = b.split();
    assert_eq!(left.min, point(-1.0, -4.0, -5.0));
    assert_eq!(left.max, point(4.0, 6.0, 5.0));
    assert_eq!(right.min, point(4.0, -4.0, -5.0));
    assert_eq!(right.max, point(9.0, 6.0, 5.0));
}

#[test]
fn splitting_x_wide_box() {
    let b = BoundingBox::with_bounds(point(-1.0, -2.0, -3.0), point(9.0, 5.5, 3.0));
    let (left, right) = b.split();
    assert_eq!(left.min, point(-1.0, -2.0, -3.0));
    assert_eq!(left.max, point(4.0, 5.5, 3.0));
    assert_eq!(right.min, point(4.0, -2.0, -3.0));
    assert_eq!(right.max, point(9.0, 5.5, 3.0));
}

#[test]
fn splitting_y_wide_box() {
    let b = BoundingBox::with_bounds(point(-1.0, -2.0, -3.0), point(5.0, 8.0, 3.0));
    let (left, right) = b.split();
    assert_eq!(left.min, point(-1.0, -2.0, -3.0));
    assert_eq!(left.max, point(5.0, 3.0, 3.0));
    assert_eq!(right.min, point(-1.0, 3.0, -3.0));
    assert_eq!(right.max, point(5.0, 8.0, 3.0));
}

#[test]
fn splitting_z_wide_box() {
    let b = BoundingBox::with_bounds(point(-1.0, -2.0, -3.0), point(5.0, 3.0, 7.0));
    let (left, right) = b.split();
    assert_eq!(left.min, point(-1.0, -2.0, -3.0));
    assert_eq!(left.max, point(5.0, 3.0, 2.0));
    assert_eq!(right.min, point(-1.0, -2.0, 2.0));
    assert_eq!(right.max, point(5.0, 3.0, 7.0));
}

#[test]
fn empty_box_holds_nothing_until_a_point_is_added() {
    let mut b = BoundingBox::empty();
    let p = point(1.5, -2.0, 3.0);
    assert!(!b.contains_point(p));
    b.add_point(p);
    assert!(b.contains_point(p));
    assert_eq!(b.min.x, b.max.x);
}

#[test]
fn split_halves_cover_the_box() {
    let b = BoundingBox::with_bounds(point(0.0, 0.0, 0.0), point(3.0, 1.0, 1.0));
    let (left, right) = b.split();
    assert!(b.contains_bounding_box(left));
    assert!(b.contains_bounding_box(right));
    for x in [0.0, 0.5, 1.5, 2.25, 3.0] {
        let p = point(x, 0.5, 0.5);
        assert!(left.contains_point(p) || right.contains_point(p));
    }
}

#[test]
fn ray_behind_box_still_meets_its_line() {
    let b = BoundingBox::with_bounds(point(-1.0, -1.0, -1.0), point(1.0, 1.0, 1.0));
    let r = Ray::new(point(0.0, 0.0, 5.0), unit_vector(0.0, 0.0, 1.0));
    assert!(b.intersects(r));
    let r = Ray::new(point(0.0, 0.0, 5.0), Tuple::vector(0, 0, 0));
    assert!(!b.intersects(r));
    let r = Ray::new(point(0.0, 0.0, 0.0), Tuple::vector(0, 0, 0));
    assert!(b.intersects(r));
}

fn rotation_x(r: f64) -> Matrix {
    Matrix {
        data: vec![
            vec![fx(1.0), 0, 0, 0],
            vec![0, fx(r.cos()), fx(-r.sin()), 0],
            vec![0, fx(r.sin()), fx(r.cos()), 0],
            vec![0, 0, 0, fx(1.0)],
        ],
    }
}

fn rotation_y(r: f64) -> Matrix {
    Matrix {
        data: vec![
            vec![fx(r.cos()), 0, fx(r.sin()), 0],
            vec![0, fx(1.0), 0, 0],
            vec![fx(-r.sin()), 0, fx(r.cos()), 0],
            vec![0, 0, 0, fx(1.0)],
        ],
    }
}

fn close(a: Tuple, b: Tuple) -> bool {
    let one = 4294967296.0;
    let eps = f32::EPSILON as f64;
    [(a.x, b.x), (a.y, b.y), (a.z, b.z), (a.w, b.w)]
        .iter()
        .all(|(p, q)| ((*p as f64 - *q as f64) / one).abs() <= eps)
}

#[test]
fn transform_bounding_box() {
    let box1 = BoundingBox::with_bounds(point(-1.0, -1.0, -1.0), point(1.0, 1.0, 1.0));
    let pi = std::f64::consts::PI;
    let matrix = rotation_x(pi / 4.).multiply(&rotation_y(pi / 4.));
    let box2 = box1.transform(&matrix);
    assert!(close(box2.min, point(-1.4142135, -1.7071067, -1.7071067)));
    assert!(close(box2.max, point(1.4142135, 1.7071067, 1.7071067)));
}

#[test]
fn transform_by_translation_moves_the_box() {
    let box1 = BoundingBox::with_bounds(point(-1.0, -1.0, -1.0), point(1.0, 2.0, 3.0));
    let m = Matrix {
        data: vec![
            vec![fx(1.0), 0, 0, fx(5.0)],
            vec![0, fx(1.0), 0, fx(-2.0)],
            vec![0, 0, fx(1.0), fx(0.5)],
            vec![0, 0, 0, fx(1.0)],
        ],
    };
    let box2 = box1.transform(&m);
    assert_eq!(box2.min, point(4.0, -3.0, -0.5));
    assert_eq!(box2.max, point(6.0, 0.0, 3.5));
}
