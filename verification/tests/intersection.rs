use ray_tracer_challenge::intersection::Intersection;
use std::ptr;

const ONE: f64 = 4294967296.0;

fn fx(v: f64) -> i64 {
    (v * ONE).round() as i64
}

/// Stands for the shape that the intersections refer to.
#[derive(Debug, PartialEq)]
struct Sphere {
    radius: i64,
}

impl Sphere {
    fn new() -> Sphere {
        Sphere { radius: fx(1.0) }
    }
}

fn check_basic_intersection_creation() {
    let s = Sphere::new();
    let i = Intersection::new(fx(1.0), &s);
    assert_eq!(i.distance, fx(1.0));
    assert!(ptr::eq(&s, i.object));
}

#[test]
fn basic_intersection_creation() {
    check_basic_intersection_creation();
}

#[test]
fn ray_basic_intersection_creation() {
    check_basic_intersection_creation();
}

fn check_hit_all_intersections_have_positive_distance() {
    let s = Sphere::new();
    let i1 = Intersection::new(fx(1.0), &s);
    let i2 = Intersection::new(fx(2.0), &s);

    let intersections = vec![i1, i2];
    let i = Intersection::hit(&intersections).unwrap();
    assert_eq!(i, &i1);
}

#[test]
fn hit_all_intersections_have_positive_distance() {
    check_hit_all_intersections_have_positive_distance();
}

#[test]
fn ray_hit_all_intersections_have_positive_distance() {
    check_hit_all_intersections_have_positive_distance();
}

fn check_hit_some_interactions_have_negative_distance() {
    let s = Sphere::new();
    let i1 = Intersection::new(fx(-1.0), &s);
    let i2 = Intersection::new(fx(1.0), &s);
    let i3 = Intersection::new(fx(-0.5), &s);
    let interactions = vec![i1, i2, i3];
    let i = Intersection::hit(&interactions).unwrap();
    assert_eq!(&i2, i);
}

#[test]
fn hit_some_interactions_have_negative_distance() {
    check_hit_some_interactions_have_negative_distance();
}

#[test]
fn ray_hit_some_interactions_have_negative_distance() {
    check_hit_some_interactions_have_negative_distance();
}

fn check_no_hit_when_all_interactions_negative() {
    let s = Sphere::new();
    let i1 = Intersection::new(fx(-2.0), &s);
    let i2 = Intersection::new(fx(-1.0), &s);
    let i3 = Intersection::new(fx(-0.5), &s);
    let interactions = vec![i1, i2, i3];
    let i = Intersection::hit(&interactions);
    assert!(i.is_none());
}

#[test]
fn no_hit_when_all_interactions_negative() {
    check_no_hit_when_all_interactions_negative();
}

#[test]
fn ray_no_hit_when_all_interactions_negative() {
    check_no_hit_when_all_interactions_negative();
}

fn check_hit_is_lowest_nonnegative_intersection() {
    let s = Sphere::new();
    let i1 = Intersection::new(fx(5.0), &s);
    let i2 = Intersection::new(fx(7.0), &s);
    let i3 = Intersection::new(fx(-3.0), &s);
    let i4 = Intersection::new(fx(2.0), &s);
    let interactions = vec![i1, i2, i3, i4];
    let i = Intersection::hit(&interactions).unwrap();
    assert_eq!(&i4, i);
}

#[test]
fn hit_is_lowest_nonnegative_intersection() {
    check_hit_is_lowest_nonnegative_intersection();
}

#[test]
fn ray_hit_is_lowest_nonnegative_intersection() {
    check_hit_is_lowest_nonnegative_intersection();
}

#[test]
fn create_intersection_with_uv() {
    let s = Sphere::new();
    let i = Intersection::new_with_uv(fx(1.0), &s, fx(0.2), fx(0.4));
    assert_eq!(i.distance, fx(1.0));
    assert!(ptr::eq(&s, i.object));
    assert_eq!(i.u, fx(0.2));
    assert_eq!(i.v, fx(0.4));
    assert_eq!(i.object.radius, fx(1.0));
}

#[test]
fn hit_takes_the_first_of_equal_distances() {
    let a = Sphere::new();
    let b = Sphere { radius: fx(2.0) };
    let xs = vec![Intersection::new(fx(3.0), &a), Intersection::new(fx(1.0), &a), Intersection::new(fx(1.0), &b)];
    let h = Intersection::hit(&xs).unwrap();
    assert!(ptr::eq(h, &xs[1]));
    let zero = vec![Intersection::new(fx(-1.0), &a), Intersection::new(0, &b)];
    assert!(ptr::eq(Intersection::hit(&zero).unwrap(), &zero[1]));
    let empty: Vec<Intersection<&Sphere>> = Vec::new();
    assert!(Intersection::hit(&empty).is_none());
}

#[test]
fn intersection_basic_intersection_creation() {
    check_basic_intersection_creation();
}

#[test]
fn intersection_hit_all_intersections_have_positive_distance() {
    check_hit_all_intersections_have_positive_distance();
}

#[test]
fn intersection_hit_some_interactions_have_negative_distance() {
    check_hit_some_interactions_have_negative_distance();
}

#[test]
fn intersection_no_hit_when_all_interactions_negative() {
    check_no_hit_when_all_interactions_negative();
}

#[test]
fn intersection_hit_is_lowest_nonnegative_intersection() {
    check_hit_is_lowest_nonnegative_intersection();
}
