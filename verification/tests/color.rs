use ray_tracer_challenge::color::Color;
use ray_tracer_challenge::constants::{black, brown, gray, white};

const ONE: f64 = 4294967296.0;

fn fx(v: f64) -> i64 {
    (v * ONE).round() as i64
}

fn color(r: f64, g: f64, b: f64) -> Color {
    Color::new(fx(r), fx(g), fx(b))
}

fn close(a: Color, b: Color) -> bool {
    let eps = f32::EPSILON as f64;
    [(a.r, b.r), (a.g, b.g), (a.b, b.b)]
        .iter()
        .all(|(p, q)| ((*p as f64 - *q as f64) / ONE).abs() <= eps)
}

fn check_adding() {
    let c1 = color(0.9, 0.6, 0.75);
    let c2 = color(0.7, 0.1, 0.25);
    assert!(close(c1.add(&c2), color(1.6, 0.7, 1.0)));
}

fn check_subtracting() {
    let c1 = color(0.9, 0.6, 0.75);
    let c2 = color(0.7, 0.1, 0.25);
    assert!(close(c1.sub(&c2), color(0.2, 0.5, 0.5)));
}

fn check_scalar() {
    let c = color(0.2, 0.3, 0.4);
    assert!(close(c.scale(fx(2.0)), c.scale(fx(2.0))));
    assert!(close(c.scale(fx(2.0)), color(0.4, 0.6, 0.8)));
}

fn check_mix() {
    let c1 = color(1.0, 0.2, 0.4);
    let c2 = color(0.9, 1.0, 0.1);
    assert!(close(c1.mix(&c2), color(0.9, 0.2, 0.04)));
}

#[test]
fn test_adding_colors() {
    check_adding();
}

#[test]
fn color_test_adding_colors() {
    check_adding();
}

#[test]
fn test_subtracting_colors() {
    check_subtracting();
}

#[test]
fn color_test_subtracting_colors() {
    check_subtracting();
}

#[test]
fn test_multiply_color_by_scalar() {
    check_scalar();
}

#[test]
fn color_test_multiply_color_by_scalar() {
    check_scalar();
}

#[test]
fn test_mix_colors_by_multiplication() {
    check_mix();
}

#[test]
fn color_test_mix_colors_by_multiplication() {
    check_mix();
}

#[test]
fn dividing_by_a_scalar() {
    assert_eq!(color(1.0, 0.5, 0.25).divide(fx(2.0)), color(0.5, 0.25, 0.125));
}

#[test]
fn named_colors() {
    assert_eq!(white(), color(1.0, 1.0, 1.0));
    assert_eq!(black(), color(0.0, 0.0, 0.0));
    assert_eq!(gray(), color(0.5, 0.5, 0.5));
    assert_eq!(brown(), color(1.0, 0.5, 0.0));
}

#[test]
fn test_parse_hex() {
    let c = Color::from_str("#0ab33f").unwrap();
    println!("{:?}", c);
    assert!(close(c, color(0.039_215_688, 0.701_960_8, 0.247_058_82)));
}

#[test]
fn parse_hex_errors_and_forms() {
    assert!(Color::from_str("#zz0000").is_err());
    assert!(Color::from_str("#00zz00").is_err());
    assert!(Color::from_str("#0000zz").is_err());
    assert!(Color::from_str("#FFffFF").unwrap() == Color::new(fx(1.0), fx(1.0), fx(1.0)));
    assert!(Color::from_str("#+f+f+f").unwrap() == Color::from_str("#0f0f0f").unwrap());
    // the first pair fails before the rest is looked at
    assert!(Color::from_str("#x1").is_err());
}
