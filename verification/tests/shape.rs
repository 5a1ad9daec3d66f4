use ray_tracer_challenge::lighting::Material;
use ray_tracer_challenge::matrix::{identity_4x4, Matrix};
use ray_tracer_challenge::object_id::IdCounter;
use ray_tracer_challenge::shape::BaseShape;

const ONE: f64 = 4294967296.0;

fn fx(v: f64) -> i64 {
    (v * ONE).round() as i64
}

fn translation(x: f64, y: f64, z: f64) -> Matrix {
    let rows = [[1., 0., 0., x], [0., 1., 0., y], [0., 0., 1., z], [0., 0., 0., 1.]];
    Matrix { data: rows.iter().map(|r| r.iter().map(|v| fx(*v)).collect()).collect() }
}

#[test]
fn shape_transformation() {
    let mut counter = IdCounter::new();
    let mut shape = BaseShape::new(&mut counter);
    assert_eq!(shape.transformation(), &identity_4x4(), "Default transform should be identity");

    shape.set_transformation(translation(2.0, 3.0, 4.0));
    assert_eq!(shape.transformation(), &translation(2.0, 3.0, 4.0), "transformation should be settable");
}

#[test]
fn shape_material() {
    let mut counter = IdCounter::new();
    let mut shape = BaseShape::new(&mut counter);
    assert_eq!(shape.material(), &Material::default(), "Default material");

    let override_material = Material { ambient: fx(1.), ..Material::default() };
    shape.set_material(override_material);
    assert_eq!(shape.material(), &override_material, "material should be settable");
}

#[test]
fn shape_casts_shadow() {
    let mut counter = IdCounter::new();
    let mut shape = BaseShape::new(&mut counter);
    assert_eq!(shape.casts_shadow(), true, "casts shadow by default");

    shape.set_casts_shadow(false);
    assert!(!shape.casts_shadow(), "casts_shadow should be settable");
}

#[test]
fn cloned_baseshapes_have_different_ids() {
    let mut counter = IdCounter::new();
    let shape1 = BaseShape::new(&mut counter);
    let shape2 = shape1.clone_with_new_id(&mut counter);
    assert_ne!(shape1.get_unique_id(), shape2.get_unique_id());
    assert_eq!(shape1.transformation(), shape2.transformation());
}

#[test]
fn setting_a_transformation_keeps_its_inverse() {
    let mut counter = IdCounter::new();
    let mut shape = BaseShape::new(&mut counter);
    shape.set_transformation(translation(2.0, 3.0, 4.0));
    assert_eq!(shape.transformation_inverse(), &translation(-2.0, -3.0, -4.0));
    assert_eq!(shape.transformation_inverse_transpose(), &translation(-2.0, -3.0, -4.0).transpose());
    assert_eq!(shape.get_unique_id(), 0);
}
