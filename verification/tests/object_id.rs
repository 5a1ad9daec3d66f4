use ray_tracer_challenge::object_id::{IdCounter, ObjectId};
use ray_tracer_challenge::parse_error::ParseError;

#[test]
fn ids_count_up_from_zero() {
    let mut counter = IdCounter::new();
    let a = ObjectId::new(&mut counter);
    let b = ObjectId::new(&mut counter);
    assert_eq!(a.get_id(), 0);
    assert_eq!(b.get_id(), 1);
    assert_eq!(counter.get_next_unique_shape_id(), 2);
}

#[test]
fn parse_error_keeps_its_message() {
    let e = ParseError::new("bad input");
    assert_eq!(e.description(), "bad input");
}
