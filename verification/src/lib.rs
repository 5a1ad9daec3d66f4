//! A ray tracer's verified core: fixed-point tuples, colors and matrices,
//! bounding boxes, rays and triangles, patterns and texture mappings,
//! lights, the PPM image format and the OBJ model format.
pub mod fixed;
pub mod tuple;
pub mod bounding_box;
pub mod ray;
pub mod uv;
pub mod object_id;
pub mod parse_error;
pub mod text;
pub mod color;
pub mod constants;
pub mod canvas;
pub mod coordinate;
pub mod obj_parser;
pub mod matrix;
pub mod adjugate;
pub mod triangle;
pub mod intersection;
pub mod pattern;
pub mod light;
pub mod camera;
pub mod lighting;
pub mod shape;
