# ray_tracer_challenge

The core of a ray tracer, verified with Verus.

All scalars are fixed-point numbers: an `i64` raw value `v` stands for
`v / 2^32` (see `src/fixed.rs`). Sums are exact; products and quotients are
rounded towards negative infinity, and every contract says so through
`mul_spec` and `div_spec`. Arithmetic that could overflow is either ruled
out by a `requires` written over the same spec functions, or checked, with
a `try_` or `checked_` function that returns `None` exactly when it would
overflow.

- `src/` is the verified library: tuples, colors, matrices (determinants,
  inverses, and the adjugate identity that makes the inverse undo a
  product), bounding boxes, rays, triangles and smooth triangles, hits,
  patterns and texture mappings, point and area lights, materials and
  Phong lighting, the camera, what every shape keeps, the PPM image format
  and the OBJ model format.
- `tests/` exercises the library on concrete values.
- `app/` holds what the library does not: reading and writing files,
  floating-point conversions, the angular texture mappings and the sine
  pattern (trigonometry), the specular power and the tangent of the field of
  view, Halton sequences, randomly jittered area lights, and the pattern
  traits that materials hold boxed patterns by.
