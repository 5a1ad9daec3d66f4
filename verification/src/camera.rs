//! The camera: a canvas one unit in front of the eye, and the ray from the
//! eye through the center of each pixel.
use vstd::prelude::*;
use crate::fixed::{floor_div, floor_div_i128, in_range, mul_spec, ONE};
use crate::matrix::{
    det_spec, inverse_fits, inverse_matrix_spec, is_square, lemma_inverse_view, tuple_product_fits,
    tuple_product_spec, Matrix,
};
use crate::ray::Ray;
use crate::tuple::{norm_fits, sub_fits, unit_spec, Tuple};

verus! {

/// A camera looking toward -z from the origin of its own space, placed in
/// the world by `transform`. The canvas is one unit in front of the eye;
/// `half_width_world` and `half_height_world` are half of its extent and
/// `pixel_size` the side of one pixel, in world units.
#[derive(Clone, Debug)]
pub struct Camera {
    pub width_pixels: u32,
    pub height_pixels: u32,
    /// The angle the canvas spans, in radians.
    pub field_of_view: i64,
    pub half_width_world: i64,
    pub half_height_world: i64,
    pub pixel_size: i64,
    pub transform: Matrix,
}

/// Half of the canvas's width and height for a `width` by `height` image
/// whose longer side spans `half_view` on each side of the center: the
/// shorter side is scaled by the aspect ratio (rounded down).
pub open spec fn half_extents(width: int, height: int, half_view: int) -> (int, int) {
    if width >= height {
        (half_view, floor_div(half_view * height, width))
    } else {
        (floor_div(half_view * width, height), half_view)
    }
}

/// The side of one pixel: the canvas's width over the number of pixels
/// across it (rounded down).
pub open spec fn pixel_size_spec(width: int, half_width: int) -> int {
    floor_div(2 * half_width, width)
}

/// Whether a camera can be built for the given image size and half view.
pub open spec fn camera_fits(width: int, height: int, half_view: int) -> bool {
    &&& width > 0
    &&& height > 0
    &&& in_range(pixel_size_spec(width, half_extents(width, height, half_view).0))
}

/// `v * a / b` (rounded down) lies between `v` and zero when `0 < a <= b`.
proof fn lemma_scaled_within(v: int, a: int, b: int)
    requires
        0 < a <= b,
    ensures
        v >= 0 ==> 0 <= floor_div(v * a, b) <= v,
        v < 0 ==> v <= floor_div(v * a, b) <= 0,
{
    vstd::arithmetic::div_mod::lemma_div_multiples_vanish(v, b);
    vstd::arithmetic::div_mod::lemma_div_multiples_vanish(0, b);
    assert(b * v == v * b) by (nonlinear_arith);
    assert(b * 0 == 0);
    if v >= 0 {
        assert(0 <= v * a <= v * b) by (nonlinear_arith)
            requires
                0 < a <= b,
                v >= 0,
        ;
        vstd::arithmetic::div_mod::lemma_div_is_ordered(0, v * a, b);
        vstd::arithmetic::div_mod::lemma_div_is_ordered(v * a, v * b, b);
    } else {
        assert(v * b <= v * a <= 0) by (nonlinear_arith)
            requires
                0 < a <= b,
                v < 0,
        ;
        vstd::arithmetic::div_mod::lemma_div_is_ordered(v * b, v * a, b);
        vstd::arithmetic::div_mod::lemma_div_is_ordered(v * a, 0, b);
    }
}

/// `v * a / b` rounded down, computed without overflow, for `0 < a <= b`.
fn scaled(v: i64, a: u32, b: u32) -> (r: i64)
    requires
        0 < a <= b,
    ensures
        r == floor_div(v * a, b as int),
{
    proof {
        assert(-0x8000_0000_0000_0000 * 0x1_0000_0000 <= (v as int) * (a as int) <= 0x8000_0000_0000_0000
            * 0x1_0000_0000) by (nonlinear_arith)
            requires
                -0x8000_0000_0000_0000 <= v <= 0x7fff_ffff_ffff_ffff,
                0 < a < 0x1_0000_0000,
        ;
        lemma_scaled_within(v as int, a as int, b as int);
    }
    floor_div_i128((v as i128) * (a as i128), b as i128) as i64
}

/// A camera for a `width_pixels` by `height_pixels` image with the given
/// field of view. `half_view` is the tangent of half of the field of view:
/// half of the extent of the canvas, one unit in front of the eye, along
/// the longer side of the image.
pub fn build_camera(
    width_pixels: u32,
    height_pixels: u32,
    field_of_view: i64,
    half_view: i64,
    transform: Matrix,
) -> (c: Camera)
    requires
        camera_fits(width_pixels as int, height_pixels as int, half_view as int),
    ensures
        c.width_pixels == width_pixels,
        c.height_pixels == height_pixels,
        c.field_of_view == field_of_view,
        c.transform == transform,
        c.half_width_world == half_extents(width_pixels as int, height_pixels as int, half_view as int).0,
        c.half_height_world == half_extents(width_pixels as int, height_pixels as int, half_view as int).1,
        c.pixel_size == pixel_size_spec(
            width_pixels as int,
            half_extents(width_pixels as int, height_pixels as int, half_view as int).0,
        ),
{
    let half_width_world: i64;
    let half_height_world: i64;
    if width_pixels >= height_pixels {
        half_width_world = half_view;
        half_height_world = scaled(half_view, height_pixels, width_pixels);
    } else {
        half_width_world = scaled(half_view, width_pixels, height_pixels);
        half_height_world = half_view;
    }
    let pixel_size = floor_div_i128(2 * (half_width_world as i128), width_pixels as i128) as i64;
    Camera {
        width_pixels,
        height_pixels,
        field_of_view,
        half_width_world,
        half_height_world,
        pixel_size,
        transform,
    }
}

/// The camera that `build_camera` builds, or `None` when the image has no
/// pixels or its pixels' size does not fit a raw scalar (see
/// `camera_fits`).
pub fn try_build_camera(
    width_pixels: u32,
    height_pixels: u32,
    field_of_view: i64,
    half_view: i64,
    transform: Matrix,
) -> (r: Option<Camera>)
    ensures
        r is Some <==> camera_fits(width_pixels as int, height_pixels as int, half_view as int),
        r matches Some(c) ==> {
            let (hw, hh) = half_extents(width_pixels as int, height_pixels as int, half_view as int);
            &&& c.width_pixels == width_pixels
            &&& c.height_pixels == height_pixels
            &&& c.field_of_view == field_of_view
            &&& c.transform == transform
            &&& c.half_width_world == hw
            &&& c.half_height_world == hh
            &&& c.pixel_size == pixel_size_spec(width_pixels as int, hw)
        },
{
    if width_pixels == 0 || height_pixels == 0 {
        return None;
    }
    let half_width_world = if width_pixels >= height_pixels {
        half_view
    } else {
        scaled(half_view, width_pixels, height_pixels)
    };
    let size = floor_div_i128(2 * (half_width_world as i128), width_pixels as i128);
    if size < i64::MIN as i128 || size > i64::MAX as i128 {
        return None;
    }
    Some(build_camera(width_pixels, height_pixels, field_of_view, half_view, transform))
}

/// The offset from the edge of the canvas to the center of pixel `i`.
pub open spec fn pixel_offset_spec(i: int, pixel_size: int) -> int {
    mul_spec(i * ONE + ONE / 2, pixel_size)
}

/// The center of pixel `(x, y)` on the canvas, in the camera's own space:
/// the camera looks toward -z, so +x is to the left, and the canvas is at
/// `z = -1`.
pub open spec fn canvas_point(c: Camera, x: int, y: int) -> Tuple {
    Tuple {
        x: (c.half_width_world - pixel_offset_spec(x, c.pixel_size as int)) as i64,
        y: (c.half_height_world - pixel_offset_spec(y, c.pixel_size as int)) as i64,
        z: -ONE as i64,
        w: ONE,
    }
}

/// Where the camera's eye is in the world.
pub open spec fn camera_origin(c: Camera) -> Tuple {
    tuple_product_spec(inverse_matrix_spec(c.transform@), Tuple { x: 0, y: 0, z: 0, w: ONE })
}

/// Where the center of pixel `(x, y)` is in the world.
pub open spec fn camera_pixel(c: Camera, x: int, y: int) -> Tuple {
    tuple_product_spec(inverse_matrix_spec(c.transform@), canvas_point(c, x, y))
}

/// The vector from the eye to the center of pixel `(x, y)`.
pub open spec fn pixel_offset_vector(c: Camera, x: int, y: int) -> Tuple {
    let p = camera_pixel(c, x, y);
    let o = camera_origin(c);
    Tuple {
        x: (p.x - o.x) as i64,
        y: (p.y - o.y) as i64,
        z: (p.z - o.z) as i64,
        w: (p.w - o.w) as i64,
    }
}

/// The direction of the ray through pixel `(x, y)`.
pub open spec fn pixel_direction(c: Camera, x: int, y: int) -> Tuple {
    unit_spec(pixel_offset_vector(c, x, y))
}

/// Whether the ray through pixel `(x, y)` can be computed: the
/// transformation is an invertible 4 by 4 matrix, nothing overflows, the
/// eye is a point and the direction a vector.
pub open spec fn ray_for_pixel_fits(c: Camera, x: int, y: int) -> bool {
    &&& c.transform@.len() == 4
    &&& is_square(c.transform@)
    &&& inverse_fits(c.transform@)
    &&& det_spec(c.transform@) != 0
    &&& in_range(pixel_offset_spec(x, c.pixel_size as int))
    &&& in_range(pixel_offset_spec(y, c.pixel_size as int))
    &&& in_range(c.half_width_world - pixel_offset_spec(x, c.pixel_size as int))
    &&& in_range(c.half_height_world - pixel_offset_spec(y, c.pixel_size as int))
    &&& tuple_product_fits(inverse_matrix_spec(c.transform@), canvas_point(c, x, y))
    &&& tuple_product_fits(inverse_matrix_spec(c.transform@), Tuple { x: 0, y: 0, z: 0, w: ONE })
    &&& sub_fits(camera_pixel(c, x, y), camera_origin(c))
    &&& norm_fits(pixel_offset_vector(c, x, y))
    &&& camera_origin(c).is_point_spec()
    &&& pixel_direction(c, x, y).is_vector_spec()
}

/// The offset to the center of pixel `i` (see `pixel_offset_spec`), or
/// `None` when it does not fit a raw scalar.
fn checked_pixel_offset(i: u32, pixel_size: i64) -> (r: Option<i64>)
    ensures
        r is Some <==> in_range(pixel_offset_spec(i as int, pixel_size as int)),
        r matches Some(v) ==> v == pixel_offset_spec(i as int, pixel_size as int),
{
    let a: i128 = (i as i128) * (ONE as i128) + (ONE as i128) / 2;
    assert(0 <= a < 0x1_0000_0000_0000_0000);
    proof {
        assert(-0x8000_0000_0000_0000_0000_0000_0000_0000 < (a as int) * (pixel_size as int)
            < 0x8000_0000_0000_0000_0000_0000_0000_0000) by (nonlinear_arith)
            requires
                0 <= a < 0x1_0000_0000_0000_0000,
                -0x8000_0000_0000_0000 <= pixel_size <= 0x7fff_ffff_ffff_ffff,
        ;
    }
    let p = a * (pixel_size as i128);
    let q = floor_div_i128(p, ONE as i128);
    if i64::MIN as i128 <= q && q <= i64::MAX as i128 {
        Some(q as i64)
    } else {
        None
    }
}

impl Camera {
    /// The ray from the eye through the center of pixel `(x, y)`: the
    /// pixel's center on the canvas and the origin are carried into the
    /// world by the inverse of the transformation, and the direction is the
    /// normalized difference.
    pub fn ray_for_pixel(&self, x: u32, y: u32) -> (r: Ray)
        requires
            ray_for_pixel_fits(*self, x as int, y as int),
        ensures
            r.origin == camera_origin(*self),
            r.direction == pixel_direction(*self, x as int, y as int),
    {
        let x_offset = checked_pixel_offset(x, self.pixel_size).unwrap();
        let y_offset = checked_pixel_offset(y, self.pixel_size).unwrap();
        let world_x = self.half_width_world - x_offset;
        let world_y = self.half_height_world - y_offset;
        let inverse = self.transform.inverse();
        proof {
            lemma_inverse_view(inverse@, self.transform@);
        }
        let pixel = inverse.multiply_tuple(&Tuple::point(world_x, world_y, -ONE));
        let origin = inverse.multiply_tuple(&Tuple::point(0, 0, 0));
        let offset = pixel.sub(&origin);
        let direction = offset.norm();
        Ray::new(origin, direction)
    }

    /// The ray through pixel `(x, y)` (see `ray_for_pixel`), or `None` when
    /// it cannot be computed (see `ray_for_pixel_fits`).
    pub fn try_ray_for_pixel(&self, x: u32, y: u32) -> (r: Option<Ray>)
        ensures
            r is Some <==> ray_for_pixel_fits(*self, x as int, y as int),
            r matches Some(ray) ==> ray.origin == camera_origin(*self) && ray.direction
                == pixel_direction(*self, x as int, y as int),
    {
        if self.transform.data.len() != 4 {
            return None;
        }
        let inverse = match self.transform.try_inverse() {
            Some(m) => m,
            None => {
                return None;
            },
        };
        proof {
            lemma_inverse_view(inverse@, self.transform@);
        }
        let x_offset = match checked_pixel_offset(x, self.pixel_size) {
            Some(v) => v,
            None => {
                return None;
            },
        };
        let y_offset = match checked_pixel_offset(y, self.pixel_size) {
            Some(v) => v,
            None => {
                return None;
            },
        };
        let world_x = match self.half_width_world.checked_sub(x_offset) {
            Some(v) => v,
            None => {
                return None;
            },
        };
        let world_y = match self.half_height_world.checked_sub(y_offset) {
            Some(v) => v,
            None => {
                return None;
            },
        };
        let pixel = match inverse.try_multiply_tuple(&Tuple::point(world_x, world_y, -ONE)) {
            Some(t) => t,
            None => {
                return None;
            },
        };
        let origin = match inverse.try_multiply_tuple(&Tuple::point(0, 0, 0)) {
            Some(t) => t,
            None => {
                return None;
            },
        };
        if pixel.x.checked_sub(origin.x).is_none() || pixel.y.checked_sub(origin.y).is_none()
            || pixel.z.checked_sub(origin.z).is_none() || pixel.w.checked_sub(origin.w).is_none() {
            return None;
        }
        let offset = pixel.sub(&origin);
        let limit: i64 = 0x4000_0000_0000_0000;
        if !(-limit < offset.x && offset.x < limit && -limit < offset.y && offset.y < limit && -limit
            < offset.z && offset.z < limit && -limit < offset.w && offset.w < limit) {
            return None;
        }
        let direction = offset.norm();
        if !origin.is_point() || !direction.is_vector() {
            return None;
        }
        Some(self.ray_for_pixel(x, y))
    }
}

} // verus!
