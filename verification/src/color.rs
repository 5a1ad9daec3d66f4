//! RGB colors with fixed-point channels (1.0 is full intensity).
use vstd::prelude::*;
use crate::fixed::{div_spec, in_range, mul_spec, product, quotient};
use crate::canvas::{channel, channel_spec};
use std::num::ParseIntError;
use vstd::string::StringSliceAdditionalSpecFns;
use vstd::utf8::is_char_boundary;

verus! {

#[derive(Clone, Copy, Debug, PartialEq, Eq, Structural)]
pub struct Color {
    pub r: i64,
    pub g: i64,
    pub b: i64,
}

impl Default for Color {
    fn default() -> (c: Color)
        ensures
            c == (Color { r: 0, g: 0, b: 0 }),
    {
        Color { r: 0, g: 0, b: 0 }
    }
}

impl Color {
    pub fn new(r: i64, g: i64, b: i64) -> (c: Color)
        ensures
            c == (Color { r, g, b }),
    {
        Color { r, g, b }
    }

    /// Channel-wise sum.
    pub fn add(&self, other: &Color) -> (c: Color)
        requires
            in_range(self.r + other.r),
            in_range(self.g + other.g),
            in_range(self.b + other.b),
        ensures
            c.r == self.r + other.r,
            c.g == self.g + other.g,
            c.b == self.b + other.b,
    {
        Color { r: self.r + other.r, g: self.g + other.g, b: self.b + other.b }
    }

    /// Channel-wise difference.
    pub fn sub(&self, other: &Color) -> (c: Color)
        requires
            in_range(self.r - other.r),
            in_range(self.g - other.g),
            in_range(self.b - other.b),
        ensures
            c.r == self.r - other.r,
            c.g == self.g - other.g,
            c.b == self.b - other.b,
    {
        Color { r: self.r - other.r, g: self.g - other.g, b: self.b - other.b }
    }

    /// Every channel multiplied by the scalar `s` (the same in either order).
    pub fn scale(&self, s: i64) -> (c: Color)
        requires
            in_range(mul_spec(self.r as int, s as int)),
            in_range(mul_spec(self.g as int, s as int)),
            in_range(mul_spec(self.b as int, s as int)),
        ensures
            c.r == mul_spec(self.r as int, s as int),
            c.g == mul_spec(self.g as int, s as int),
            c.b == mul_spec(self.b as int, s as int),
    {
        Color { r: product(self.r, s), g: product(self.g, s), b: product(self.b, s) }
    }

    /// Mixes two colors by multiplying them channel by channel.
    pub fn mix(&self, other: &Color) -> (c: Color)
        requires
            in_range(mul_spec(self.r as int, other.r as int)),
            in_range(mul_spec(self.g as int, other.g as int)),
            in_range(mul_spec(self.b as int, other.b as int)),
        ensures
            c.r == mul_spec(self.r as int, other.r as int),
            c.g == mul_spec(self.g as int, other.g as int),
            c.b == mul_spec(self.b as int, other.b as int),
    {
        Color {
            r: product(self.r, other.r),
            g: product(self.g, other.g),
            b: product(self.b, other.b),
        }
    }

    /// Every channel divided by the scalar `s`.
    pub fn divide(&self, s: i64) -> (c: Color)
        requires
            s != 0,
            in_range(div_spec(self.r as int, s as int)),
            in_range(div_spec(self.g as int, s as int)),
            in_range(div_spec(self.b as int, s as int)),
        ensures
            c.r == div_spec(self.r as int, s as int),
            c.g == div_spec(self.g as int, s as int),
            c.b == div_spec(self.b as int, s as int),
    {
        Color { r: quotient(self.r, s), g: quotient(self.g, s), b: quotient(self.b, s) }
    }
}

/// The value of a hexadecimal digit byte (`0`-`9`, `a`-`f`, `A`-`F`).
pub open spec fn hex_digit_value(b: u8) -> Option<int> {
    if 48 <= b <= 57 {
        Some(b - 48)
    } else if 97 <= b <= 102 {
        Some(b - 87)
    } else if 65 <= b <= 70 {
        Some(b - 55)
    } else {
        None
    }
}

/// The value of a string of hexadecimal digit bytes.
pub open spec fn hex_digits_value(bs: Seq<u8>) -> Option<int>
    decreases bs.len(),
{
    if bs.len() == 0 {
        Some(0)
    } else {
        match (hex_digits_value(bs.drop_last()), hex_digit_value(bs.last())) {
            (Some(h), Some(d)) => Some(16 * h + d),
            _ => None,
        }
    }
}

/// The value of an unsigned hexadecimal numeral: an optional `+` and one
/// or more hexadecimal digits. `None` for anything else.
pub open spec fn hex_value(bs: Seq<u8>) -> Option<int> {
    let digits = if bs.len() > 0 && bs[0] == 43 {
        bs.drop_first()
    } else {
        bs
    };
    if digits.len() == 0 {
        None
    } else {
        hex_digits_value(digits)
    }
}

/// Whether the bytes are a hexadecimal numeral whose value fits a `u8`.
pub open spec fn hex_byte_ok(bs: Seq<u8>) -> bool {
    hex_value(bs) matches Some(v) && v <= 255
}

/// `u8::from_str_radix` in base 16: `Ok` with the value exactly when the
/// string is an optional `+` followed by one or more hexadecimal digits
/// whose value fits a `u8`; an error otherwise.
#[verifier::external_body]
fn parse_hex_u8(s: &str) -> (r: Result<u8, ParseIntError>)
    ensures
        r is Ok <==> hex_byte_ok(s.spec_bytes()),
        r matches Ok(n) ==> hex_value(s.spec_bytes()) == Some(n as int),
{
    u8::from_str_radix(s, 16)
}

/// Whether bytes `a` to `e` of `b` make a string slice: both ends fall on
/// character boundaries.
pub open spec fn slice_ok(b: Seq<u8>, a: int, e: int) -> bool {
    &&& 0 <= a <= e <= b.len()
    &&& is_char_boundary(b, a)
    &&& is_char_boundary(b, e)
}

/// Whether `Color::from_str` can cut out each channel it gets to: the
/// two bytes after the `#` always, and each later pair once the pairs
/// before it were read.
pub open spec fn hex_code_sliceable(b: Seq<u8>) -> bool {
    &&& slice_ok(b, 1, 3)
    &&& hex_byte_ok(b.subrange(1, 3)) ==> slice_ok(b, 3, 5)
    &&& hex_byte_ok(b.subrange(1, 3)) && hex_byte_ok(b.subrange(3, 5)) ==> slice_ok(b, 5, 7)
}

/// The bytes from `a` to `e` of `s`, as a string slice.
fn substr(s: &str, a: usize, e: usize) -> (t: &str)
    requires
        slice_ok(s.spec_bytes(), a as int, e as int),
    ensures
        t.spec_bytes() == s.spec_bytes().subrange(a as int, e as int),
{
    let ghost b = s.spec_bytes();
    proof {
        vstd::utf8::encode_utf8_valid_utf8(s@);
        vstd::utf8::valid_utf8_split(b, e as int);
        let sub = b.subrange(0, e as int);
        if a == e {
            vstd::utf8::is_char_boundary_start_end_of_seq(sub);
        } else if a > 0 {
            vstd::utf8::is_char_boundary_iff_not_is_continuation_byte(sub, a as int);
            vstd::utf8::is_char_boundary_iff_not_is_continuation_byte(b, a as int);
        }
    }
    let (head, _) = s.split_at(e);
    let (_, t) = head.split_at(a);
    proof {
        assert(b.subrange(0, e as int).subrange(a as int, e as int) =~= b.subrange(a as int, e as int));
    }
    t
}

impl Color {
    /// Reads a color from a hex code `#rrggbb`: each pair of hexadecimal
    /// digits is a channel from 0 to 255, scaled to `[0, 1]` (see
    /// `channel_spec`). Fails as soon as a pair is not a hexadecimal
    /// numeral that fits a byte.
    pub fn from_str(hex_code: &str) -> (r: Result<Color, ParseIntError>)
        requires
            hex_code_sliceable(hex_code.spec_bytes()),
        ensures
            ({
                let b = hex_code.spec_bytes();
                &&& r is Ok <==> hex_byte_ok(b.subrange(1, 3)) && hex_byte_ok(b.subrange(3, 5))
                    && hex_byte_ok(b.subrange(5, 7))
                &&& r matches Ok(c) ==> c == (Color {
                    r: channel_spec(hex_value(b.subrange(1, 3))->0) as i64,
                    g: channel_spec(hex_value(b.subrange(3, 5))->0) as i64,
                    b: channel_spec(hex_value(b.subrange(5, 7))->0) as i64,
                })
            }),
    {
        let r = match parse_hex_u8(substr(hex_code, 1, 3)) {
            Ok(v) => v,
            Err(e) => {
                return Err(e);
            },
        };
        let g = match parse_hex_u8(substr(hex_code, 3, 5)) {
            Ok(v) => v,
            Err(e) => {
                return Err(e);
            },
        };
        let b = match parse_hex_u8(substr(hex_code, 5, 7)) {
            Ok(v) => v,
            Err(e) => {
                return Err(e);
            },
        };
        Ok(Color::new(channel(r), channel(g), channel(b)))
    }
}

} // verus!
