//! RGBA pixel values and hex color decoding.

use vstd::prelude::*;
use vstd::string::StringSliceAdditionalSpecFns;

verus! {

/// One RGBA pixel value, a byte per channel.
#[derive(Clone, Copy, PartialEq, Eq, Structural, Debug)]
pub struct Rgba {
    pub r: u8,
    pub g: u8,
    pub b: u8,
    pub a: u8,
}

impl Rgba {
    /// The four channel bytes of this pixel, in memory order.
    pub open spec fn byte(self, ch: int) -> u8 {
        if ch == 0 {
            self.r
        } else if ch == 1 {
            self.g
        } else if ch == 2 {
            self.b
        } else {
            self.a
        }
    }
}

/// Value of one ASCII hex digit, or `None` for any other byte.
pub open spec fn spec_hex_digit(b: u8) -> Option<u8> {
    if 48 <= b <= 57 {
        Some((b - 48) as u8)
    } else if 97 <= b <= 102 {
        Some((b - 87) as u8)
    } else if 65 <= b <= 70 {
        Some((b - 55) as u8)
    } else {
        None
    }
}

/// Byte encoded as two ASCII hex digits, high digit first.
pub open spec fn spec_hex_byte(hi: u8, lo: u8) -> Option<u8> {
    match (spec_hex_digit(hi), spec_hex_digit(lo)) {
        (Some(h), Some(l)) => Some((16 * h + l) as u8),
        _ => None,
    }
}

/// The color denoted by a `#rrggbb` string, given as its UTF-8 bytes.
///
/// The byte ahead of the six digits is not inspected and bytes past them
/// are ignored; the alpha channel is always fully opaque. `None` when the
/// string is too short or a digit position holds no hex digit.
pub open spec fn spec_hex_color(s: Seq<u8>) -> Option<Rgba> {
    if s.len() < 7 {
        None
    } else {
        match (
            spec_hex_byte(s[1], s[2]),
            spec_hex_byte(s[3], s[4]),
            spec_hex_byte(s[5], s[6]),
        ) {
            (Some(r), Some(g), Some(b)) => Some(Rgba { r, g, b, a: 255 }),
            _ => None,
        }
    }
}

/// Decodes one ASCII hex digit.
pub fn hex_digit(b: u8) -> (r: Option<u8>)
    ensures
        r == spec_hex_digit(b),
{
    if 48 <= b && b <= 57 {
        Some(b - 48)
    } else if 97 <= b && b <= 102 {
        Some(b - 87)
    } else if 65 <= b && b <= 70 {
        Some(b - 55)
    } else {
        None
    }
}

/// Decodes a `#rrggbb` color string to an opaque RGBA value.
pub fn hex_to_rgba(hex: &str) -> (r: Option<Rgba>)
    ensures
        r == spec_hex_color(hex.spec_bytes()),
{
    let b = hex.as_bytes();
    if b.len() < 7 {
        return None;
    }
    let red = hex_byte_at(b, 1);
    let green = hex_byte_at(b, 3);
    let blue = hex_byte_at(b, 5);
    match (red, green, blue) {
        (Some(r), Some(g), Some(bl)) => Some(Rgba { r, g, b: bl, a: 255 }),
        _ => None,
    }
}

/// Decodes the two hex digits at positions `i` and `i + 1`.
fn hex_byte_at(b: &[u8], i: usize) -> (r: Option<u8>)
    requires
        i + 1 < b@.len(),
    ensures
        r == spec_hex_byte(b@[i as int], b@[i + 1]),
{
    let hi = hex_digit(b[i]);
    let lo = hex_digit(b[i + 1]);
    match (hi, lo) {
        (Some(h), Some(l)) => Some(16 * h + l),
        _ => None,
    }
}

} // verus!
