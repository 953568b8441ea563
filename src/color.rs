//! RGB colours of the layout drawings, written as `#RRGGBB`.
use vstd::prelude::*;
use vstd::string::StringSliceAdditionalSpecFns;

verus! {

/// An RGB colour.
#[derive(Clone, Copy, Debug, PartialEq, Eq, Structural)]
pub struct Color(pub u8, pub u8, pub u8);

/// Value of an ASCII hexadecimal digit, either case.
pub open spec fn hex_value(b: u8) -> Option<u8> {
    if 48 <= b <= 57 {
        Some((b - 48) as u8)
    } else if 65 <= b <= 70 {
        Some((b - 55) as u8)
    } else if 97 <= b <= 102 {
        Some((b - 87) as u8)
    } else {
        None
    }
}

/// Upper-case ASCII hexadecimal digit of `v < 16`.
pub open spec fn hex_digit(v: u8) -> char {
    if v < 10 {
        (v + 48) as char
    } else {
        (v + 55) as char
    }
}

/// Value of the two hexadecimal digits at `i` and `i + 1`.
pub open spec fn hex_pair(b: Seq<u8>, i: int) -> Option<u8> {
    match (hex_value(b[i]), hex_value(b[i + 1])) {
        (Some(h), Some(l)) => Some((h * 16 + l) as u8),
        _ => None,
    }
}

/// The colour that `#RRGGBB` (the `#` optional) denotes: the six digits after
/// the optional `#` are read, anything after them is ignored.
pub open spec fn parse_spec(b: Seq<u8>) -> Option<Color> {
    let start: int = if b.len() > 0 && b[0] == 35 { 1 } else { 0 };
    if b.len() < start + 6 {
        None
    } else {
        match (hex_pair(b, start), hex_pair(b, start + 2), hex_pair(b, start + 4)) {
            (Some(r), Some(g), Some(bl)) => Some(Color(r, g, bl)),
            _ => None,
        }
    }
}

/// `#RRGGBB` with upper-case digits.
pub open spec fn hex_chars(c: Color) -> Seq<char> {
    seq![
        '#',
        hex_digit(c.0 / 16),
        hex_digit(c.0 % 16),
        hex_digit(c.1 / 16),
        hex_digit(c.1 % 16),
        hex_digit(c.2 / 16),
        hex_digit(c.2 % 16),
    ]
}

fn hex_value_exec(b: u8) -> (r: Option<u8>)
    ensures
        r == hex_value(b),
{
    if 48 <= b && b <= 57 {
        Some(b - 48)
    } else if 65 <= b && b <= 70 {
        Some(b - 55)
    } else if 97 <= b && b <= 102 {
        Some(b - 87)
    } else {
        None
    }
}

fn hex_pair_exec(b: &[u8], i: usize) -> (r: Option<u8>)
    requires
        i + 1 < b@.len(),
    ensures
        r == hex_pair(b@, i as int),
{
    match (hex_value_exec(b[i]), hex_value_exec(b[i + 1])) {
        (Some(h), Some(l)) => Some(h * 16 + l),
        _ => None,
    }
}

/// Relies on std's `{:02X}` formatting: two upper-case hexadecimal digits per
/// byte, zero-padded.
#[verifier::external_body]
fn format_hex(c: &Color) -> (r: String)
    ensures
        r@ == hex_chars(*c),
{
    format!("#{:02X}{:02X}{:02X}", c.0, c.1, c.2)
}

impl Color {
    /// Reads `#RRGGBB` or `RRGGBB`; `None` unless six hexadecimal digits
    /// follow the optional `#`.
    pub fn parse(s: &str) -> (r: Option<Color>)
        ensures
            r == parse_spec(s.spec_bytes()),
    {
        let b = s.as_bytes();
        let start: usize = if b.len() > 0 && b[0] == 35 { 1 } else { 0 };
        if b.len() < start + 6 {
            return None;
        }
        match (hex_pair_exec(b, start), hex_pair_exec(b, start + 2), hex_pair_exec(b, start + 4)) {
            (Some(r), Some(g), Some(bl)) => Some(Color(r, g, bl)),
            _ => None,
        }
    }

    /// The colour as `#RRGGBB`.
    pub fn to_hex_string(&self) -> (r: String)
        ensures
            r@ == hex_chars(*self),
    {
        format_hex(self)
    }
}

/// The channel-wise mean of two colours, rounded down.
pub fn blend_colors(color_1: Color, color_2: Color) -> (r: Color)
    ensures
        r.0 == (color_1.0 + color_2.0) / 2,
        r.1 == (color_1.1 + color_2.1) / 2,
        r.2 == (color_1.2 + color_2.2) / 2,
{
    Color(
        ((color_1.0 as u16 + color_2.0 as u16) / 2) as u8,
        ((color_1.1 as u16 + color_2.1 as u16) / 2) as u8,
        ((color_1.2 as u16 + color_2.2 as u16) / 2) as u8,
    )
}

} // verus!
