//! Colours given as CSS-style hex strings.

use vstd::prelude::*;
use vstd::string::StringSliceAdditionalSpecFns;

verus! {

/// A terminal colour: 24-bit, or the plain white fallback.
#[derive(Clone, Copy, Debug, PartialEq, Eq, Structural)]
pub enum Color {
    TrueColor { r: u8, g: u8, b: u8 },
    White,
}

/// The bytes after any leading `#` characters (`trim_start_matches('#')`).
pub open spec fn strip_hashes(b: Seq<u8>) -> Seq<u8>
    decreases b.len(),
{
    if b.len() > 0 && b[0] == 35u8 {
        strip_hashes(b.drop_first())
    } else {
        b
    }
}

/// The value of an ASCII hexadecimal digit.
pub open spec fn hex_val(c: u8) -> Option<u8> {
    if 48 <= c <= 57 {
        Some((c - 48) as u8)
    } else if 97 <= c <= 102 {
        Some((c - 87) as u8)
    } else if 65 <= c <= 70 {
        Some((c - 55) as u8)
    } else {
        None
    }
}

/// The value of two hexadecimal digits, the first the more significant.
pub open spec fn radix16_pair(a: u8, b: u8) -> Option<u8> {
    match (hex_val(a), hex_val(b)) {
        (Some(x), Some(y)) => Some((16 * x + y) as u8),
        _ => None,
    }
}

/// The three components of `#RRGGBB` (or `RRGGBB`): exactly six bytes after
/// the leading `#`s, each pair a base-16 number.
pub open spec fn parse_rgb(bytes: Seq<u8>) -> Option<(u8, u8, u8)> {
    let s = strip_hashes(bytes);
    if s.len() == 6 {
        match (radix16_pair(s[0], s[1]), radix16_pair(s[2], s[3]), radix16_pair(s[4], s[5])) {
            (Some(r), Some(g), Some(b)) => Some((r, g, b)),
            _ => None,
        }
    } else {
        None
    }
}

/// The colour of a hex string: the parsed one, or white on any parse error.
pub open spec fn color_of(bytes: Seq<u8>) -> Color {
    match parse_rgb(bytes) {
        Some((r, g, b)) => Color::TrueColor { r, g, b },
        None => Color::White,
    }
}

fn hex_val_exec(c: u8) -> (r: Option<u8>)
    ensures
        r == hex_val(c),
{
    if 48 <= c && c <= 57 {
        Some(c - 48)
    } else if 97 <= c && c <= 102 {
        Some(c - 87)
    } else if 65 <= c && c <= 70 {
        Some(c - 55)
    } else {
        None
    }
}

fn radix16_pair_exec(a: u8, b: u8) -> (r: Option<u8>)
    ensures
        r == radix16_pair(a, b),
{
    match (hex_val_exec(a), hex_val_exec(b)) {
        (Some(x), Some(y)) => Some(16 * x + y),
        _ => None,
    }
}

/// Parses a CSS-style hex colour (`#RRGGBB` or `RRGGBB`); falls back to
/// white on any parse error, so callers never handle an error.
pub fn hex_to_color(hex: &str) -> (c: Color)
    ensures
        c == color_of(hex.spec_bytes()),
{
    let b = hex.as_bytes();
    let mut i: usize = 0;
    assert(b@.skip(0) =~= b@);
    while i < b.len() && b[i] == 35u8
        invariant
            i <= b.len(),
            strip_hashes(b@) == strip_hashes(b@.skip(i as int)),
        decreases b.len() - i,
    {
        assert(b@.skip(i as int).drop_first() =~= b@.skip(i + 1));
        i = i + 1;
    }
    assert(strip_hashes(b@) == b@.skip(i as int));
    if b.len() - i == 6 {
        let r = radix16_pair_exec(b[i], b[i + 1]);
        let g = radix16_pair_exec(b[i + 2], b[i + 3]);
        let bl = radix16_pair_exec(b[i + 4], b[i + 5]);
        match (r, g, bl) {
            (Some(r), Some(g), Some(bl)) => Color::TrueColor { r, g, b: bl },
            _ => Color::White,
        }
    } else {
        Color::White
    }
}

}
