//! Colors for highlighted spans, and parsing of `#RRGGBB` hex colors.

use vstd::prelude::*;

verus! {

/// An opaque-free RGB color, one byte per channel.
#[derive(Debug, Clone, Copy, PartialEq, Eq, Structural)]
pub struct RgbColor {
    pub r: u8,
    pub g: u8,
    pub b: u8,
}

impl RgbColor {
    pub fn from_rgb(r: u8, g: u8, b: u8) -> (c: Self)
        ensures
            c == (RgbColor { r, g, b }),
    {
        RgbColor { r, g, b }
    }

    pub fn red(&self) -> (v: u8)
        ensures
            v == self.r,
    {
        self.r
    }

    pub fn green(&self) -> (v: u8)
        ensures
            v == self.g,
    {
        self.g
    }

    pub fn blue(&self) -> (v: u8)
        ensures
            v == self.b,
    {
        self.b
    }
}

/// Value of a hexadecimal digit, or -1 for any other character.
pub open spec fn hex_val(c: char) -> int {
    if '0' as u32 <= c as u32 && c as u32 <= '9' as u32 {
        c as u32 - '0' as u32
    } else if 'a' as u32 <= c as u32 && c as u32 <= 'f' as u32 {
        c as u32 - 'a' as u32 + 10
    } else if 'A' as u32 <= c as u32 && c as u32 <= 'F' as u32 {
        c as u32 - 'A' as u32 + 10
    } else {
        -1
    }
}

/// A two-character channel reading, as `u8::from_str_radix` with radix 16
/// accepts it: two hex digits, a `+` before one digit, or the corner case
/// `-0`; anything else is invalid.
pub open spec fn spec_hex_pair(c1: char, c2: char) -> Option<u8> {
    if hex_val(c1) >= 0 && hex_val(c2) >= 0 {
        Some((hex_val(c1) * 16 + hex_val(c2)) as u8)
    } else if c1 == '+' && hex_val(c2) >= 0 {
        Some(hex_val(c2) as u8)
    } else if c1 == '-' && c2 == '0' {
        Some(0u8)
    } else {
        None
    }
}

/// One channel of the parsed color: an invalid pair falls back to white's
/// channel value.
pub open spec fn spec_channel(s: Seq<char>, k: int) -> u8 {
    match spec_hex_pair(s[2 * k], s[2 * k + 1]) {
        Some(v) => v,
        None => 255u8,
    }
}

/// The color a hex string denotes: leading `#` characters are stripped, a
/// string of at least six remaining characters is read as three channel
/// pairs, and anything shorter is white.
pub open spec fn spec_parse_hex_color(s: Seq<char>) -> RgbColor {
    let t = strip_leading_hashes(s);
    if t.len() >= 6 {
        RgbColor { r: spec_channel(t, 0), g: spec_channel(t, 1), b: spec_channel(t, 2) }
    } else {
        RgbColor { r: 255u8, g: 255u8, b: 255u8 }
    }
}

/// The string with every leading `#` removed.
pub open spec fn strip_leading_hashes(s: Seq<char>) -> Seq<char>
    decreases s.len(),
{
    if s.len() > 0 && s[0] == '#' {
        strip_leading_hashes(s.drop_first())
    } else {
        s
    }
}

fn hex_digit(c: char) -> (v: i16)
    ensures
        v == hex_val(c),
{
    if c >= '0' && c <= '9' {
        (c as u32 as i16) - 48
    } else if c >= 'a' && c <= 'f' {
        (c as u32 as i16) - 97 + 10
    } else if c >= 'A' && c <= 'F' {
        (c as u32 as i16) - 65 + 10
    } else {
        -1
    }
}

fn channel_at(t: &str, k: usize) -> (v: u8)
    requires
        k <= 2,
        2 * k + 2 <= t@.len(),
    ensures
        v == spec_channel(t@, k as int),
{
    let c1 = t.get_char(2 * k);
    let c2 = t.get_char(2 * k + 1);
    let v1 = hex_digit(c1);
    let v2 = hex_digit(c2);
    if v1 >= 0 && v2 >= 0 {
        (v1 * 16 + v2) as u8
    } else if c1 == '+' && v2 >= 0 {
        v2 as u8
    } else if c1 == '-' && c2 == '0' {
        0
    } else {
        255
    }
}

/// Parse a hex color string such as `#ff0000` (with or without the leading
/// `#`); anything unreadable falls back to white.
#[verifier::loop_isolation(false)]
pub fn parse_hex_color(hex: &str) -> (r: RgbColor)
    ensures
        r == spec_parse_hex_color(hex@),
{
    let n = hex.unicode_len();
    let mut start: usize = 0;
    proof {
        assert(hex@.skip(0) =~= hex@);
    }
    while start < n && hex.get_char(start) == '#'
        invariant
            0 <= start <= n,
            n == hex@.len(),
            strip_leading_hashes(hex@) == strip_leading_hashes(hex@.skip(start as int)),
        decreases n - start,
    {
        proof {
            let t = hex@.skip(start as int);
            assert(t[0] == hex@[start as int]);
            assert(t.drop_first() =~= hex@.skip(start + 1int));
        }
        start = start + 1;
    }
    let t = hex.substring_char(start, n);
    proof {
        let u = hex@.skip(start as int);
        assert(t@ =~= u);
        if u.len() > 0 {
            assert(u[0] == hex@[start as int]);
        }
        assert(strip_leading_hashes(u) == u);
    }
    if t.unicode_len() >= 6 {
        RgbColor { r: channel_at(t, 0), g: channel_at(t, 1), b: channel_at(t, 2) }
    } else {
        RgbColor { r: 255, g: 255, b: 255 }
    }
}

/// A span of text with its display color.
#[derive(Debug, Clone)]
pub struct TextSpanModel {
    pub text: String,
    pub color: RgbColor,
}

/// Ghost form of a text span.
pub ghost struct TextSpanView {
    pub text: Seq<char>,
    pub color: RgbColor,
}

impl DeepView for TextSpanModel {
    type V = TextSpanView;

    open spec fn deep_view(&self) -> TextSpanView {
        TextSpanView { text: self.text@, color: self.color }
    }
}

impl TextSpanModel {
    /// A field-for-field copy.
    pub fn duplicate(&self) -> (r: Self)
        ensures
            r == *self,
    {
        TextSpanModel { text: self.text.clone(), color: self.color }
    }

    pub fn new(text: String, color: RgbColor) -> (r: Self)
        ensures
            r.text == text,
            r.color == color,
    {
        TextSpanModel { text, color }
    }

    /// Create a span from text and a hex color string such as `#RRGGBB`.
    pub fn from_hex(text: String, hex_color: &str) -> (r: Self)
        ensures
            r.text == text,
            r.color == spec_parse_hex_color(hex_color@),
    {
        TextSpanModel { text, color: parse_hex_color(hex_color) }
    }
}

} // verus!
