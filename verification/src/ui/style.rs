//! Colors and text styles, and the priority of styled regions.

use vstd::prelude::*;

use crate::text::{chars_of, split_at_char, starts_with};

verus! {

/// A 24-bit color.
#[derive(Debug, Clone, Copy, PartialEq, Eq, Structural)]
pub struct Color {
    pub r: u8,
    pub g: u8,
    pub b: u8,
}

/// How text is drawn: colors, and whether it is inverted, underlined or bold.
#[derive(Debug, Clone, Copy, PartialEq, Eq, Structural)]
pub struct Style {
    pub foreground_color: Option<Color>,
    pub background_color: Option<Color>,
    pub invert: bool,
    pub underlined: bool,
    pub bold: bool,
}

impl Default for Style {
    fn default() -> (r: Self)
        ensures
            r == (Style {
                foreground_color: None,
                background_color: None,
                invert: false,
                underlined: false,
                bold: false,
            }),
    {
        Style { foreground_color: None, background_color: None, invert: false, underlined: false, bold: false }
    }
}

impl Style {
    /// The style with its foreground color set to `color`.
    pub fn with_foreground_color(&self, color: Color) -> (r: Self)
        ensures
            r == (Style { foreground_color: Some(color), ..*self }),
    {
        Style { foreground_color: Some(color), ..*self }
    }
}

/// The value of a hexadecimal digit, given as an ASCII byte.
pub open spec fn hex_digit_value_spec(digit: u8) -> Option<u8> {
    if 97 <= digit <= 102 {
        Some((digit - 87) as u8)
    } else if 65 <= digit <= 70 {
        Some((digit - 55) as u8)
    } else if 48 <= digit <= 57 {
        Some((digit - 48) as u8)
    } else {
        None
    }
}

/// The value of two hexadecimal digits, the first the more significant.
pub open spec fn hex_value_spec(first: u8, second: u8) -> Option<u8> {
    match (hex_digit_value_spec(first), hex_digit_value_spec(second)) {
        (Some(h), Some(l)) => Some((h * 16 + l) as u8),
        _ => None,
    }
}

/// The color written as `#rrggbb` in the bytes `hex`.
pub open spec fn color_from_hex_spec(hex: Seq<u8>) -> Result<Color, ()> {
    if hex.len() != 7 || hex[0] != 35 {
        Err(())
    } else {
        match (hex_value_spec(hex[1], hex[2]), hex_value_spec(hex[3], hex[4]), hex_value_spec(hex[5], hex[6])) {
            (Some(r), Some(g), Some(b)) => Ok(Color { r, g, b }),
            _ => Err(()),
        }
    }
}

fn hex_digit_value(digit: u8) -> (r: Option<u8>)
    ensures
        r == hex_digit_value_spec(digit),
        r matches Some(v) ==> v < 16,
{
    if 97 <= digit && digit <= 102 {
        Some(digit - 87)
    } else if 65 <= digit && digit <= 70 {
        Some(digit - 55)
    } else if 48 <= digit && digit <= 57 {
        Some(digit - 48)
    } else {
        None
    }
}

fn hex_value(first: u8, second: u8) -> (r: Option<u8>)
    ensures
        r == hex_value_spec(first, second),
{
    let h = match hex_digit_value(first) {
        Some(h) => h,
        None => return None,
    };
    let l = match hex_digit_value(second) {
        Some(l) => l,
        None => return None,
    };
    Some(h * 16 + l)
}

impl Color {
    pub fn rgb(r: u8, g: u8, b: u8) -> (c: Color)
        ensures
            c == (Color { r, g, b }),
    {
        Self { r, g, b }
    }

    /// The color written as `#rrggbb` (see `color_from_hex_spec`).
    pub fn from_hex(hex: &str) -> (r: Result<Color, ()>)
        ensures
            r == color_from_hex_spec(vstd::utf8::encode_utf8(hex@)),
    {
        let bytes = hex.as_bytes();
        proof {
            assert(bytes@ == vstd::utf8::encode_utf8(hex@));
        }
        if bytes.len() != 7 {
            return Err(());
        }
        if bytes[0] != 35 {
            return Err(());
        }
        let r = match hex_value(bytes[1], bytes[2]) {
            Some(v) => v,
            None => return Err(()),
        };
        let g = match hex_value(bytes[3], bytes[4]) {
            Some(v) => v,
            None => return Err(()),
        };
        let b = match hex_value(bytes[5], bytes[6]) {
            Some(v) => v,
            None => return Err(()),
        };
        Ok(Color::rgb(r, g, b))
    }
}

/// The priority of styled regions that set none.
pub const DEFAULT_PRIORITY: u8 = 10;

/// `s` with every leading copy of `prefix` removed.
pub open spec fn strip_prefixes(s: Seq<char>, prefix: Seq<char>) -> Seq<char>
    decreases s.len(),
{
    if prefix.len() > 0 && prefix.len() <= s.len() && s.take(prefix.len() as int) == prefix {
        strip_prefixes(s.skip(prefix.len() as int), prefix)
    } else {
        s
    }
}

/// Whether `c` is an ASCII digit.
pub open spec fn is_digit(c: char) -> bool {
    '0' <= c <= '9'
}

/// The number written in decimal by `s`, if it is made of ASCII digits.
pub open spec fn decimal_value(s: Seq<char>) -> Option<int>
    decreases s.len(),
{
    if s.len() == 0 {
        Some(0)
    } else {
        match decimal_value(s.drop_last()) {
            None => None,
            Some(v) => if is_digit(s.last()) {
                Some(v * 10 + (s.last() as int - '0' as int))
            } else {
                None
            },
        }
    }
}

/// What `u8::from_str` gives for `s`: an optional `+` sign followed by
/// at least one ASCII digit, the number at most 255.
pub open spec fn parse_u8_spec(s: Seq<char>) -> Result<u8, ()> {
    let digits = if s.len() > 0 && s[0] == '+' {
        s.skip(1)
    } else {
        s
    };
    if digits.len() == 0 {
        Err(())
    } else {
        match decimal_value(digits) {
            Some(v) => if v <= 255 {
                Ok(v as u8)
            } else {
                Err(())
            },
            None => Err(()),
        }
    }
}

/// Reading more digits never makes the number smaller, and a non-digit
/// spoils the whole.
proof fn lemma_decimal_value_prefix(s: Seq<char>, k: int)
    requires
        0 <= k <= s.len(),
    ensures
        decimal_value(s.take(k)).is_none() ==> decimal_value(s).is_none(),
        decimal_value(s.take(k)) matches Some(a) ==> (decimal_value(s) matches Some(b) ==> a <= b),
        decimal_value(s.take(k)) matches Some(a) ==> a >= 0,
    decreases s.len() - k,
{
    if k < s.len() {
        lemma_decimal_value_prefix(s, k + 1);
        lemma_decimal_value_nonneg(s.take(k));
        let t = s.take(k + 1);
        assert(t.drop_last() =~= s.take(k));
    } else {
        assert(s.take(k) =~= s);
        lemma_decimal_value_nonneg(s);
    }
}

proof fn lemma_decimal_value_nonneg(s: Seq<char>)
    ensures
        decimal_value(s) matches Some(v) ==> v >= 0,
    decreases s.len(),
{
    if s.len() > 0 {
        lemma_decimal_value_nonneg(s.drop_last());
    }
}

/// Parses an unsigned byte as `u8::from_str` does (see `parse_u8_spec`).
pub fn parse_u8(s: &str) -> (r: Result<u8, ()>)
    ensures
        r == parse_u8_spec(s@),
{
    let chars = chars_of(s);
    let start: usize = if chars.len() > 0 && chars[0] == '+' { 1 } else { 0 };
    let ghost digits = if s@.len() > 0 && s@[0] == '+' {
        s@.skip(1)
    } else {
        s@
    };
    proof {
        if start == 0 {
            assert(s@.skip(0) =~= s@);
        }
        assert(digits =~= s@.skip(start as int));
    }
    if start >= chars.len() {
        proof {
            assert(digits.len() == 0);
        }
        return Err(());
    }
    let mut value: u32 = 0;
    let mut i: usize = start;
    proof {
        assert(digits.take(0) =~= Seq::<char>::empty());
    }
    while i < chars.len()
        invariant
            chars@ == s@,
            start <= i <= chars.len(),
            digits == s@.skip(start as int),
            digits == (if s@.len() > 0 && s@[0] == '+' {
                s@.skip(1)
            } else {
                s@
            }),
            digits.len() > 0,
            decimal_value(digits.take(i - start)) == Some(value as int),
            value <= 255,
        decreases chars.len() - i,
    {
        let c = chars[i];
        let ghost t = digits.take(i - start + 1);
        proof {
            assert(digits[i - start] == c);
            assert(t.drop_last() =~= digits.take(i - start));
            assert(t.last() == c);
        }
        if !('0' <= c && c <= '9') {
            proof {
                assert(decimal_value(t).is_none());
                lemma_decimal_value_prefix(digits, i - start + 1);
            }
            return Err(());
        }
        let d = (c as u32) - ('0' as u32);
        if value * 10 + d > 255 {
            proof {
                lemma_decimal_value_prefix(digits, i - start + 1);
            }
            return Err(());
        }
        value = value * 10 + d;
        i += 1;
    }
    proof {
        assert(digits.take(i - start) =~= digits);
    }
    Ok(value as u8)
}

/// The priority written as `priority:<number>` (leading repeats of
/// `priority:` allowed), the number parsed as a `u8`.
pub fn priority_from_str(src: &str) -> (r: Result<u8, ()>)
    ensures
        ({
            let p = "priority:"@;
            if !(p.len() <= src@.len() && src@.take(p.len() as int) == p) {
                r.is_err()
            } else {
                r == parse_u8_spec(strip_prefixes(src@, p))
            }
        }),
{
    if !starts_with(src, "priority:") {
        return Err(());
    }
    let n = chars_of("priority:").len();
    let mut rest = src;
    proof {
        reveal_strlit("priority:");
    }
    while starts_with(rest, "priority:")
        invariant
            n == "priority:"@.len(),
            n > 0,
            strip_prefixes(rest@, "priority:"@) == strip_prefixes(src@, "priority:"@),
        decreases rest@.len(),
    {
        let (_, after) = split_at_char(rest, n);
        rest = after;
    }
    parse_u8(rest)
}

} // verus!
