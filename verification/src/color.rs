//! Colors as a show writes them: `#RRGGBB` or `#RRGGBBAA`.

use crate::text::{chars_of, code_of};
use vstd::prelude::*;

verus! {

/// The value of a hexadecimal digit.
pub open spec fn hex_value(c: char) -> Option<u8> {
    let n = c as int;
    if '0' as int <= n <= '9' as int {
        Some((n - '0' as int) as u8)
    } else if 'a' as int <= n <= 'f' as int {
        Some((n - 'a' as int + 10) as u8)
    } else if 'A' as int <= n <= 'F' as int {
        Some((n - 'A' as int + 10) as u8)
    } else {
        None
    }
}

/// The byte that two hexadecimal digits write.
pub open spec fn byte_value(a: char, b: char) -> Option<u8> {
    match (hex_value(a), hex_value(b)) {
        (Some(x), Some(y)) => Some((16 * x + y) as u8),
        _ => None,
    }
}

/// The color that a text writes, as RGBA bytes.
pub open spec fn color_of(s: Seq<char>) -> Option<[u8; 4]> {
    if (s.len() == 7 || s.len() == 9) && s[0] == '#' {
        let alpha = if s.len() == 9 {
            byte_value(s[7], s[8])
        } else {
            Some(0xFFu8)
        };
        match (byte_value(s[1], s[2]), byte_value(s[3], s[4]), byte_value(s[5], s[6]), alpha) {
            (Some(r), Some(g), Some(b), Some(a)) => Some([r, g, b, a]),
            _ => None,
        }
    } else {
        None
    }
}

fn hex_digit_value(c: char) -> (r: Option<u8>)
    ensures
        r == hex_value(c),
{
    let n: u32 = code_of(c);
    if 48 <= n && n <= 57 {
        Some((n - 48) as u8)
    } else if 97 <= n && n <= 102 {
        Some((n - 87) as u8)
    } else if 65 <= n && n <= 70 {
        Some((n - 55) as u8)
    } else {
        None
    }
}

fn byte_of(a: char, b: char) -> (r: Option<u8>)
    ensures
        r == byte_value(a, b),
{
    match (hex_digit_value(a), hex_digit_value(b)) {
        (Some(x), Some(y)) => {
            assert(x < 16 && y < 16);
            Some(16 * x + y)
        },
        _ => None,
    }
}

/// Parse a `#RRGGBB` / `#RRGGBBAA` color into RGBA bytes.
pub fn parse_color(s: &str) -> (r: Option<[u8; 4]>)
    ensures
        r == color_of(s@),
{
    let c = chars_of(s);
    if (c.len() == 7 || c.len() == 9) && c[0] == '#' {
        let alpha = if c.len() == 9 {
            byte_of(c[7], c[8])
        } else {
            Some(0xFFu8)
        };
        match (byte_of(c[1], c[2]), byte_of(c[3], c[4]), byte_of(c[5], c[6]), alpha) {
            (Some(r), Some(g), Some(b), Some(a)) => Some([r, g, b, a]),
            _ => None,
        }
    } else {
        None
    }
}

/// The hexadecimal digit for a value below 16.
pub open spec fn hex_char(n: u8) -> char {
    if n < 10 {
        (n + 48) as char
    } else {
        (n + 55) as char
    }
}

/// A byte as two hexadecimal digits.
pub open spec fn hex_byte(n: u8) -> Seq<char> {
    seq![hex_char(n / 16), hex_char(n % 16)]
}

/// A color as a show writes it, without an alpha of 255.
pub open spec fn color_chars(c: [u8; 4]) -> Seq<char> {
    let rgb = seq!['#'] + hex_byte(c[0]) + hex_byte(c[1]) + hex_byte(c[2]);
    if c[3] == 255 {
        rgb
    } else {
        rgb + hex_byte(c[3])
    }
}

fn push_hex(out: &mut String, n: u8)
    ensures
        final(out)@ == old(out)@ + hex_byte(n),
{
    let ghost was = out@;
    let hi: u8 = n / 16;
    let lo: u8 = n % 16;
    out.push(
        if hi < 10 {
            (hi + 48) as char
        } else {
            (hi + 55) as char
        },
    );
    out.push(
        if lo < 10 {
            (lo + 48) as char
        } else {
            (lo + 55) as char
        },
    );
    assert(out@ =~= was + hex_byte(n));
}

/// A color as a show writes one.
pub fn color_text(c: [u8; 4]) -> (r: String)
    ensures
        r@ == color_chars(c),
{
    let mut out = String::new();
    out.push('#');
    push_hex(&mut out, c[0]);
    push_hex(&mut out, c[1]);
    push_hex(&mut out, c[2]);
    if c[3] != 255 {
        push_hex(&mut out, c[3]);
    }
    assert(out@ =~= color_chars(c));
    out
}

/// A color written out reads back as itself.
pub proof fn lemma_color_round_trip(c: [u8; 4])
    ensures
        color_of(color_chars(c)) == Some(c),
{
    let s = color_chars(c);
    lemma_hex_byte(c[0]);
    lemma_hex_byte(c[1]);
    lemma_hex_byte(c[2]);
    lemma_hex_byte(c[3]);
    assert(s[1] == hex_byte(c[0])[0] && s[2] == hex_byte(c[0])[1]);
    assert(s[3] == hex_byte(c[1])[0] && s[4] == hex_byte(c[1])[1]);
    assert(s[5] == hex_byte(c[2])[0] && s[6] == hex_byte(c[2])[1]);
    if c[3] != 255 {
        assert(s[7] == hex_byte(c[3])[0] && s[8] == hex_byte(c[3])[1]);
    }
    assert([c[0], c[1], c[2], c[3]] =~= c);
}

proof fn lemma_hex_byte(n: u8)
    ensures
        byte_value(hex_byte(n)[0], hex_byte(n)[1]) == Some(n),
{
    let hi = n / 16;
    let lo = n % 16;
    assert(hi < 16);
    assert(hex_value(hex_char(hi as u8)) == Some(hi as u8));
    assert(hex_value(hex_char(lo as u8)) == Some(lo as u8));
    assert(16 * hi + lo == n);
}

} // verus!
