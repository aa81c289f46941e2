//! Bitmap fonts (AngelCode BMFont text format) and text rasterization.
//!
//! Text is rasterized into a small RGBA bitmap, pixel for pixel from the font's page images:
//! glyphs are copied, never resampled, so small pixel fonts stay exact.

use crate::names::lookup;
use crate::sites::{as_map, lemma_lookup_push, lemma_lookup_update};
use crate::text::{
    chars_of, code_of, decimal, decimal_of, joined, owned, same_text, signed_decimal,
    signed_decimal_of, text_of,
};
use vstd::prelude::*;

verus! {

/// One glyph's placement data from the font description.
#[derive(Clone, Copy, Debug, PartialEq, Eq, Structural)]
pub struct Glyph {
    pub x: i32,
    pub y: i32,
    pub width: i32,
    pub height: i32,
    pub xoffset: i32,
    pub yoffset: i32,
    pub xadvance: i32,
    pub page: i32,
}

/// A parsed BMFont description (`.fnt`, text format). Page images are provided separately,
/// see [`BitmapFont::pages`].
#[derive(Debug, PartialEq)]
pub struct BitmapFont {
    line_height: i32,
    pages: Vec<String>,
    glyphs: Vec<(char, Glyph)>,
    kerning: Vec<((char, char), i32)>,
}

/// What a font description says.
#[verifier::ext_equal]
pub ghost struct Face {
    pub line_height: i32,
    pub pages: Seq<Seq<char>>,
    pub glyphs: Map<char, Glyph>,
    pub kerning: Map<(char, char), i32>,
}

impl View for BitmapFont {
    type V = Face;

    closed spec fn view(&self) -> Face {
        Face {
            line_height: self.line_height,
            pages: self.pages@.map_values(|s: String| s@),
            glyphs: as_map(self.glyphs@),
            kerning: as_map(self.kerning@),
        }
    }
}

/// White space as Unicode has it.
pub open spec fn white(c: char) -> bool {
    let n = c as int;
    0x09 <= n <= 0x0D || n == 0x20 || n == 0x85 || n == 0xA0 || n == 0x1680 || 0x2000 <= n
        <= 0x200A || n == 0x2028 || n == 0x2029 || n == 0x202F || n == 0x205F || n == 0x3000
}

/// `char::is_whitespace`: the characters with the Unicode property White_Space.
#[verifier::external_body]
fn is_white(c: char) -> (r: bool)
    ensures
        r == white(c),
{
    c.is_whitespace()
}

/// Whether a character is a lower case letter.
pub uninterp spec fn lower_case(c: char) -> bool;

/// `char::is_lowercase`: whether the character has the Unicode property Lowercase.
#[verifier::external_body]
pub(crate) fn is_lower_case(c: char) -> (r: bool)
    ensures
        r == lower_case(c),
{
    c.is_lowercase()
}

/// The first character of a character's upper case form.
pub uninterp spec fn upper_case(c: char) -> Option<char>;

/// `char::to_uppercase`: the first character of the Unicode upper case mapping.
#[verifier::external_body]
pub(crate) fn upper_case_of(c: char) -> (r: Option<char>)
    ensures
        r == upper_case(c),
{
    c.to_uppercase().next()
}

/// `char::from_u32`: the character of a code point, where it is one.
#[verifier::external_body]
fn character(code: u32) -> (r: Option<char>)
    ensures
        r == (if code <= 0x10FFFF && !(0xD800 <= code <= 0xDFFF) {
            Some(code as int as char)
        } else {
            None
        }),
{
    char::from_u32(code)
}

/// Where a run of characters of one kind ends: white space, or none and no equals sign.
pub open spec fn run_end(s: Seq<char>, pos: int, kind: Run) -> int
    decreases s.len() - pos,
{
    if 0 <= pos < s.len() && kind.goes_on(s[pos]) {
        run_end(s, pos + 1, kind)
    } else {
        pos
    }
}

/// A kind of run within a line of a font description.
#[derive(Clone, Copy, Debug, PartialEq, Eq, Structural)]
pub enum Run {
    /// White space.
    White,
    /// A key: up to white space or an equals sign.
    Key,
    /// A bare value: up to white space.
    Bare,
    /// A quoted value: up to the closing quote.
    Quoted,
}

impl Run {
    pub open spec fn goes_on(self, c: char) -> bool {
        match self {
            Run::White => white(c),
            Run::Key => !white(c) && c != '=',
            Run::Bare => !white(c),
            Run::Quoted => c != '"',
        }
    }

    fn continues(self, c: char) -> (r: bool)
        ensures
            r == self.goes_on(c),
    {
        match self {
            Run::White => is_white(c),
            Run::Key => !is_white(c) && c != '=',
            Run::Bare => !is_white(c),
            Run::Quoted => c != '"',
        }
    }
}

proof fn lemma_run_end(s: Seq<char>, pos: int, kind: Run)
    requires
        0 <= pos <= s.len(),
    ensures
        pos <= run_end(s, pos, kind) <= s.len(),
    decreases s.len() - pos,
{
    if pos < s.len() && kind.goes_on(s[pos]) {
        lemma_run_end(s, pos + 1, kind);
    }
}

fn find_run_end(s: &Vec<char>, pos: usize, kind: Run) -> (r: usize)
    requires
        pos <= s.len(),
    ensures
        r == run_end(s@, pos as int, kind),
        pos <= r <= s.len(),
{
    let mut at: usize = pos;
    while at < s.len() && kind.continues(s[at])
        invariant
            pos <= at <= s.len(),
            run_end(s@, pos as int, kind) == run_end(s@, at as int, kind),
        decreases s.len() - at,
    {
        at = at + 1;
    }
    at
}

/// The value behind a key that ends at `end`: its bounds, and where to go on.
pub open spec fn value_bounds(s: Seq<char>, end: int) -> (int, int, int) {
    if end < s.len() && s[end] == '=' {
        if end + 1 < s.len() && s[end + 1] == '"' {
            let close = run_end(s, end + 2, Run::Quoted);
            (
                end + 2,
                close,
                if close < s.len() {
                    close + 1
                } else {
                    close
                },
            )
        } else {
            let close = run_end(s, end + 1, Run::Bare);
            (end + 1, close, close)
        }
    } else {
        (end, end, end)
    }
}

/// A key starts a comment.
pub open spec fn comments(s: Seq<char>, from: int, to: int) -> bool {
    to - from >= 2 && s[from] == '/' && s[from + 1] == '/'
}

/// The pairs of a line from `pos` on.
pub open spec fn pairs_from(s: Seq<char>, pos: int) -> Seq<(Seq<char>, Seq<char>)>
    decreases s.len() - pos,
{
    if pos < 0 || pos >= s.len() {
        Seq::empty()
    } else {
        let key = run_end(s, pos, Run::White);
        let end = run_end(s, key, Run::Key);
        let (from, to, next) = value_bounds(s, end);
        if comments(s, key, end) {
            Seq::empty()
        } else {
            let rest = if pos < next <= s.len() {
                pairs_from(s, next)
            } else {
                Seq::empty()
            };
            if key < end {
                seq![(s.subrange(key, end), s.subrange(from, to))] + rest
            } else {
                rest
            }
        }
    }
}

/// A line without the white space at its end.
pub open spec fn trimmed(line: Seq<char>) -> Seq<char>
    decreases line.len(),
{
    if line.len() > 0 && white(line.last()) {
        trimmed(line.drop_last())
    } else {
        line
    }
}

/// The `(key, value)` pairs of a line, the first being the tag.
pub open spec fn pairs_of(line: Seq<char>) -> Seq<(Seq<char>, Seq<char>)> {
    pairs_from(trimmed(line), 0)
}

pub open spec fn pair_views(list: Seq<(String, String)>) -> Seq<(Seq<char>, Seq<char>)> {
    list.map_values(|p: (String, String)| (p.0@, p.1@))
}

/// Split a BMFont line into `(key, value)` pairs, the first being the tag (with an empty
/// value). Values may be quoted; `//` starts a comment.
pub fn tokenize(line: &str) -> (r: Vec<(String, String)>)
    ensures
        pair_views(r@) == pairs_of(line@),
{
    tokenize_chars(&chars_of(line))
}

fn tokenize_chars(line: &Vec<char>) -> (r: Vec<(String, String)>)
    ensures
        pair_views(r@) == pairs_of(line@),
{
    let mut end: usize = line.len();
    assert(line@.take(end as int) =~= line@);
    while end > 0 && is_white(line[end - 1])
        invariant
            end <= line.len(),
            trimmed(line@) == trimmed(line@.take(end as int)),
        decreases end,
    {
        assert(line@.take(end as int).drop_last() =~= line@.take(end as int - 1));
        end = end - 1;
    }
    let s = part(line, 0, end);
    assert(s@ =~= line@.take(end as int));
    assert(trimmed(line@) == s@);
    tokenize_trimmed(&s)
}

fn tokenize_trimmed(s: &Vec<char>) -> (r: Vec<(String, String)>)
    ensures
        pair_views(r@) == pairs_from(s@, 0),
{
    let mut out: Vec<(String, String)> = Vec::new();
    let mut pos: usize = 0;
    let ghost all = pairs_from(s@, 0);
    assert(pair_views(out@) + pairs_from(s@, 0) =~= all);
    while pos < s.len()
        invariant
            pos <= s.len(),
            all == pairs_from(s@, 0),
            pair_views(out@) + pairs_from(s@, pos as int) == all,
        decreases s.len() - pos,
    {
        let key: usize = find_run_end(s, pos, Run::White);
        let end: usize = find_run_end(s, key, Run::Key);
        let (from, to, next): (usize, usize, usize) = if end < s.len() && s[end] == '=' {
            if end + 1 < s.len() && s[end + 1] == '"' {
                let close: usize = find_run_end(s, end + 2, Run::Quoted);
                (
                    end + 2,
                    close,
                    if close < s.len() {
                        close + 1
                    } else {
                        close
                    },
                )
            } else {
                let close: usize = find_run_end(s, end + 1, Run::Bare);
                (end + 1, close, close)
            }
        } else {
            (end, end, end)
        };
        if end - key >= 2 && s[key] == '/' && s[key + 1] == '/' {
            assert(pair_views(out@) + Seq::<(Seq<char>, Seq<char>)>::empty() =~= pair_views(out@));
            return out;
        }
        proof {
            // something is always taken: white space, a key, or an equals sign
            if white(s@[pos as int]) {
                lemma_run_end(s@, pos + 1, Run::White);
            } else if s@[pos as int] != '=' {
                lemma_run_end(s@, pos + 1, Run::Key);
            }
            assert(pos < next);
        }
        let ghost before = pair_views(out@);
        if key < end {
            out.push((text_of(s.as_slice(), key, end), text_of(s.as_slice(), from, to)));
            proof {
                let pair = (
                    s@.subrange(key as int, end as int),
                    s@.subrange(from as int, to as int),
                );
                assert(pair_views(out@) =~= before.push(pair));
                assert(before.push(pair) + pairs_from(s@, next as int) =~= before + (seq![pair]
                    + pairs_from(s@, next as int)));
            }
        }
        pos = next;
    }
    assert(pair_views(out@) + Seq::<(Seq<char>, Seq<char>)>::empty() =~= pair_views(out@));
    out
}

/// The value of a key among the pairs behind the tag; of several the last counts.
pub open spec fn field(pairs: Seq<(Seq<char>, Seq<char>)>, key: Seq<char>, n: nat) -> Option<
    Seq<char>,
>
    decreases n,
{
    if n <= 1 || n > pairs.len() {
        None
    } else if pairs[n - 1].0 == key {
        Some(pairs[n - 1].1)
    } else {
        field(pairs, key, (n - 1) as nat)
    }
}

fn field_of<'a>(pairs: &'a Vec<(String, String)>, key: &str) -> (r: Option<&'a String>)
    ensures
        match r {
            Some(v) => field(pair_views(pairs@), key@, pairs@.len()) == Some(v@),
            None => field(pair_views(pairs@), key@, pairs@.len()) is None,
        },
{
    let ghost all = pair_views(pairs@);
    let mut n: usize = pairs.len();
    while n > 1
        invariant
            n <= pairs.len(),
            all == pair_views(pairs@),
            field(all, key@, pairs@.len()) == field(all, key@, n as nat),
        decreases n,
    {
        assert(all[n - 1] == (pairs@[n - 1].0@, pairs@[n - 1].1@));
        if same_text(pairs[n - 1].0.as_str(), key) {
            return Some(&pairs[n - 1].1);
        }
        n = n - 1;
    }
    None
}

/// The value of a decimal digit.
pub open spec fn digit_value(c: char) -> Option<int> {
    if '0' as int <= c as int <= '9' as int {
        Some(c as int - '0' as int)
    } else {
        None
    }
}

/// A whole number read digit by digit, `acc` so far.
pub open spec fn int_from(s: Seq<char>, i: int, neg: bool, acc: int) -> Result<int, Seq<char>>
    decreases s.len() - i,
{
    if i < 0 || i >= s.len() {
        Ok(acc)
    } else {
        match digit_value(s[i]) {
            None => Err("invalid digit found in string"@),
            Some(d) => {
                let next = if neg {
                    10 * acc - d
                } else {
                    10 * acc + d
                };
                if next > i32::MAX {
                    Err("number too large to fit in target type"@)
                } else if next < i32::MIN {
                    Err("number too small to fit in target type"@)
                } else {
                    int_from(s, i + 1, neg, next)
                }
            },
        }
    }
}

/// A whole number as a text writes it, within 32 bits.
pub open spec fn int_of(s: Seq<char>) -> Result<int, Seq<char>> {
    if s.len() == 0 {
        Err("cannot parse integer from empty string"@)
    } else if s[0] == '+' || s[0] == '-' {
        if s.len() == 1 {
            Err("invalid digit found in string"@)
        } else {
            int_from(s, 1, s[0] == '-', 0)
        }
    } else {
        int_from(s, 0, false, 0)
    }
}

fn parse_int(text: &str) -> (r: Result<i32, String>)
    ensures
        match (r, int_of(text@)) {
            (Ok(n), Ok(m)) => n == m,
            (Err(e), Err(problem)) => e@ == problem,
            _ => false,
        },
{
    let s = chars_of(text);
    if s.len() == 0 {
        return Err(owned("cannot parse integer from empty string"));
    }
    let signed = s[0] == '+' || s[0] == '-';
    let neg = s[0] == '-';
    if signed && s.len() == 1 {
        return Err(owned("invalid digit found in string"));
    }
    let mut i: usize = if signed {
        1
    } else {
        0
    };
    let mut acc: i64 = 0;
    while i < s.len()
        invariant
            i <= s.len(),
            s@ == text@,
            i32::MIN <= acc <= i32::MAX,
            int_of(text@) == int_from(s@, i as int, neg, acc as int),
        decreases s.len() - i,
    {
        let c: u32 = code_of(s[i]);
        if c < 48 || c > 57 {
            return Err(owned("invalid digit found in string"));
        }
        let d: i64 = (c - 48) as i64;
        let next: i64 = if neg {
            10 * acc - d
        } else {
            10 * acc + d
        };
        if next > i32::MAX as i64 {
            return Err(owned("number too large to fit in target type"));
        }
        if next < i32::MIN as i64 {
            return Err(owned("number too small to fit in target type"));
        }
        acc = next;
        i = i + 1;
    }
    Ok(acc as i32)
}

/// A message about a line, counted from 1.
pub open spec fn line_text(n: nat) -> Seq<char> {
    "line "@ + decimal(n) + ": "@
}

fn line_message(n: usize, what: &str) -> (r: String)
    requires
        n < usize::MAX,
    ensures
        r@ == line_text((n + 1) as nat) + what@,
{
    let mut out = joined("line ", decimal_of((n + 1) as u64).as_str());
    out.append(": ");
    out.append(what);
    out
}

/// A whole number field of line `n` (counted from 0).
pub open spec fn int_field(pairs: Seq<(Seq<char>, Seq<char>)>, key: Seq<char>, n: nat) -> Result<
    int,
    Seq<char>,
> {
    match field(pairs, key, pairs.len()) {
        None => Err(line_text(n + 1) + ("missing "@ + key)),
        Some(text) => match int_of(text) {
            Ok(v) => Ok(v),
            Err(e) => Err(line_text(n + 1) + (key + ": "@ + e)),
        },
    }
}

fn int_field_of(pairs: &Vec<(String, String)>, key: &str, n: usize) -> (r: Result<i32, String>)
    requires
        n < usize::MAX,
    ensures
        match (r, int_field(pair_views(pairs@), key@, n as nat)) {
            (Ok(v), Ok(m)) => v == m,
            (Err(e), Err(problem)) => e@ == problem,
            _ => false,
        },
{
    match field_of(pairs, key) {
        None => Err(line_message(n, joined("missing ", key).as_str())),
        Some(text) => match parse_int(text.as_str()) {
            Ok(v) => Ok(v),
            Err(e) => {
                let mut what = joined(key, ": ");
                what.append(e.as_str());
                Err(line_message(n, what.as_str()))
            },
        },
    }
}

/// The character of a code.
pub open spec fn char_of(code: int, n: nat) -> Result<char, Seq<char>> {
    if 0 <= code <= 0x10FFFF && !(0xD800 <= code <= 0xDFFF) {
        Ok(code as char)
    } else {
        Err(line_text(n + 1) + ("invalid character code "@ + signed_decimal(code)))
    }
}

fn character_of(code: i32, n: usize) -> (r: Result<char, String>)
    requires
        n < usize::MAX,
    ensures
        match (r, char_of(code as int, n as nat)) {
            (Ok(c), Ok(m)) => c == m,
            (Err(e), Err(problem)) => e@ == problem,
            _ => false,
        },
{
    if code >= 0 {
        if let Some(c) = character(code as u32) {
            return Ok(c);
        }
    }
    Err(
        line_message(
            n,
            joined("invalid character code ", signed_decimal_of(code as i64).as_str()).as_str(),
        ),
    )
}

/// What was read of a font description so far.
#[verifier::ext_equal]
pub ghost struct Draft {
    pub line_height: Option<i32>,
    pub pages: Seq<(i32, Seq<char>)>,
    pub glyphs: Map<char, Glyph>,
    pub kerning: Map<(char, char), i32>,
}

/// A glyph's fields.
pub open spec fn glyph_of(pairs: Seq<(Seq<char>, Seq<char>)>, n: nat) -> Result<Glyph, Seq<char>> {
    match int_field(pairs, "x"@, n) {
        Err(e) => Err(e),
        Ok(x) => match int_field(pairs, "y"@, n) {
            Err(e) => Err(e),
            Ok(y) => match int_field(pairs, "width"@, n) {
                Err(e) => Err(e),
                Ok(width) => match int_field(pairs, "height"@, n) {
                    Err(e) => Err(e),
                    Ok(height) => match int_field(pairs, "xoffset"@, n) {
                        Err(e) => Err(e),
                        Ok(xoffset) => match int_field(pairs, "yoffset"@, n) {
                            Err(e) => Err(e),
                            Ok(yoffset) => match int_field(pairs, "xadvance"@, n) {
                                Err(e) => Err(e),
                                Ok(xadvance) => Ok(
                                    Glyph {
                                        x: x as i32,
                                        y: y as i32,
                                        width: width as i32,
                                        height: height as i32,
                                        xoffset: xoffset as i32,
                                        yoffset: yoffset as i32,
                                        xadvance: xadvance as i32,
                                        page: match int_field(pairs, "page"@, n) {
                                            Ok(p) => p as i32,
                                            Err(_) => 0,
                                        },
                                    },
                                ),
                            },
                        },
                    },
                },
            },
        },
    }
}

fn parse_glyph(pairs: &Vec<(String, String)>, n: usize) -> (r: Result<Glyph, String>)
    requires
        n < usize::MAX,
    ensures
        match (r, glyph_of(pair_views(pairs@), n as nat)) {
            (Ok(g), Ok(m)) => g == m,
            (Err(e), Err(problem)) => e@ == problem,
            _ => false,
        },
{
    match int_field_of(pairs, "x", n) {
        Err(e) => Err(e),
        Ok(x) => match int_field_of(pairs, "y", n) {
            Err(e) => Err(e),
            Ok(y) => match int_field_of(pairs, "width", n) {
                Err(e) => Err(e),
                Ok(width) => match int_field_of(pairs, "height", n) {
                    Err(e) => Err(e),
                    Ok(height) => match int_field_of(pairs, "xoffset", n) {
                        Err(e) => Err(e),
                        Ok(xoffset) => match int_field_of(pairs, "yoffset", n) {
                            Err(e) => Err(e),
                            Ok(yoffset) => match int_field_of(pairs, "xadvance", n) {
                                Err(e) => Err(e),
                                Ok(xadvance) => {
                                    let page: i32 = match int_field_of(pairs, "page", n) {
                                        Ok(p) => p,
                                        Err(_) => 0,
                                    };
                                    Ok(
                                        Glyph {
                                            x,
                                            y,
                                            width,
                                            height,
                                            xoffset,
                                            yoffset,
                                            xadvance,
                                            page,
                                        },
                                    )
                                },
                            },
                        },
                    },
                },
            },
        },
    }
}

/// What line `n` (counted from 0) adds to a draft.
#[verifier::opaque]
pub open spec fn line_read(d: Draft, line: Seq<char>, n: nat) -> Result<Draft, Seq<char>> {
    let pairs = pairs_of(line);
    if pairs.len() == 0 {
        Ok(d)
    } else {
        let tag = pairs[0].0;
        if tag == "common"@ {
            match int_field(pairs, "lineHeight"@, n) {
                Err(e) => Err(e),
                Ok(h) => Ok(Draft { line_height: Some(h as i32), ..d }),
            }
        } else if tag == "page"@ {
            match field(pairs, "file"@, pairs.len()) {
                None => Err(line_text(n + 1) + "page without file"@),
                Some(file) => match int_field(pairs, "id"@, n) {
                    Err(e) => Err(e),
                    Ok(id) => Ok(Draft { pages: d.pages.push((id as i32, file)), ..d }),
                },
            }
        } else if tag == "char"@ {
            match glyph_of(pairs, n) {
                Err(e) => Err(e),
                Ok(glyph) => match int_field(pairs, "id"@, n) {
                    Err(e) => Err(e),
                    Ok(code) => match char_of(code, n) {
                        Err(e) => Err(e),
                        Ok(c) => Ok(Draft { glyphs: d.glyphs.insert(c, glyph), ..d }),
                    },
                },
            }
        } else if tag == "kerning"@ {
            match int_field(pairs, "first"@, n) {
                Err(e) => Err(e),
                Ok(a) => match char_of(a, n) {
                    Err(e) => Err(e),
                    Ok(first) => match int_field(pairs, "second"@, n) {
                        Err(e) => Err(e),
                        Ok(b) => match char_of(b, n) {
                            Err(e) => Err(e),
                            Ok(second) => match int_field(pairs, "amount"@, n) {
                                Err(e) => Err(e),
                                Ok(amount) => Ok(
                                    Draft {
                                        kerning: d.kerning.insert(
                                            (first, second),
                                            amount as i32,
                                        ),
                                        ..d
                                    },
                                ),
                            },
                        },
                    },
                },
            }
        } else {
            Ok(d)
        }
    }
}

/// The lines of a text.
pub open spec fn lines_from(s: Seq<char>, start: int, pos: int) -> Seq<Seq<char>>
    decreases s.len() - pos,
{
    if pos < 0 || pos >= s.len() {
        seq![s.subrange(start, s.len() as int)]
    } else if s[pos] == '\n' {
        seq![s.subrange(start, pos)] + lines_from(s, pos + 1, pos + 1)
    } else {
        lines_from(s, start, pos + 1)
    }
}

/// A text split at its line feeds.
pub open spec fn split(s: Seq<char>) -> Seq<Seq<char>> {
    lines_from(s, 0, 0)
}

pub open spec fn line_views(list: Seq<Vec<char>>) -> Seq<Seq<char>> {
    list.map_values(|v: Vec<char>| v@)
}

pub(crate) fn part(s: &Vec<char>, from: usize, to: usize) -> (r: Vec<char>)
    requires
        from <= to <= s.len(),
    ensures
        r@ == s@.subrange(from as int, to as int),
{
    let mut out: Vec<char> = Vec::new();
    let mut i: usize = from;
    assert(out@ =~= s@.subrange(from as int, from as int));
    while i < to
        invariant
            from <= i <= to <= s.len(),
            out@ == s@.subrange(from as int, i as int),
        decreases to - i,
    {
        out.push(s[i]);
        i = i + 1;
        assert(out@ =~= s@.subrange(from as int, i as int));
    }
    out
}

pub(crate) fn split_text(text: &str) -> (r: Vec<Vec<char>>)
    ensures
        line_views(r@) == split(text@),
        r@.len() > 0,
{
    let s = chars_of(text);
    let mut out: Vec<Vec<char>> = Vec::new();
    let mut start: usize = 0;
    let mut pos: usize = 0;
    let ghost all = split(text@);
    assert(line_views(out@) + lines_from(s@, 0, 0) =~= all);
    while pos < s.len()
        invariant
            start <= pos <= s.len(),
            s@ == text@,
            all == split(text@),
            line_views(out@) + lines_from(s@, start as int, pos as int) == all,
        decreases s.len() - pos,
    {
        if s[pos] == '\n' {
            let line = part(&s, start, pos);
            let ghost before = line_views(out@);
            let ghost rest = lines_from(s@, pos as int + 1, pos as int + 1);
            out.push(line);
            assert(line_views(out@) =~= before.push(line@));
            assert(before.push(line@) + rest =~= before + (seq![line@] + rest));
            start = pos + 1;
        }
        pos = pos + 1;
    }
    let line = part(&s, start, s.len());
    let ghost before = line_views(out@);
    out.push(line);
    assert(line_views(out@) =~= before.push(line@));
    assert(before.push(line@) =~= before + seq![line@]);
    out
}

/// The first `n` lines read into a draft.
pub open spec fn lines_read(lines: Seq<Seq<char>>, n: nat) -> Result<Draft, Seq<char>>
    decreases n,
{
    if n == 0 || n > lines.len() {
        Ok(
            Draft {
                line_height: None,
                pages: Seq::empty(),
                glyphs: Map::empty(),
                kerning: Map::empty(),
            },
        )
    } else {
        match lines_read(lines, (n - 1) as nat) {
            Err(e) => Err(e),
            Ok(d) => line_read(d, lines[n - 1], (n - 1) as nat),
        }
    }
}

pub open spec fn has_id(id: int) -> spec_fn((i32, Seq<char>)) -> bool {
    |p: (i32, Seq<char>)| p.0 == id
}

/// The file of the page with an id.
pub open spec fn page_file(pages: Seq<(i32, Seq<char>)>, id: int) -> Option<Seq<char>> {
    match crate::lists::first_where(pages, has_id(id), 0) {
        Some(i) => Some(pages[i].1),
        None => None,
    }
}

/// Every id from 0 on has a page.
pub open spec fn numbered(pages: Seq<(i32, Seq<char>)>) -> bool {
    forall|id: int| 0 <= id < pages.len() ==> (#[trigger] page_file(pages, id)) is Some
}

/// What a font description says, or what is wrong with it.
pub open spec fn font_of(fnt: Seq<char>) -> Result<Face, Seq<char>> {
    let lines = split(fnt);
    match lines_read(lines, lines.len()) {
        Err(e) => Err(e),
        Ok(d) => if !numbered(d.pages) {
            Err("page ids are not 0..n"@)
        } else {
            match d.line_height {
                None => Err("missing common lineHeight"@),
                Some(line_height) => Ok(
                    Face {
                        line_height,
                        pages: Seq::new(
                            d.pages.len(),
                            |id: int| page_file(d.pages, id)->0,
                        ),
                        glyphs: d.glyphs,
                        kerning: d.kerning,
                    },
                ),
            }
        },
    }
}

/// What a parser has read so far.
struct Reading {
    line_height: Option<i32>,
    pages: Vec<(i32, String)>,
    glyphs: Vec<(char, Glyph)>,
    kerning: Vec<((char, char), i32)>,
}

pub open spec fn page_views(list: Seq<(i32, String)>) -> Seq<(i32, Seq<char>)> {
    list.map_values(|p: (i32, String)| (p.0, p.1@))
}

impl View for Reading {
    type V = Draft;

    closed spec fn view(&self) -> Draft {
        Draft {
            line_height: self.line_height,
            pages: page_views(self.pages@),
            glyphs: as_map(self.glyphs@),
            kerning: as_map(self.kerning@),
        }
    }
}

fn put_glyph(list: &mut Vec<(char, Glyph)>, c: char, glyph: Glyph)
    ensures
        as_map(final(list)@) == as_map(old(list)@).insert(c, glyph),
{
    let ghost was = list@;
    let mut i: usize = 0;
    while i < list.len() && list[i].0 != c
        invariant
            i <= list.len(),
            list@ == was,
            forall|j: int| 0 <= j < i ==> #[trigger] was[j].0 != c,
        decreases list.len() - i,
    {
        i = i + 1;
    }
    if i < list.len() {
        list.set(i, (c, glyph));
        proof {
            assert forall|k: char| lookup(list@, k) == (if k == c {
                Some(glyph)
            } else {
                lookup(was, k)
            }) by {
                lemma_lookup_update(was, i as int, glyph, k);
            }
        }
    } else {
        list.push((c, glyph));
        proof {
            crate::names::lemma_lookup_skip(was, c, was.len());
            assert(was.skip(was.len() as int).len() == 0);
            assert forall|k: char| lookup(list@, k) == (if k == c {
                Some(glyph)
            } else {
                lookup(was, k)
            }) by {
                lemma_lookup_push(was, c, glyph, k);
            }
        }
    }
    assert(as_map(list@) =~= as_map(was).insert(c, glyph));
}

fn put_kerning(list: &mut Vec<((char, char), i32)>, pair: (char, char), amount: i32)
    ensures
        as_map(final(list)@) == as_map(old(list)@).insert(pair, amount),
{
    let ghost was = list@;
    let mut i: usize = 0;
    while i < list.len() && !(list[i].0.0 == pair.0 && list[i].0.1 == pair.1)
        invariant
            i <= list.len(),
            list@ == was,
            forall|j: int| 0 <= j < i ==> #[trigger] was[j].0 != pair,
        decreases list.len() - i,
    {
        i = i + 1;
    }
    if i < list.len() {
        list.set(i, (pair, amount));
        proof {
            assert forall|k: (char, char)| lookup(list@, k) == (if k == pair {
                Some(amount)
            } else {
                lookup(was, k)
            }) by {
                lemma_lookup_update(was, i as int, amount, k);
            }
        }
    } else {
        list.push((pair, amount));
        proof {
            crate::names::lemma_lookup_skip(was, pair, was.len());
            assert(was.skip(was.len() as int).len() == 0);
            assert forall|k: (char, char)| lookup(list@, k) == (if k == pair {
                Some(amount)
            } else {
                lookup(was, k)
            }) by {
                lemma_lookup_push(was, pair, amount, k);
            }
        }
    }
    assert(as_map(list@) =~= as_map(was).insert(pair, amount));
}

impl Reading {
    fn read_line(&mut self, line: &Vec<char>, n: usize) -> (r: Result<(), String>)
        requires
            n < usize::MAX,
        ensures
            match (r, line_read(old(self)@, line@, n as nat)) {
                (Ok(()), Ok(d)) => final(self)@ == d,
                (Err(e), Err(problem)) => e@ == problem,
                _ => false,
            },
    {
        proof {
            reveal(line_read);
        }
        let pairs = tokenize_chars(line);
        let ghost views = pair_views(pairs@);
        if pairs.len() == 0 {
            return Ok(());
        }
        assert(views[0] == (pairs@[0].0@, pairs@[0].1@));
        let tag = pairs[0].0.as_str();
        let ghost was = self@;
        if same_text(tag, "common") {
            match int_field_of(&pairs, "lineHeight", n) {
                Err(e) => Err(e),
                Ok(h) => {
                    self.line_height = Some(h);
                    Ok(())
                },
            }
        } else if same_text(tag, "page") {
            match field_of(&pairs, "file") {
                None => Err(line_message(n, "page without file")),
                Some(file) => match int_field_of(&pairs, "id", n) {
                    Err(e) => Err(e),
                    Ok(id) => {
                        self.pages.push((id, file.clone()));
                        assert(page_views(self.pages@) =~= was.pages.push((id, file@)));
                        Ok(())
                    },
                },
            }
        } else if same_text(tag, "char") {
            match parse_glyph(&pairs, n) {
                Err(e) => Err(e),
                Ok(glyph) => match int_field_of(&pairs, "id", n) {
                    Err(e) => Err(e),
                    Ok(code) => match character_of(code, n) {
                        Err(e) => Err(e),
                        Ok(c) => {
                            put_glyph(&mut self.glyphs, c, glyph);
                            Ok(())
                        },
                    },
                },
            }
        } else if same_text(tag, "kerning") {
            match int_field_of(&pairs, "first", n) {
                Err(e) => Err(e),
                Ok(a) => match character_of(a, n) {
                    Err(e) => Err(e),
                    Ok(first) => match int_field_of(&pairs, "second", n) {
                        Err(e) => Err(e),
                        Ok(b) => match character_of(b, n) {
                            Err(e) => Err(e),
                            Ok(second) => match int_field_of(&pairs, "amount", n) {
                                Err(e) => Err(e),
                                Ok(amount) => {
                                    put_kerning(&mut self.kerning, (first, second), amount);
                                    Ok(())
                                },
                            },
                        },
                    },
                },
            }
        } else {
            Ok(())
        }
    }
}

fn find_page<'a>(pages: &'a Vec<(i32, String)>, id: usize) -> (r: Option<&'a String>)
    ensures
        match r {
            Some(file) => page_file(page_views(pages@), id as int) == Some(file@),
            None => page_file(page_views(pages@), id as int) is None,
        },
{
    let ghost all = page_views(pages@);
    let ghost pred = has_id(id as int);
    let mut i: usize = 0;
    while i < pages.len()
        invariant
            i <= pages.len(),
            all == page_views(pages@),
            pred == has_id(id as int),
            crate::lists::first_where(all, pred, 0) == crate::lists::first_where(
                all,
                pred,
                i as int,
            ),
        decreases pages.len() - i,
    {
        assert(all[i as int] == (pages@[i as int].0, pages@[i as int].1@));
        if pages[i].0 >= 0 && pages[i].0 as u64 == id as u64 {
            return Some(&pages[i].1);
        }
        i = i + 1;
    }
    None
}

impl BitmapFont {
    /// Parse the BMFont text format.
    pub fn parse(fnt: &str) -> (r: Result<BitmapFont, String>)
        ensures
            match (r, font_of(fnt@)) {
                (Ok(font), Ok(face)) => font@ == face,
                (Err(e), Err(problem)) => e@ == problem,
                _ => false,
            },
    {
        let lines = split_text(fnt);
        let ghost all = line_views(lines@);
        let mut read = Reading {
            line_height: None,
            pages: Vec::new(),
            glyphs: Vec::new(),
            kerning: Vec::new(),
        };
        proof {
            assert(read@ =~= (Draft {
                line_height: None,
                pages: Seq::empty(),
                glyphs: Map::empty(),
                kerning: Map::empty(),
            }));
        }
        let mut n: usize = 0;
        while n < lines.len()
            invariant
                n <= lines.len(),
                all == line_views(lines@),
                lines_read(all, n as nat) == Ok::<Draft, Seq<char>>(read@),
                font_of(fnt@) is Err <== lines_read(all, all.len()) is Err,
                all == split(fnt@),
            decreases lines.len() - n,
        {
            assert(all[n as int] == lines@[n as int]@);
            let done = read.read_line(&lines[n], n);
            n = n + 1;
            if let Err(e) = done {
                proof {
                    lemma_read_fails(all, n as nat, all.len());
                }
                return Err(e);
            }
        }
        let ghost d = read@;
        let mut pages: Vec<String> = Vec::new();
        let mut id: usize = 0;
        while id < read.pages.len()
            invariant
                id <= read.pages.len(),
                d == read@,
                d.pages == page_views(read.pages@),
                pages@.len() == id,
                forall|k: int|
                    0 <= k < id ==> (#[trigger] page_file(d.pages, k)) is Some && pages@[k]@
                        == page_file(d.pages, k)->0,
                lines_read(all, all.len()) == Ok::<Draft, Seq<char>>(d),
                all == split(fnt@),
            decreases read.pages.len() - id,
        {
            match find_page(&read.pages, id) {
                Some(file) => {
                    pages.push(file.clone());
                },
                None => {
                    assert(!numbered(d.pages)) by {
                        assert(page_file(d.pages, id as int) is None);
                    }
                    return Err(owned("page ids are not 0..n"));
                },
            }
            id = id + 1;
        }
        match read.line_height {
            None => Err(owned("missing common lineHeight")),
            Some(line_height) => {
                let font = BitmapFont {
                    line_height,
                    pages,
                    glyphs: read.glyphs,
                    kerning: read.kerning,
                };
                assert(font@.pages =~= Seq::new(
                    d.pages.len(),
                    |id: int| page_file(d.pages, id)->0,
                ));
                assert(font@ =~= font_of(fnt@)->Ok_0);
                Ok(font)
            },
        }
    }

    /// Page image file names, in page id order, as written in the description.
    pub fn pages(&self) -> (r: &[String])
        ensures
            r@.map_values(|s: String| s@) == self@.pages,
    {
        self.pages.as_slice()
    }

    pub fn line_height(&self) -> (r: i32)
        ensures
            r == self@.line_height,
    {
        self.line_height
    }

    /// The glyph of exactly this character.
    pub fn glyph(&self, c: char) -> (r: Option<Glyph>)
        ensures
            r == (if self@.glyphs.contains_key(c) {
                Some(self@.glyphs[c])
            } else {
                None
            }),
    {
        let mut i: usize = 0;
        while i < self.glyphs.len()
            invariant
                i <= self.glyphs.len(),
                forall|j: int| 0 <= j < i ==> #[trigger] self.glyphs@[j].0 != c,
            decreases self.glyphs.len() - i,
        {
            if self.glyphs[i].0 == c {
                proof {
                    crate::names::lemma_lookup_skip(self.glyphs@, c, i as nat);
                    assert(self.glyphs@.skip(i as int)[0] == self.glyphs@[i as int]);
                }
                return Some(self.glyphs[i].1);
            }
            i = i + 1;
        }
        proof {
            crate::names::lemma_lookup_skip(self.glyphs@, c, i as nat);
            assert(self.glyphs@.skip(i as int).len() == 0);
        }
        None
    }

    /// The kerning of a pair of characters, 0 where there is none.
    pub fn kerning(&self, previous: char, c: char) -> (r: i32)
        ensures
            r == kerned(self@, previous, c),
    {
        let ghost pair = (previous, c);
        let mut i: usize = 0;
        while i < self.kerning.len()
            invariant
                i <= self.kerning.len(),
                pair == (previous, c),
                forall|j: int| 0 <= j < i ==> #[trigger] self.kerning@[j].0 != pair,
            decreases self.kerning.len() - i,
        {
            if self.kerning[i].0.0 == previous && self.kerning[i].0.1 == c {
                proof {
                    crate::names::lemma_lookup_skip(self.kerning@, pair, i as nat);
                    assert(self.kerning@.skip(i as int)[0] == self.kerning@[i as int]);
                }
                return self.kerning[i].1;
            }
            i = i + 1;
        }
        proof {
            crate::names::lemma_lookup_skip(self.kerning@, pair, i as nat);
            assert(self.kerning@.skip(i as int).len() == 0);
        }
        0
    }
}

/// The kerning of a pair of characters.
pub open spec fn kerned(face: Face, previous: char, c: char) -> i32 {
    if face.kerning.contains_key((previous, c)) {
        face.kerning[(previous, c)]
    } else {
        0
    }
}

proof fn lemma_read_fails(lines: Seq<Seq<char>>, n: nat, m: nat)
    requires
        n <= m <= lines.len(),
        lines_read(lines, n) is Err,
    ensures
        lines_read(lines, m) == lines_read(lines, n),
    decreases m,
{
    if n < m {
        lemma_read_fails(lines, n, (m - 1) as nat);
    }
}

} // verus!
