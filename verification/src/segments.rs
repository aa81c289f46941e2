//! Segment display geometry: which segments light up for a character and where each segment
//! sits in a digit cell.

use crate::model::{Justify, SegmentStyle};
use crate::num::{
    at_most, clamp_of, equal, from_int, less, max_of, min_of, num, opposite_of, product_of,
    quotient_of, round_of, sum_of, to_u64_of, Num,
};
use crate::text::{chars_of, code_of};
use crate::waves::{radians, sqrt, sqrt_of, tan, tan_of, to_radians, HALF, ONE, TWO};
use vstd::prelude::*;

verus! {

/// 0.2: the most of the cell's shorter side one bar may be.
pub const THICKEST: u64 = 0x3FC9_9999_9999_999A;

/// 0.01: the least of it.
pub const THINNEST: u64 = 0x3F84_7AE1_47AE_147B;

/// 45: the most degrees a cell may lean.
pub const LEANEST: u64 = 0x4046_8000_0000_0000;

/// 1.2: how much wider the padding is than a bar.
pub const PAD_SHARE: u64 = 0x3FF3_3333_3333_3333;

/// 0.6: how much of its thickness a pointed bar is shortened by.
pub const POINTED: u64 = 0x3FE3_3333_3333_3333;

/// The distance from 1 to the next double.
pub const EPSILON: u64 = 0x3CB0_0000_0000_0000;

/// The largest double.
pub const LARGEST: u64 = 0x7FEF_FFFF_FFFF_FFFF;

/// The lowest double.
pub const LOWEST: u64 = 0xFFEF_FFFF_FFFF_FFFF;

/// 0.1: the share of a bar that does not say.
pub const BAR: u64 = 0x3FB9_9999_9999_999A;

/// The bit of the dot.
pub const DOT: u16 = 0x80;

/// An ASCII letter in upper case; anything else as it is.
pub open spec fn upper(c: char) -> char {
    if 'a' as int <= c as int <= 'z' as int {
        (c as int - 32) as char
    } else {
        c
    }
}

fn upper_of(c: char) -> (r: char)
    ensures
        r == upper(c),
{
    let n: u32 = code_of(c);
    if 97 <= n && n <= 122 {
        ((n - 32) as u8) as char
    } else {
        c
    }
}

/// 14-segment character masks, one bit per segment: 0 a (top), 1 b (upper right), 2 c (lower
/// right), 3 d (bottom), 4 e (lower left), 5 f (upper left), 6 g1 (middle left), 7 dot, 8 h
/// (upper left diagonal), 9 j (upper center), 10 k (upper right diagonal), 11 g2 (middle
/// right), 12 l (lower right diagonal), 13 m (lower center), 14 n (lower left diagonal).
pub open spec fn alpha14(c: char) -> u16 {
    match upper(c) {
        '0' => 0x443F,
        '1' => 0x0406,
        '2' => 0x085B,
        '3' => 0x080F,
        '4' => 0x0866,
        '5' => 0x086D,
        '6' => 0x087D,
        '7' => 0x2401,
        '8' => 0x087F,
        '9' => 0x086F,
        'A' => 0x0877,
        'B' => 0x2A0F,
        'C' => 0x0039,
        'D' => 0x220F,
        'E' => 0x0879,
        'F' => 0x0871,
        'G' => 0x083D,
        'H' => 0x0876,
        'I' => 0x2209,
        'J' => 0x001E,
        'K' => 0x1470,
        'L' => 0x0038,
        'M' => 0x0536,
        'N' => 0x1136,
        'O' => 0x003F,
        'P' => 0x0873,
        'Q' => 0x103F,
        'R' => 0x1873,
        'S' => 0x090D,
        'T' => 0x2201,
        'U' => 0x003E,
        'V' => 0x4430,
        'W' => 0x5036,
        'X' => 0x5500,
        'Y' => 0x2500,
        'Z' => 0x4409,
        '-' => 0x0840,
        '+' => 0x2A40,
        '*' => 0x7F40,
        '/' => 0x4400,
        '\\' => 0x1100,
        '=' => 0x0848,
        '_' => 0x0008,
        '\'' => 0x0200,
        '.' => 0x0080,
        ',' => 0x0080,
        _ => 0,
    }
}

/// The 14-segment table: a lower case letter looks like its upper case one, a dot stands alone
/// and for a dot or a comma only, no two digits or letters look the same, none of them is dark,
/// and what is no digit, letter or sign of the table is.
pub proof fn lemma_alpha14(c: char, d: char)
    ensures
        alpha14(c) == alpha14(upper(c)),
        alpha14(c) < 0x8000,
        alpha14(c) & DOT != 0 <==> c == '.' || c == ',',
        c == '.' || c == ',' ==> alpha14(c) == DOT,
        plain(c) ==> alpha14(c) != 0,
        !plain(upper(c)) && !sign(c) ==> alpha14(c) == 0,
        plain(c) && plain(d) && c != d ==> alpha14(c) != alpha14(d),
{
    let m = alpha14(c);
    assert((m & 0x80 != 0) == ((m / 0x80) % 2 == 1)) by (bit_vector);
}

/// A digit or an upper case letter.
pub open spec fn plain(c: char) -> bool {
    '0' as int <= c as int <= '9' as int || 'A' as int <= c as int <= 'Z' as int
}

/// A sign that a 14-segment display shows.
pub open spec fn sign(c: char) -> bool {
    c == '-' || c == '+' || c == '*' || c == '/' || c == '\\' || c == '=' || c == '_' || c == '\''
        || c == '.' || c == ','
}

/// The segment mask for one character of a 14-segment display.
pub fn alpha14_mask(c: char) -> (r: u16)
    ensures
        r == alpha14(c),
{
    match upper_of(c) {
        '0' => 0x443F,
        '1' => 0x0406,
        '2' => 0x085B,
        '3' => 0x080F,
        '4' => 0x0866,
        '5' => 0x086D,
        '6' => 0x087D,
        '7' => 0x2401,
        '8' => 0x087F,
        '9' => 0x086F,
        'A' => 0x0877,
        'B' => 0x2A0F,
        'C' => 0x0039,
        'D' => 0x220F,
        'E' => 0x0879,
        'F' => 0x0871,
        'G' => 0x083D,
        'H' => 0x0876,
        'I' => 0x2209,
        'J' => 0x001E,
        'K' => 0x1470,
        'L' => 0x0038,
        'M' => 0x0536,
        'N' => 0x1136,
        'O' => 0x003F,
        'P' => 0x0873,
        'Q' => 0x103F,
        'R' => 0x1873,
        'S' => 0x090D,
        'T' => 0x2201,
        'U' => 0x003E,
        'V' => 0x4430,
        'W' => 0x5036,
        'X' => 0x5500,
        'Y' => 0x2500,
        'Z' => 0x4409,
        '-' => 0x0840,
        '+' => 0x2A40,
        '*' => 0x7F40,
        '/' => 0x4400,
        '\\' => 0x1100,
        '=' => 0x0848,
        '_' => 0x0008,
        '\'' => 0x0200,
        '.' => 0x0080,
        ',' => 0x0080,
        _ => 0,
    }
}

/// 7-segment masks: bits 0 to 6 are a to g (g the middle bar), 7 the dot.
pub open spec fn numeric7(c: char) -> u16 {
    match c {
        '0' => 0x3F,
        '1' => 0x06,
        '2' => 0x5B,
        '3' => 0x4F,
        '4' => 0x66,
        '5' => 0x6D,
        '6' => 0x7D,
        '7' => 0x07,
        '8' => 0x7F,
        '9' => 0x6F,
        '-' => 0x40,
        '_' => 0x08,
        '.' => 0x80,
        ',' => 0x80,
        _ => 0,
    }
}

fn numeric7_mask(c: char) -> (r: u16)
    ensures
        r == numeric7(c),
{
    match c {
        '0' => 0x3F,
        '1' => 0x06,
        '2' => 0x5B,
        '3' => 0x4F,
        '4' => 0x66,
        '5' => 0x6D,
        '6' => 0x7D,
        '7' => 0x07,
        '8' => 0x7F,
        '9' => 0x6F,
        '-' => 0x40,
        '_' => 0x08,
        '.' => 0x80,
        ',' => 0x80,
        _ => 0,
    }
}

pub open spec fn mask_of(style: SegmentStyle, c: char) -> u16 {
    match style {
        SegmentStyle::Alpha14 => alpha14(c),
        SegmentStyle::Numeric7 => numeric7(c),
    }
}

/// The segment mask for one character of a display in `style`.
pub fn mask(style: SegmentStyle, c: char) -> (r: u16)
    ensures
        r == mask_of(style, c),
{
    match style {
        SegmentStyle::Alpha14 => alpha14_mask(c),
        SegmentStyle::Numeric7 => numeric7_mask(c),
    }
}

/// The cells of a text: a dot joins the cell before it, unless there is none or its dot is
/// already lit.
pub open spec fn dotted(style: SegmentStyle, text: Seq<char>) -> Seq<u16>
    decreases text.len(),
{
    if text.len() == 0 {
        Seq::empty()
    } else {
        let before = dotted(style, text.drop_last());
        let m = mask_of(style, text.last());
        if before.len() > 0 && m == DOT && before.last() & DOT == 0 {
            before.drop_last().push(before.last() | DOT)
        } else {
            before.push(m)
        }
    }
}

/// Cells fitted into a row: from the left, or ending in the last cell; dark where there are
/// none.
pub open spec fn fitted(cells: Seq<u16>, digits: nat, justify: Justify) -> Seq<u16> {
    let shift = if justify == Justify::Right {
        cells.len() - digits
    } else {
        0
    };
    Seq::new(
        digits,
        |i: int|
            if 0 <= i + shift < cells.len() {
                cells[i + shift]
            } else {
                0
            },
    )
}

/// A row of masks has one for every digit.
pub proof fn lemma_masks_length(style: SegmentStyle, text: Seq<char>, digits: nat, justify: Justify)
    ensures
        fitted(dotted(style, text), digits, justify).len() == digits,
{
}

/// The segment mask of each of `digits` cells showing `text`. A `.` or `,` lights the dot of
/// the cell before it rather than taking a cell of its own (unless there is none, or its dot
/// is already lit). Text that does not fit is cut at the far side of `justify`.
pub fn masks(style: SegmentStyle, text: &str, digits: usize, justify: Justify) -> (r: Vec<u16>)
    ensures
        r@ == fitted(dotted(style, text@), digits as nat, justify),
{
    let chars = chars_of(text);
    let mut cells: Vec<u16> = Vec::new();
    let mut i: usize = 0;
    while i < chars.len()
        invariant
            i <= chars.len(),
            chars@ == text@,
            cells@ == dotted(style, text@.take(i as int)),
        decreases chars.len() - i,
    {
        assert(text@.take(i as int + 1).drop_last() =~= text@.take(i as int));
        let m: u16 = mask(style, chars[i]);
        let n: usize = cells.len();
        if n > 0 && m == DOT && cells[n - 1] & DOT == 0 {
            let lit: u16 = cells[n - 1] | DOT;
            let ghost was = cells@;
            cells.set(n - 1, lit);
            assert(cells@ =~= was.drop_last().push(was.last() | DOT));
        } else {
            cells.push(m);
        }
        i = i + 1;
    }
    assert(text@.take(i as int) =~= text@);
    let ghost goal = fitted(cells@, digits as nat, justify);
    let len: usize = cells.len();
    let mut out: Vec<u16> = Vec::new();
    let mut k: usize = 0;
    while k < digits
        invariant
            k <= digits,
            len == cells.len(),
            goal == fitted(cells@, digits as nat, justify),
            out@ == goal.take(k as int),
        decreases digits - k,
    {
        let m: u16 = match justify {
            Justify::Left => {
                if k < len {
                    cells[k]
                } else {
                    0
                }
            },
            Justify::Right => {
                if len >= digits {
                    cells[len - digits + k]
                } else if k >= digits - len {
                    cells[k - (digits - len)]
                } else {
                    0
                }
            },
        };
        out.push(m);
        k = k + 1;
        assert(out@ =~= goal.take(k as int));
    }
    assert(out@ =~= goal);
    out
}

/// How a display is drawn beyond which segments are lit: how fat the bars are, how far they
/// lean, and how much wider this pass is than the segment itself.
#[derive(Clone, Copy, Debug, PartialEq, Eq, Structural)]
pub struct Look {
    /// Bar width as a share of the cell's shorter side, at most [`THICKEST`].
    pub thickness: Num,
    /// Degrees the cell leans; a shear, so the baseline stays level. At most [`LEANEST`].
    pub slant: Num,
    /// Extra width in canvas units, for a glow pass.
    pub grow: Num,
}

impl Default for Look {
    fn default() -> (r: Look)
        ensures
            r == (Look { thickness: num(BAR), slant: num(0), grow: num(0) }),
    {
        Look { thickness: num(BAR), slant: num(0), grow: num(0) }
    }
}

/// The measures of a digit cell: bar thickness, padding, and the centerlines.
#[derive(Clone, Copy, Debug, PartialEq, Eq, Structural)]
pub struct Frame {
    pub thickness: Num,
    pub pad: Num,
    pub x0: Num,
    pub x1: Num,
    pub xm: Num,
    pub y0: Num,
    pub y1: Num,
    pub ym: Num,
}

/// A centerline whose bar has its edges on pixel boundaries.
pub open spec fn gridded(c: Num, thickness: Num, snap: bool) -> Num {
    if snap {
        sum_of(
            round_of(sum_of(c, opposite_of(quotient_of(thickness, num(TWO))))),
            quotient_of(thickness, num(TWO)),
        )
    } else {
        c
    }
}

fn on_grid(c: Num, thickness: Num, snap: bool) -> (r: Num)
    ensures
        r == gridded(c, thickness, snap),
{
    if snap {
        c.minus(thickness.over(num(TWO))).round().plus(thickness.over(num(TWO)))
    } else {
        c
    }
}

pub open spec fn frame_of(cell: [Num; 4], snap: bool, look: Look) -> Frame {
    let x = cell[0];
    let y = cell[1];
    let w = cell[2];
    let h = cell[3];
    let unit = min_of(w, h);
    let share = clamp_of(look.thickness, num(THINNEST), num(THICKEST));
    let pad = product_of(unit, product_of(share, num(PAD_SHARE)));
    let raw = sum_of(product_of(unit, share), look.grow);
    let thickness = if snap {
        max_of(round_of(raw), num(ONE))
    } else {
        raw
    };
    Frame {
        thickness,
        pad,
        x0: gridded(sum_of(x, pad), thickness, snap),
        x1: gridded(sum_of(sum_of(x, w), opposite_of(pad)), thickness, snap),
        xm: gridded(sum_of(x, quotient_of(w, num(TWO))), thickness, snap),
        y0: gridded(sum_of(y, pad), thickness, snap),
        y1: gridded(sum_of(sum_of(y, h), opposite_of(pad)), thickness, snap),
        ym: gridded(sum_of(y, quotient_of(h, num(TWO))), thickness, snap),
    }
}

fn frame(cell: [Num; 4], snap: bool, look: Look) -> (r: Frame)
    ensures
        r == frame_of(cell, snap, look),
{
    let x = cell[0];
    let y = cell[1];
    let w = cell[2];
    let h = cell[3];
    // Gaps grow with the bars, so a fat display stays legible instead of running together.
    let unit = w.min(h);
    let share = look.thickness.clamp(num(THINNEST), num(THICKEST));
    let pad = unit.times(share.times(num(PAD_SHARE)));
    let mut thickness = unit.times(share).plus(look.grow);
    if snap {
        thickness = thickness.round().max(num(ONE));
    }
    Frame {
        thickness,
        pad,
        x0: on_grid(x.plus(pad), thickness, snap),
        x1: on_grid(x.plus(w).minus(pad), thickness, snap),
        xm: on_grid(x.plus(w.over(num(TWO))), thickness, snap),
        y0: on_grid(y.plus(pad), thickness, snap),
        y1: on_grid(y.plus(h).minus(pad), thickness, snap),
        ym: on_grid(y.plus(h.over(num(TWO))), thickness, snap),
    }
}

/// A segment's bit and its centerline.
#[derive(Clone, Copy, Debug)]
pub struct Line {
    pub bit: u16,
    pub from: [Num; 2],
    pub to: [Num; 2],
}

/// The segments' centerlines, in the order they are drawn.
pub open spec fn lines(style: SegmentStyle, f: Frame) -> Seq<Line> {
    match style {
        SegmentStyle::Alpha14 => seq![
            Line { bit: 0x0001, from: [f.x0, f.y0], to: [f.x1, f.y0] },
            Line { bit: 0x0002, from: [f.x1, f.y0], to: [f.x1, f.ym] },
            Line { bit: 0x0004, from: [f.x1, f.ym], to: [f.x1, f.y1] },
            Line { bit: 0x0008, from: [f.x0, f.y1], to: [f.x1, f.y1] },
            Line { bit: 0x0010, from: [f.x0, f.ym], to: [f.x0, f.y1] },
            Line { bit: 0x0020, from: [f.x0, f.y0], to: [f.x0, f.ym] },
            Line { bit: 0x0040, from: [f.x0, f.ym], to: [f.xm, f.ym] },
            Line { bit: 0x0100, from: [f.x0, f.y0], to: [f.xm, f.ym] },
            Line { bit: 0x0200, from: [f.xm, f.y0], to: [f.xm, f.ym] },
            Line { bit: 0x0400, from: [f.x1, f.y0], to: [f.xm, f.ym] },
            Line { bit: 0x0800, from: [f.xm, f.ym], to: [f.x1, f.ym] },
            Line { bit: 0x1000, from: [f.xm, f.ym], to: [f.x1, f.y1] },
            Line { bit: 0x2000, from: [f.xm, f.ym], to: [f.xm, f.y1] },
            Line { bit: 0x4000, from: [f.xm, f.ym], to: [f.x0, f.y1] },
        ],
        SegmentStyle::Numeric7 => seq![
            Line { bit: 0x0001, from: [f.x0, f.y0], to: [f.x1, f.y0] },
            Line { bit: 0x0002, from: [f.x1, f.y0], to: [f.x1, f.ym] },
            Line { bit: 0x0004, from: [f.x1, f.ym], to: [f.x1, f.y1] },
            Line { bit: 0x0008, from: [f.x0, f.y1], to: [f.x1, f.y1] },
            Line { bit: 0x0010, from: [f.x0, f.ym], to: [f.x0, f.y1] },
            Line { bit: 0x0020, from: [f.x0, f.y0], to: [f.x0, f.ym] },
            Line { bit: 0x0040, from: [f.x0, f.ym], to: [f.x1, f.ym] },
        ],
    }
}

fn line_list(style: SegmentStyle, f: Frame) -> (r: Vec<Line>)
    ensures
        r@ == lines(style, f),
{
    match style {
        SegmentStyle::Alpha14 => {
            let list: Vec<Line> = vec![
                Line { bit: 0x0001, from: [f.x0, f.y0], to: [f.x1, f.y0] },
                Line { bit: 0x0002, from: [f.x1, f.y0], to: [f.x1, f.ym] },
                Line { bit: 0x0004, from: [f.x1, f.ym], to: [f.x1, f.y1] },
                Line { bit: 0x0008, from: [f.x0, f.y1], to: [f.x1, f.y1] },
                Line { bit: 0x0010, from: [f.x0, f.ym], to: [f.x0, f.y1] },
                Line { bit: 0x0020, from: [f.x0, f.y0], to: [f.x0, f.ym] },
                Line { bit: 0x0040, from: [f.x0, f.ym], to: [f.xm, f.ym] },
                Line { bit: 0x0100, from: [f.x0, f.y0], to: [f.xm, f.ym] },
                Line { bit: 0x0200, from: [f.xm, f.y0], to: [f.xm, f.ym] },
                Line { bit: 0x0400, from: [f.x1, f.y0], to: [f.xm, f.ym] },
                Line { bit: 0x0800, from: [f.xm, f.ym], to: [f.x1, f.ym] },
                Line { bit: 0x1000, from: [f.xm, f.ym], to: [f.x1, f.y1] },
                Line { bit: 0x2000, from: [f.xm, f.ym], to: [f.xm, f.y1] },
                Line { bit: 0x4000, from: [f.xm, f.ym], to: [f.x0, f.y1] },
            ];
            assert(list@ =~= lines(style, f));
            list
        },
        SegmentStyle::Numeric7 => {
            let list: Vec<Line> = vec![
                Line { bit: 0x0001, from: [f.x0, f.y0], to: [f.x1, f.y0] },
                Line { bit: 0x0002, from: [f.x1, f.y0], to: [f.x1, f.ym] },
                Line { bit: 0x0004, from: [f.x1, f.ym], to: [f.x1, f.y1] },
                Line { bit: 0x0008, from: [f.x0, f.y1], to: [f.x1, f.y1] },
                Line { bit: 0x0010, from: [f.x0, f.ym], to: [f.x0, f.y1] },
                Line { bit: 0x0020, from: [f.x0, f.y0], to: [f.x0, f.ym] },
                Line { bit: 0x0040, from: [f.x0, f.ym], to: [f.x1, f.ym] },
            ];
            assert(list@ =~= lines(style, f));
            list
        },
    }
}

/// Whether a centerline is upright or level.
pub open spec fn square(line: Line) -> bool {
    equal(line.from[0], line.to[0]) || equal(line.from[1], line.to[1])
}

/// A segment along a centerline, ends shortened and pointed so touching segments stay visibly
/// apart; on the pixel grid straight bars end flat.
#[verifier::opaque]
pub open spec fn bar_of(line: Line, thickness: Num, snap: bool) -> Seq<[Num; 2]> {
    let x0 = line.from[0];
    let y0 = line.from[1];
    let x1 = line.to[0];
    let y1 = line.to[1];
    let dx = sum_of(x1, opposite_of(x0));
    let dy = sum_of(y1, opposite_of(y0));
    let len = max_of(sqrt_of(sum_of(product_of(dx, dx), product_of(dy, dy))), num(EPSILON));
    let ux = quotient_of(dx, len);
    let uy = quotient_of(dy, len);
    let nx = quotient_of(product_of(opposite_of(uy), thickness), num(TWO));
    let ny = quotient_of(product_of(ux, thickness), num(TWO));
    let flat = snap && (equal(dx, num(0)) || equal(dy, num(0)));
    let gap = if flat {
        quotient_of(thickness, num(TWO))
    } else {
        product_of(thickness, num(POINTED))
    };
    let tip = if flat {
        num(0)
    } else {
        quotient_of(thickness, num(TWO))
    };
    let ax = sum_of(x0, product_of(ux, gap));
    let ay = sum_of(y0, product_of(uy, gap));
    let bx = sum_of(x1, opposite_of(product_of(ux, gap)));
    let by = sum_of(y1, opposite_of(product_of(uy, gap)));
    seq![
        [
            sum_of(ax, opposite_of(product_of(ux, tip))),
            sum_of(ay, opposite_of(product_of(uy, tip))),
        ],
        [sum_of(ax, nx), sum_of(ay, ny)],
        [sum_of(bx, nx), sum_of(by, ny)],
        [sum_of(bx, product_of(ux, tip)), sum_of(by, product_of(uy, tip))],
        [sum_of(bx, opposite_of(nx)), sum_of(by, opposite_of(ny))],
        [sum_of(ax, opposite_of(nx)), sum_of(ay, opposite_of(ny))],
    ]
}

fn bar(line: Line, thickness: Num, snap: bool) -> (r: Vec<[Num; 2]>)
    ensures
        r@ == bar_of(line, thickness, snap),
{
    proof {
        reveal(bar_of);
    }
    let x0 = line.from[0];
    let y0 = line.from[1];
    let x1 = line.to[0];
    let y1 = line.to[1];
    let dx = x1.minus(x0);
    let dy = y1.minus(y0);
    let len = sqrt(dx.times(dx).plus(dy.times(dy))).max(num(EPSILON));
    let ux = dx.over(len);
    let uy = dy.over(len);
    let nx = uy.neg().times(thickness).over(num(TWO));
    let ny = ux.times(thickness).over(num(TWO));
    let flat = snap && (dx.same(num(0)) || dy.same(num(0)));
    let (gap, tip) = if flat {
        (thickness.over(num(TWO)), num(0))
    } else {
        (thickness.times(num(POINTED)), thickness.over(num(TWO)))
    };
    let ax = x0.plus(ux.times(gap));
    let ay = y0.plus(uy.times(gap));
    let bx = x1.minus(ux.times(gap));
    let by = y1.minus(uy.times(gap));
    let out: Vec<[Num; 2]> = vec![
        [ax.minus(ux.times(tip)), ay.minus(uy.times(tip))],
        [ax.plus(nx), ay.plus(ny)],
        [bx.plus(nx), by.plus(ny)],
        [bx.plus(ux.times(tip)), by.plus(uy.times(tip))],
        [bx.minus(nx), by.minus(ny)],
        [ax.minus(nx), ay.minus(ny)],
    ];
    assert(out@ =~= bar_of(line, thickness, snap));
    out
}

/// The box that the first `n` points fill, as `[x0, y0, x1, y1]`.
pub open spec fn box_of(points: Seq<[Num; 2]>, n: nat) -> [Num; 4]
    decreases n,
{
    if n == 0 || n > points.len() {
        [num(LARGEST), num(LARGEST), num(LOWEST), num(LOWEST)]
    } else {
        let b = box_of(points, (n - 1) as nat);
        let p = points[n - 1];
        [min_of(b[0], p[0]), min_of(b[1], p[1]), max_of(b[2], p[0]), max_of(b[3], p[1])]
    }
}

fn bounds(points: &Vec<[Num; 2]>) -> (r: [Num; 4])
    ensures
        r == box_of(points@, points@.len()),
{
    let mut b = [num(LARGEST), num(LARGEST), num(LOWEST), num(LOWEST)];
    let mut i: usize = 0;
    while i < points.len()
        invariant
            i <= points.len(),
            b == box_of(points@, i as nat),
        decreases points.len() - i,
    {
        let p = points[i];
        b = [b[0].min(p[0]), b[1].min(p[1]), b[2].max(p[0]), b[3].max(p[1])];
        i = i + 1;
    }
    b
}

/// How many pixel rows a box covers.
pub open spec fn row_count(b: [Num; 4]) -> nat {
    let n = to_u64_of(round_of(sum_of(b[3], opposite_of(b[1]))));
    if n == 0 {
        1
    } else if n > 0xFFFF_FFFF {
        0xFFFF_FFFF
    } else {
        n as nat
    }
}

/// A corner of a leaning strip: the edge at `x`, at the top or the bottom of a row.
pub open spec fn step_point(b: [Num; 4], x: Num, baseline: Num, lean: Num, i: int) -> [Num; 2] {
    let y0 = b[1];
    let row = from_int(i / 2);
    let top = sum_of(y0, row);
    let shift = round_of(product_of(sum_of(sum_of(top, num(HALF)), opposite_of(baseline)), lean));
    [
        sum_of(x, opposite_of(shift)),
        if i % 2 == 0 {
            top
        } else {
            sum_of(top, num(ONE))
        },
    ]
}

/// A rectangle leaning on a pixel grid: one strip per pixel row, each shifted by whole
/// columns, as one outline, down the left side and back up the right.
pub open spec fn stairs(b: [Num; 4], baseline: Num, lean: Num) -> Seq<[Num; 2]> {
    let rows = row_count(b);
    Seq::new(
        4 * rows,
        |i: int|
            if i < 2 * rows {
                step_point(b, b[0], baseline, lean, i)
            } else {
                step_point(b, b[2], baseline, lean, 4 * rows - 1 - i)
            },
    )
}

fn step_point_at(b: [Num; 4], x: Num, baseline: Num, lean: Num, i: u64) -> (r: [Num; 2])
    ensures
        r == step_point(b, x, baseline, lean, i as int),
{
    let y0 = b[1];
    let row = Num::from_u64(i / 2);
    let top = y0.plus(row);
    let shift = top.plus(num(HALF)).minus(baseline).times(lean).round();
    [
        x.minus(shift),
        if i % 2 == 0 {
            top
        } else {
            top.plus(num(ONE))
        },
    ]
}

fn staircase(b: [Num; 4], baseline: Num, lean: Num) -> (r: Vec<[Num; 2]>)
    ensures
        r@ == stairs(b, baseline, lean),
{
    let wanted: u64 = b[3].minus(b[1]).round().to_u64();
    let rows: u64 = if wanted == 0 {
        1
    } else if wanted > 0xFFFF_FFFF {
        0xFFFF_FFFF
    } else {
        wanted
    };
    let ghost goal = stairs(b, baseline, lean);
    let mut out: Vec<[Num; 2]> = Vec::new();
    let mut i: u64 = 0;
    while i < 4 * rows
        invariant
            i <= 4 * rows,
            rows == row_count(b),
            rows <= 0xFFFF_FFFF,
            goal == stairs(b, baseline, lean),
            out@ == goal.take(i as int),
        decreases 4 * rows - i,
    {
        if i < 2 * rows {
            out.push(step_point_at(b, b[0], baseline, lean, i));
        } else {
            out.push(step_point_at(b, b[2], baseline, lean, 4 * rows - 1 - i));
        }
        i = i + 1;
        assert(out@ =~= goal.take(i as int));
    }
    assert(out@ =~= goal);
    out
}

/// How a polygon leans about the cell's baseline.
pub open spec fn leaned(
    points: Seq<[Num; 2]>,
    square: bool,
    baseline: Num,
    lean: Num,
    snap: bool,
) -> Seq<[Num; 2]> {
    if equal(lean, num(0)) {
        points
    } else if snap && square {
        stairs(box_of(points, points.len()), baseline, lean)
    } else {
        points.map_values(
            |p: [Num; 2]|
                {
                    let shift = product_of(sum_of(p[1], opposite_of(baseline)), lean);
                    [
                        sum_of(
                            p[0],
                            opposite_of(
                                if snap {
                                    round_of(shift)
                                } else {
                                    shift
                                },
                            ),
                        ),
                        p[1],
                    ]
                },
        )
    }
}

fn lean_points(points: Vec<[Num; 2]>, square: bool, baseline: Num, lean: Num, snap: bool) -> (r: Vec<
    [Num; 2],
>)
    ensures
        r@ == leaned(points@, square, baseline, lean, snap),
{
    if lean.same(num(0)) {
        return points;
    }
    // On a pixel grid a sheared bar is cut into one strip per pixel row instead, each shifted
    // a whole number of columns.
    if snap && square {
        return staircase(bounds(&points), baseline, lean);
    }
    let ghost goal = leaned(points@, square, baseline, lean, snap);
    let mut out: Vec<[Num; 2]> = Vec::new();
    let mut i: usize = 0;
    while i < points.len()
        invariant
            i <= points.len(),
            !equal(lean, num(0)),
            !(snap && square),
            goal == leaned(points@, square, baseline, lean, snap),
            out@ == goal.take(i as int),
        decreases points.len() - i,
    {
        let p = points[i];
        let shift = p[1].minus(baseline).times(lean);
        let moved = if snap {
            shift.round()
        } else {
            shift
        };
        out.push([p[0].minus(moved), p[1]]);
        i = i + 1;
        assert(out@ =~= goal.take(i as int));
    }
    assert(out@ =~= goal);
    out
}

/// The tangent of a display's lean.
pub open spec fn lean_of(look: Look) -> Num {
    tan_of(radians(clamp_of(look.slant, opposite_of(num(LEANEST)), num(LEANEST))))
}

pub(crate) fn lean(look: Look) -> (r: Num)
    ensures
        r == lean_of(look),
{
    tan(to_radians(look.slant.clamp(num(LEANEST).neg(), num(LEANEST))))
}

/// The square dot in the bottom right padding.
pub open spec fn dot_of(cell: [Num; 4], f: Frame, snap: bool) -> Seq<[Num; 2]> {
    let x = cell[0];
    let w = cell[2];
    let cx = gridded(
        sum_of(sum_of(x, w), opposite_of(quotient_of(f.pad, num(TWO)))),
        f.thickness,
        snap,
    );
    let cy = f.y1;
    let r = quotient_of(f.thickness, num(TWO));
    seq![
        [sum_of(cx, opposite_of(r)), sum_of(cy, opposite_of(r))],
        [sum_of(cx, r), sum_of(cy, opposite_of(r))],
        [sum_of(cx, r), sum_of(cy, r)],
        [sum_of(cx, opposite_of(r)), sum_of(cy, r)],
    ]
}

fn dot(cell: [Num; 4], f: Frame, snap: bool) -> (r: Vec<[Num; 2]>)
    ensures
        r@ == dot_of(cell, f, snap),
{
    let x = cell[0];
    let w = cell[2];
    let cx = on_grid(x.plus(w).minus(f.pad.over(num(TWO))), f.thickness, snap);
    let cy = f.y1;
    let r = f.thickness.over(num(TWO));
    let out: Vec<[Num; 2]> = vec![
        [cx.minus(r), cy.minus(r)],
        [cx.plus(r), cy.minus(r)],
        [cx.plus(r), cy.plus(r)],
        [cx.minus(r), cy.plus(r)],
    ];
    assert(out@ =~= dot_of(cell, f, snap));
    out
}

/// The polygons of the lit ones of the first `n` segments.
pub open spec fn bars(
    list: Seq<Line>,
    mask: u16,
    f: Frame,
    baseline: Num,
    lean: Num,
    snap: bool,
    n: nat,
) -> Seq<Seq<[Num; 2]>>
    decreases n,
{
    if n == 0 || n > list.len() {
        Seq::empty()
    } else {
        let before = bars(list, mask, f, baseline, lean, snap, (n - 1) as nat);
        let line = list[n - 1];
        if mask & line.bit != 0 {
            before.push(
                leaned(bar_of(line, f.thickness, snap), square(line), baseline, lean, snap),
            )
        } else {
            before
        }
    }
}

/// The polygons of the lit segments of one digit cell.
#[verifier::opaque]
pub open spec fn polygons_of(
    style: SegmentStyle,
    mask: u16,
    cell: [Num; 4],
    snap: bool,
    look: Look,
) -> Seq<Seq<[Num; 2]>> {
    let f = frame_of(cell, snap, look);
    let list = lines(style, f);
    let baseline = sum_of(cell[1], cell[3]);
    let lean = lean_of(look);
    let lit = bars(list, mask, f, baseline, lean, snap, list.len());
    if mask & DOT != 0 {
        lit.push(leaned(dot_of(cell, f, snap), true, baseline, lean, snap))
    } else {
        lit
    }
}

/// A lit dot is the last polygon of its cell.
pub(crate) proof fn lemma_dot_comes_last(
    style: SegmentStyle,
    mask: u16,
    cell: [Num; 4],
    snap: bool,
    look: Look,
)
    requires
        mask & DOT != 0,
    ensures
        polygons_of(style, mask, cell, snap, look).len() > 0,
{
    reveal(polygons_of);
}

pub open spec fn point_lists(list: Seq<Vec<[Num; 2]>>) -> Seq<Seq<[Num; 2]>> {
    list.map_values(|v: Vec<[Num; 2]>| v@)
}

/// Polygons of the lit segments of one digit cell `[x, y, w, h]`. With `snap` the bars are a
/// whole number of pixels thick and their long edges lie on pixel boundaries.
pub fn polygons(style: SegmentStyle, mask: u16, cell: [Num; 4], snap: bool, look: Look) -> (r: Vec<
    Vec<[Num; 2]>,
>)
    ensures
        point_lists(r@) == polygons_of(style, mask, cell, snap, look),
{
    proof {
        reveal(polygons_of);
    }
    let f = frame(cell, snap, look);
    let list = line_list(style, f);
    let baseline = cell[1].plus(cell[3]);
    // A lean is a shear about the cell's baseline, not a rotation.
    let lean = lean(look);
    let mut out: Vec<Vec<[Num; 2]>> = Vec::new();
    let mut i: usize = 0;
    assert(point_lists(out@) =~= Seq::<Seq<[Num; 2]>>::empty());
    while i < list.len()
        invariant
            i <= list.len(),
            point_lists(out@) == bars(list@, mask, f, baseline, lean, snap, i as nat),
        decreases list.len() - i,
    {
        let line = list[i];
        if mask & line.bit != 0 {
            let upright = line.from[0].same(line.to[0]) || line.from[1].same(line.to[1]);
            let points = lean_points(bar(line, f.thickness, snap), upright, baseline, lean, snap);
            let ghost before = point_lists(out@);
            out.push(points);
            assert(point_lists(out@) =~= before.push(points@));
        }
        i = i + 1;
    }
    if mask & DOT != 0 {
        let points = lean_points(dot(cell, f, snap), true, baseline, lean, snap);
        let ghost before = point_lists(out@);
        out.push(points);
        assert(point_lists(out@) =~= before.push(points@));
    }
    out
}

/// How many of the first `n` lines a mask lights.
pub open spec fn lit_count(list: Seq<Line>, mask: u16, n: nat) -> nat
    decreases n,
{
    if n == 0 || n > list.len() {
        0
    } else if mask & list[n - 1].bit != 0 {
        lit_count(list, mask, (n - 1) as nat) + 1
    } else {
        lit_count(list, mask, (n - 1) as nat)
    }
}

proof fn lemma_bars_count(
    list: Seq<Line>,
    mask: u16,
    f: Frame,
    baseline: Num,
    lean: Num,
    snap: bool,
    n: nat,
)
    ensures
        bars(list, mask, f, baseline, lean, snap, n).len() == lit_count(list, mask, n),
    decreases n,
{
    if n > 0 && n <= list.len() {
        lemma_bars_count(list, mask, f, baseline, lean, snap, (n - 1) as nat);
    }
}

/// A digit cell has one polygon for every segment that is lit, and one for its dot.
pub proof fn lemma_one_polygon_each(
    style: SegmentStyle,
    mask: u16,
    cell: [Num; 4],
    snap: bool,
    look: Look,
)
    ensures
        ({
            let list = lines(style, frame_of(cell, snap, look));
            polygons_of(style, mask, cell, snap, look).len() == lit_count(list, mask, list.len())
                + if mask & DOT != 0 {
                1nat
            } else {
                0
            }
        }),
{
    reveal(polygons_of);
    let f = frame_of(cell, snap, look);
    let list = lines(style, f);
    lemma_bars_count(
        list,
        mask,
        f,
        sum_of(cell[1], cell[3]),
        lean_of(look),
        snap,
        list.len(),
    );
}

/// A look past a cap draws as the look at it: bars no thicker than the thickest, a lean no
/// further than the furthest, to either side.
pub proof fn lemma_capped(
    style: SegmentStyle,
    mask: u16,
    cell: [Num; 4],
    snap: bool,
    look: Look,
)
    ensures
        at_most(num(THICKEST), look.thickness) ==> polygons_of(style, mask, cell, snap, look)
            == polygons_of(
            style,
            mask,
            cell,
            snap,
            Look { thickness: num(THICKEST), ..look },
        ),
        at_most(num(LEANEST), look.slant) ==> polygons_of(style, mask, cell, snap, look)
            == polygons_of(style, mask, cell, snap, Look { slant: num(LEANEST), ..look }),
        at_most(look.slant, opposite_of(num(LEANEST))) ==> polygons_of(
            style,
            mask,
            cell,
            snap,
            look,
        ) == polygons_of(
            style,
            mask,
            cell,
            snap,
            Look { slant: opposite_of(num(LEANEST)), ..look },
        ),
{
    reveal(polygons_of);
    reveal(less);
    reveal(equal);
    reveal(opposite_of);
    let lo = num(THINNEST);
    let hi = num(THICKEST);
    let left = opposite_of(num(LEANEST));
    let right = num(LEANEST);
    assert(clamp_of(hi, lo, hi) == hi);
    assert(clamp_of(right, left, right) == right);
    assert(clamp_of(left, left, right) == left);
    if at_most(hi, look.thickness) {
        assert(clamp_of(look.thickness, lo, hi) == hi);
        assert(frame_of(cell, snap, look) == frame_of(
            cell,
            snap,
            Look { thickness: hi, ..look },
        ));
    }
    if at_most(right, look.slant) {
        assert(clamp_of(look.slant, left, right) == right);
        assert(frame_of(cell, snap, look) == frame_of(cell, snap, Look { slant: right, ..look }));
    }
    if at_most(look.slant, left) {
        assert(clamp_of(look.slant, left, right) == left);
        assert(frame_of(cell, snap, look) == frame_of(cell, snap, Look { slant: left, ..look }));
    }
}

/// Two polygons whose points stand at the same heights, one for one.
pub open spec fn level_with(a: Seq<[Num; 2]>, b: Seq<[Num; 2]>) -> bool {
    a.len() == b.len() && forall|i: int| 0 <= i < a.len() ==> (#[trigger] a[i])[1] == b[i][1]
}

/// A lean moves no point up or down, unless a bar becomes a staircase on the pixel grid.
pub proof fn lemma_lean_keeps_heights(
    points: Seq<[Num; 2]>,
    square: bool,
    baseline: Num,
    lean: Num,
    snap: bool,
)
    requires
        !(snap && square),
    ensures
        level_with(leaned(points, square, baseline, lean, snap), points),
{
}

proof fn lemma_bars_level(
    list: Seq<Line>,
    mask: u16,
    f: Frame,
    baseline: Num,
    lean: Num,
    other: Num,
    n: nat,
)
    ensures
        ({
            let a = bars(list, mask, f, baseline, lean, false, n);
            let b = bars(list, mask, f, baseline, other, false, n);
            a.len() == b.len() && forall|i: int| 0 <= i < a.len() ==> level_with(#[trigger] a[i], b[i])
        }),
    decreases n,
{
    if 0 < n <= list.len() {
        lemma_bars_level(list, mask, f, baseline, lean, other, (n - 1) as nat);
        let line = list[n - 1];
        let points = bar_of(line, f.thickness, false);
        lemma_lean_keeps_heights(points, square(line), baseline, lean, false);
        lemma_lean_keeps_heights(points, square(line), baseline, other, false);
    }
}

/// Off the pixel grid, every point of a display stands at the same height however it leans.
pub proof fn lemma_slant_keeps_heights(
    style: SegmentStyle,
    mask: u16,
    cell: [Num; 4],
    look: Look,
    slant: Num,
)
    ensures
        ({
            let a = polygons_of(style, mask, cell, false, look);
            let b = polygons_of(style, mask, cell, false, Look { slant, ..look });
            a.len() == b.len() && forall|i: int| 0 <= i < a.len() ==> level_with(#[trigger] a[i], b[i])
        }),
{
    reveal(polygons_of);
    let other = Look { slant, ..look };
    let f = frame_of(cell, false, look);
    assert(f == frame_of(cell, false, other));
    let list = lines(style, f);
    let baseline = sum_of(cell[1], cell[3]);
    lemma_bars_level(list, mask, f, baseline, lean_of(look), lean_of(other), list.len());
    let dot = dot_of(cell, f, false);
    lemma_lean_keeps_heights(dot, true, baseline, lean_of(look), false);
    lemma_lean_keeps_heights(dot, true, baseline, lean_of(other), false);
}

} // verus!
