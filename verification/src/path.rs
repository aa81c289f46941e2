//! Path geometry: SVG path data parsed into lines and curves.

use crate::big::Big;
use crate::decimal::{from_digits, lemma_decimal_same, pow10, read_decimal};
use crate::arith::lemma_at_least_one;
use crate::num::{
    abs_of, clamp_of, equal, from_int, less, max_of, min_of, num, opposite_of, product_of,
    quotient_of, sum_of, to_u64_of, Num,
};
use crate::text::{decimal, decimal_of, joined, owned};
use crate::waves::{
    acos, acos_of, radians, sin_cos, sin_cos_of, sqrt, sqrt_of, tan, tan_of, to_radians, FOUR, ONE,
    QUARTER, TURN, TWO,
};
use vstd::prelude::*;
use vstd::string::StringSliceAdditionalSpecFns;

verus! {

/// 3.0.
pub const THREE: u64 = 0x4008_0000_0000_0000;

/// One step of a path, in the coordinates of whatever holds the path.
#[derive(Clone, Copy, Debug, PartialEq)]
pub enum PathElement {
    MoveTo([Num; 2]),
    LineTo([Num; 2]),
    /// A quadratic curve: control point, then end point.
    QuadTo([Num; 2], [Num; 2]),
    /// A cubic curve: two control points, then the end point.
    CubicTo([Num; 2], [Num; 2], [Num; 2]),
    /// Back to the start of the current subpath.
    Close,
}

/// A point scaled along each axis and then moved.
pub open spec fn placed(p: [Num; 2], x: Num, y: Num, sx: Num, sy: Num) -> [Num; 2] {
    [sum_of(product_of(p[0], sx), x), sum_of(product_of(p[1], sy), y)]
}

pub(crate) fn place(p: [Num; 2], x: Num, y: Num, sx: Num, sy: Num) -> (r: [Num; 2])
    ensures
        r == placed(p, x, y, sx, sy),
{
    [p[0].times(sx).plus(x), p[1].times(sy).plus(y)]
}

impl PathElement {
    /// The element with every point scaled along each axis and then moved.
    pub open spec fn placed(self, x: Num, y: Num, sx: Num, sy: Num) -> PathElement {
        match self {
            PathElement::MoveTo(p) => PathElement::MoveTo(placed(p, x, y, sx, sy)),
            PathElement::LineTo(p) => PathElement::LineTo(placed(p, x, y, sx, sy)),
            PathElement::QuadTo(c, p) => PathElement::QuadTo(
                placed(c, x, y, sx, sy),
                placed(p, x, y, sx, sy),
            ),
            PathElement::CubicTo(c1, c2, p) => PathElement::CubicTo(
                placed(c1, x, y, sx, sy),
                placed(c2, x, y, sx, sy),
                placed(p, x, y, sx, sy),
            ),
            PathElement::Close => PathElement::Close,
        }
    }

    /// Whether an element is another one with a function applied to every point.
    pub open spec fn mapped<F: FnMut([Num; 2]) -> [Num; 2]>(self, f: F, r: PathElement) -> bool {
        match (self, r) {
            (PathElement::MoveTo(p), PathElement::MoveTo(p2)) => f.ensures((p,), p2),
            (PathElement::LineTo(p), PathElement::LineTo(p2)) => f.ensures((p,), p2),
            (PathElement::QuadTo(c, p), PathElement::QuadTo(c2, p2)) => f.ensures((c,), c2)
                && f.ensures((p,), p2),
            (PathElement::CubicTo(a, b, p), PathElement::CubicTo(a2, b2, p2)) => f.ensures(
                (a,),
                a2,
            ) && f.ensures((b,), b2) && f.ensures((p,), p2),
            (PathElement::Close, PathElement::Close) => true,
            _ => false,
        }
    }

    /// The element with `f` applied to every point.
    pub fn map<F: FnMut([Num; 2]) -> [Num; 2]>(self, mut f: F) -> (r: PathElement)
        requires
            forall|i: int|
                0 <= i < self.corners().len() ==> f.requires((#[trigger] self.corners()[i],)),
        ensures
            self.mapped(f, r),
    {
        proof {
            let corners = self.corners();
            assert(corners.len() > 0 ==> f.requires((corners[0],)));
            assert(corners.len() > 1 ==> f.requires((corners[1],)));
            assert(corners.len() > 2 ==> f.requires((corners[2],)));
        }
        match self {
            PathElement::MoveTo(p) => PathElement::MoveTo(f(p)),
            PathElement::LineTo(p) => PathElement::LineTo(f(p)),
            PathElement::QuadTo(c, p) => PathElement::QuadTo(f(c), f(p)),
            PathElement::CubicTo(c1, c2, p) => PathElement::CubicTo(f(c1), f(c2), f(p)),
            PathElement::Close => PathElement::Close,
        }
    }

    /// Every point of the element, control points included.
    pub open spec fn corners(self) -> Seq<[Num; 2]> {
        match self {
            PathElement::MoveTo(p) => seq![p],
            PathElement::LineTo(p) => seq![p],
            PathElement::QuadTo(c, p) => seq![c, p],
            PathElement::CubicTo(c1, c2, p) => seq![c1, c2, p],
            PathElement::Close => Seq::empty(),
        }
    }

    /// Every point of the element, control points included.
    pub fn points(&self) -> (r: Vec<[Num; 2]>)
        ensures
            r@ == self.corners(),
    {
        let mut out: Vec<[Num; 2]> = Vec::new();
        match self {
            PathElement::MoveTo(p) => {
                out.push(*p);
            },
            PathElement::LineTo(p) => {
                out.push(*p);
            },
            PathElement::QuadTo(c, p) => {
                out.push(*c);
                out.push(*p);
            },
            PathElement::CubicTo(c1, c2, p) => {
                out.push(*c1);
                out.push(*c2);
                out.push(*p);
            },
            PathElement::Close => {},
        }
        assert(out@ =~= self.corners());
        out
    }
}

/// Every point of the first `n` elements.
pub open spec fn all_corners(elements: Seq<PathElement>, n: nat) -> Seq<[Num; 2]>
    decreases n,
{
    if n == 0 || n > elements.len() {
        Seq::empty()
    } else {
        all_corners(elements, (n - 1) as nat) + elements[n - 1].corners()
    }
}

/// The least and the greatest coordinates of the first `n` points: `[x0, y0, x1, y1]`.
pub open spec fn extent(points: Seq<[Num; 2]>, n: nat) -> [Num; 4]
    decreases n,
{
    if n <= 1 || n > points.len() {
        [points[0][0], points[0][1], points[0][0], points[0][1]]
    } else {
        let e = extent(points, (n - 1) as nat);
        let p = points[n - 1];
        [min_of(e[0], p[0]), min_of(e[1], p[1]), max_of(e[2], p[0]), max_of(e[3], p[1])]
    }
}

/// The bounding box of a path's points.
pub open spec fn bounds_of(elements: Seq<PathElement>) -> Option<[Num; 4]> {
    let points = all_corners(elements, elements.len());
    if points.len() == 0 {
        None
    } else {
        let e = extent(points, points.len());
        Some([e[0], e[1], sum_of(e[2], opposite_of(e[0])), sum_of(e[3], opposite_of(e[1]))])
    }
}

/// The bounding box `[x, y, width, height]` of a path's points, control points included;
/// `None` for a path without points.
pub fn bounds(elements: &[PathElement]) -> (r: Option<[Num; 4]>)
    ensures
        r == bounds_of(elements@),
{
    let mut points: Vec<[Num; 2]> = Vec::new();
    let mut i: usize = 0;
    while i < elements.len()
        invariant
            i <= elements.len(),
            points@ == all_corners(elements@, i as nat),
        decreases elements.len() - i,
    {
        let mut more = elements[i].points();
        points.append(&mut more);
        i = i + 1;
    }
    if points.len() == 0 {
        return None;
    }
    let mut e = [points[0][0], points[0][1], points[0][0], points[0][1]];
    let mut k: usize = 1;
    while k < points.len()
        invariant
            1 <= k <= points.len(),
            e == extent(points@, k as nat),
        decreases points.len() - k,
    {
        let p = points[k];
        e = [e[0].min(p[0]), e[1].min(p[1]), e[2].max(p[0]), e[3].max(p[1])];
        k = k + 1;
    }
    Some([e[0], e[1], e[2].minus(e[0]), e[3].minus(e[1])])
}

/// Path data as a show authors it: an SVG path string (`M 0 0 L 10 0 ...`), parsed once into
/// [`PathElement`]s.
#[derive(Debug, PartialEq)]
pub struct PathData {
    d: String,
    elements: Vec<PathElement>,
}

impl PathData {
    /// The path string as written.
    pub closed spec fn source(self) -> Seq<char> {
        self.d@
    }

    /// What it was parsed into.
    pub closed spec fn steps(self) -> Seq<PathElement> {
        self.elements@
    }

    /// Parse SVG path data: the commands `M L H V C S Q T A Z`, absolute and relative, with
    /// numbers separated by spaces or commas. Arcs (`A`) become cubic curves.
    pub fn parse(d: &str) -> (r: Result<PathData, String>)
        ensures
            match (r, parsed(d.spec_bytes())) {
                (Ok(path), Ok(elements)) => path.source() == d@ && path.steps() == elements,
                (Err(e), Err(problem)) => e@ == problem,
                _ => false,
            },
    {
        match run(d.as_bytes()) {
            Ok(elements) => Ok(PathData { d: owned(d), elements }),
            Err(e) => Err(e),
        }
    }

    /// The path string as written.
    pub fn as_str(&self) -> (r: &str)
        ensures
            r@ == self.source(),
    {
        self.d.as_str()
    }

    pub fn elements(&self) -> (r: &[PathElement])
        ensures
            r@ == self.steps(),
    {
        self.elements.as_slice()
    }
}

pub open spec fn separator(c: u8) -> bool {
    c == 0x20 || c == 0x09 || c == 0x0A || c == 0x0C || c == 0x0D || c == 0x2C
}

pub open spec fn is_digit(c: u8) -> bool {
    0x30 <= c <= 0x39
}

pub open spec fn is_sign(c: u8) -> bool {
    c == 0x2B || c == 0x2D
}

pub open spec fn is_lower(c: u8) -> bool {
    0x61 <= c <= 0x7A
}

pub open spec fn is_letter(c: u8) -> bool {
    is_lower(c) || 0x41 <= c <= 0x5A
}

/// The first byte from `pos` on that separates nothing.
pub open spec fn skipped(src: Seq<u8>, pos: int) -> int
    decreases src.len() - pos,
{
    if 0 <= pos < src.len() && separator(src[pos]) {
        skipped(src, pos + 1)
    } else {
        pos
    }
}

/// Where the characters of a number end.
pub open spec fn scanned(src: Seq<u8>, pos: int, digit: bool, dot: bool, exp: bool) -> int
    decreases src.len() - pos,
{
    if pos < 0 || pos >= src.len() {
        pos
    } else {
        let c = src[pos];
        if is_digit(c) {
            scanned(src, pos + 1, true, dot, exp)
        } else if c == 0x2E && !dot && !exp {
            scanned(src, pos + 1, digit, true, exp)
        } else if (c == 0x65 || c == 0x45) && digit && !exp {
            scanned(
                src,
                if pos + 1 < src.len() && is_sign(src[pos + 1]) {
                    pos + 2
                } else {
                    pos + 1
                },
                digit,
                dot,
                true,
            )
        } else {
            pos
        }
    }
}

/// Where a run of digits from `i` on ends.
pub open spec fn digits_end(src: Seq<u8>, i: int, to: int) -> int
    decreases to - i,
{
    if 0 <= i < to && is_digit(src[i]) {
        digits_end(src, i + 1, to)
    } else {
        i
    }
}

/// The number that a run of digits writes.
pub open spec fn amount(src: Seq<u8>, from: int, to: int) -> nat
    decreases to - from,
{
    if from >= to {
        0
    } else {
        10 * amount(src, from, to - 1) + (src[to - 1] - 0x30) as nat
    }
}

/// The decimal that some bytes write: its sign, its digits and its power of ten.
pub open spec fn decimal_in(src: Seq<u8>, from: int, to: int) -> Option<(bool, nat, int)> {
    let s = if from < to && is_sign(src[from]) {
        from + 1
    } else {
        from
    };
    let neg = from < to && src[from] == 0x2D;
    let i1 = digits_end(src, s, to);
    let dot = i1 < to && src[i1] == 0x2E;
    let f = if dot {
        i1 + 1
    } else {
        i1
    };
    let i2 = if dot {
        digits_end(src, f, to)
    } else {
        i1
    };
    let d = amount(src, s, i1) * pow10((i2 - f) as nat) + amount(src, f, i2);
    if i1 == s && i2 == f {
        None
    } else if i2 == to {
        Some((neg, d, -(i2 - f)))
    } else if src[i2] == 0x65 || src[i2] == 0x45 {
        let x = if i2 + 1 < to && is_sign(src[i2 + 1]) {
            i2 + 2
        } else {
            i2 + 1
        };
        let i3 = digits_end(src, x, to);
        if i3 == x || i3 != to {
            None
        } else {
            let e = amount(src, x, to) as int;
            Some(
                (
                    neg,
                    d,
                    (if src[i2 + 1] == 0x2D {
                        -e
                    } else {
                        e
                    }) - (i2 - f),
                ),
            )
        }
    } else {
        None
    }
}

/// A message about a place in the path data.
pub open spec fn at_byte(what: Seq<char>, pos: int) -> Seq<char> {
    what + decimal(pos as nat)
}

/// The number from `pos` on, and where it ends.
#[verifier::opaque]
pub open spec fn number_at(src: Seq<u8>, pos: int) -> Result<(Num, int), Seq<char>> {
    let start = skipped(src, pos);
    let first = if start < src.len() && is_sign(src[start]) {
        start + 1
    } else {
        start
    };
    let end = scanned(src, first, false, false, false);
    match decimal_in(src, start, end) {
        Some((neg, d, e)) => {
            let n = read_decimal(neg, d, e);
            if n.finite() {
                Ok((n, end))
            } else {
                Err(at_byte("expected a number at byte "@, start))
            }
        },
        None => Err(at_byte("expected a number at byte "@, start)),
    }
}

/// The arc flag from `pos` on, and where it ends.
pub open spec fn flag_at(src: Seq<u8>, pos: int) -> Result<(bool, int), Seq<char>> {
    let at = skipped(src, pos);
    if at < src.len() && src[at] == 0x30 {
        Ok((false, at + 1))
    } else if at < src.len() && src[at] == 0x31 {
        Ok((true, at + 1))
    } else {
        Err(at_byte("expected an arc flag (0 or 1) at byte "@, at))
    }
}

/// The point from `pos` on, and where it ends.
pub open spec fn point_at(src: Seq<u8>, pos: int, relative: bool, at: [Num; 2]) -> Result<
    ([Num; 2], int),
    Seq<char>,
> {
    match number_at(src, pos) {
        Err(e) => Err(e),
        Ok((x, mid)) => match number_at(src, mid) {
            Err(e) => Err(e),
            Ok((y, end)) => Ok(
                (
                    if relative {
                        [sum_of(at[0], x), sum_of(at[1], y)]
                    } else {
                        [x, y]
                    },
                    end,
                ),
            ),
        },
    }
}

/// Where a parser stands.
#[verifier::ext_equal]
pub ghost struct Pen {
    pub pos: int,
    pub out: Seq<PathElement>,
    /// Current point.
    pub at: [Num; 2],
    /// Start of the current subpath, where `Z` returns to.
    pub start: [Num; 2],
    /// Last control point, for the smooth curve commands.
    pub last_cubic: Option<[Num; 2]>,
    pub last_quad: Option<[Num; 2]>,
    /// The command that further numbers belong to.
    pub command: Option<u8>,
}

/// The last control point mirrored through the current point, or the current point.
pub open spec fn reflected(at: [Num; 2], last: Option<[Num; 2]>) -> [Num; 2] {
    match last {
        Some(c) => [
            sum_of(product_of(num(TWO), at[0]), opposite_of(c[0])),
            sum_of(product_of(num(TWO), at[1]), opposite_of(c[1])),
        ],
        None => at,
    }
}

impl Pen {
    pub open spec fn line_to(self, p: [Num; 2], pos: int) -> Pen {
        Pen {
            pos,
            out: self.out.push(PathElement::LineTo(p)),
            at: p,
            last_cubic: None,
            last_quad: None,
            ..self
        }
    }

    pub open spec fn cubic_to(self, c1: [Num; 2], c2: [Num; 2], p: [Num; 2], pos: int) -> Pen {
        Pen {
            pos,
            out: self.out.push(PathElement::CubicTo(c1, c2, p)),
            at: p,
            last_cubic: Some(c2),
            last_quad: None,
            ..self
        }
    }

    pub open spec fn quad_to(self, c: [Num; 2], p: [Num; 2], pos: int) -> Pen {
        Pen {
            pos,
            out: self.out.push(PathElement::QuadTo(c, p)),
            at: p,
            last_quad: Some(c),
            last_cubic: None,
            ..self
        }
    }

    pub open spec fn arc_to(self, arc: Arc, p: [Num; 2], pos: int) -> Pen {
        Pen {
            pos,
            out: self.out + arc_elements(self.at, arc, p),
            at: p,
            last_cubic: None,
            last_quad: None,
            ..self
        }
    }
}

/// The numbers of an arc command but for its end point.
#[derive(Clone, Copy, Debug, PartialEq, Eq, Structural)]
pub struct Arc {
    pub rx: Num,
    pub ry: Num,
    pub rotation: Num,
    pub large: bool,
    pub sweep: bool,
}

/// The angle from one vector to another.
pub open spec fn angle_of(ux: Num, uy: Num, vx: Num, vy: Num) -> Num {
    let dot = sum_of(product_of(ux, vx), product_of(uy, vy));
    let len = product_of(
        sqrt_of(sum_of(product_of(ux, ux), product_of(uy, uy))),
        sqrt_of(sum_of(product_of(vx, vx), product_of(vy, vy))),
    );
    let a = acos_of(clamp_of(quotient_of(dot, len), opposite_of(num(ONE)), num(ONE)));
    if less(sum_of(product_of(ux, vy), opposite_of(product_of(uy, vx))), num(0)) {
        opposite_of(a)
    } else {
        a
    }
}

fn angle(ux: Num, uy: Num, vx: Num, vy: Num) -> (r: Num)
    ensures
        r == angle_of(ux, uy, vx, vy),
{
    let dot = ux.times(vx).plus(uy.times(vy));
    let len = sqrt(ux.times(ux).plus(uy.times(uy))).times(sqrt(vx.times(vx).plus(vy.times(vy))));
    let a = acos(dot.over(len).clamp(num(ONE).neg(), num(ONE)));
    if ux.times(vy).minus(uy.times(vx)).lt(num(0)) {
        a.neg()
    } else {
        a
    }
}

/// An ellipse's arc: its center, radii, rotation, start angle and the angle of each of its
/// pieces.
#[derive(Clone, Copy, Debug, PartialEq, Eq, Structural)]
pub struct Sweep {
    pub cx: Num,
    pub cy: Num,
    pub rx: Num,
    pub ry: Num,
    pub sin: Num,
    pub cos: Num,
    pub theta: Num,
    pub delta: Num,
}

/// The arc between two points, by the endpoint to center conversion.
#[verifier::opaque]
pub open spec fn sweep_of(at: [Num; 2], arc: Arc, p: [Num; 2]) -> Sweep {
    let ux1 = at[0];
    let uy1 = at[1];
    let ux2 = p[0];
    let uy2 = p[1];
    let (sin, cos) = sin_cos_of(radians(arc.rotation));
    // The midpoint of the chord in the ellipse's own frame.
    let dx = quotient_of(sum_of(ux1, opposite_of(ux2)), num(TWO));
    let dy = quotient_of(sum_of(uy1, opposite_of(uy2)), num(TWO));
    let xp = sum_of(product_of(cos, dx), product_of(sin, dy));
    let yp = sum_of(product_of(opposite_of(sin), dx), product_of(cos, dy));
    // Radii too small for the chord are scaled up.
    let rx0 = abs_of(arc.rx);
    let ry0 = abs_of(arc.ry);
    let lambda = sum_of(
        quotient_of(product_of(xp, xp), product_of(rx0, rx0)),
        quotient_of(product_of(yp, yp), product_of(ry0, ry0)),
    );
    let grow = less(num(ONE), lambda);
    let rx = if grow {
        product_of(rx0, sqrt_of(lambda))
    } else {
        rx0
    };
    let ry = if grow {
        product_of(ry0, sqrt_of(lambda))
    } else {
        ry0
    };
    // The center in that frame.
    let top = max_of(
        sum_of(
            sum_of(
                product_of(product_of(product_of(rx, rx), ry), ry),
                opposite_of(product_of(product_of(product_of(rx, rx), yp), yp)),
            ),
            opposite_of(product_of(product_of(product_of(ry, ry), xp), xp)),
        ),
        num(0),
    );
    let bottom = sum_of(
        product_of(product_of(product_of(rx, rx), yp), yp),
        product_of(product_of(product_of(ry, ry), xp), xp),
    );
    let raw = if equal(bottom, num(0)) {
        num(0)
    } else {
        sqrt_of(quotient_of(top, bottom))
    };
    let coef = if arc.large == arc.sweep {
        opposite_of(raw)
    } else {
        raw
    };
    let cxp = quotient_of(product_of(product_of(coef, rx), yp), ry);
    let cyp = quotient_of(product_of(product_of(opposite_of(coef), ry), xp), rx);
    // The start angle and sweep.
    let sx = quotient_of(sum_of(xp, opposite_of(cxp)), rx);
    let sy = quotient_of(sum_of(yp, opposite_of(cyp)), ry);
    let theta = angle_of(num(ONE), num(0), sx, sy);
    let turn = angle_of(
        sx,
        sy,
        quotient_of(sum_of(opposite_of(xp), opposite_of(cxp)), rx),
        quotient_of(sum_of(opposite_of(yp), opposite_of(cyp)), ry),
    );
    let delta = if !arc.sweep && less(num(0), turn) {
        sum_of(turn, opposite_of(num(TURN)))
    } else if arc.sweep && less(turn, num(0)) {
        sum_of(turn, num(TURN))
    } else {
        turn
    };
    Sweep {
        cx: sum_of(
            sum_of(product_of(cos, cxp), opposite_of(product_of(sin, cyp))),
            quotient_of(sum_of(ux1, ux2), num(TWO)),
        ),
        cy: sum_of(
            sum_of(product_of(sin, cxp), product_of(cos, cyp)),
            quotient_of(sum_of(uy1, uy2), num(TWO)),
        ),
        rx,
        ry,
        sin,
        cos,
        theta,
        delta,
    }
}

fn sweep_between(at: [Num; 2], arc: Arc, p: [Num; 2]) -> (r: Sweep)
    ensures
        r == sweep_of(at, arc, p),
{
    proof {
        reveal(sweep_of);
    }
    let ux1 = at[0];
    let uy1 = at[1];
    let ux2 = p[0];
    let uy2 = p[1];
    let (sin, cos) = sin_cos(to_radians(arc.rotation));
    // The midpoint of the chord in the ellipse's own frame.
    let dx = ux1.minus(ux2).over(num(TWO));
    let dy = uy1.minus(uy2).over(num(TWO));
    let xp = cos.times(dx).plus(sin.times(dy));
    let yp = sin.neg().times(dx).plus(cos.times(dy));
    // Radii too small for the chord are scaled up.
    let mut rx = arc.rx.abs();
    let mut ry = arc.ry.abs();
    let lambda = xp.times(xp).over(rx.times(rx)).plus(yp.times(yp).over(ry.times(ry)));
    if num(ONE).lt(lambda) {
        rx = rx.times(sqrt(lambda));
        ry = ry.times(sqrt(lambda));
    }
    // The center in that frame.
    let top = rx.times(rx).times(ry).times(ry).minus(rx.times(rx).times(yp).times(yp)).minus(ry.times(ry).times(xp).times(xp)).max(
        num(0),
    );
    let bottom = rx.times(rx).times(yp).times(yp).plus(ry.times(ry).times(xp).times(xp));
    let mut coef = if bottom.same(num(0)) {
        num(0)
    } else {
        sqrt(top.over(bottom))
    };
    if arc.large == arc.sweep {
        coef = coef.neg();
    }
    let cxp = coef.times(rx).times(yp).over(ry);
    let cyp = coef.neg().times(ry).times(xp).over(rx);
    // The start angle and sweep.
    let sx = xp.minus(cxp).over(rx);
    let sy = yp.minus(cyp).over(ry);
    let theta = angle(num(ONE), num(0), sx, sy);
    let mut delta = angle(sx, sy, xp.neg().minus(cxp).over(rx), yp.neg().minus(cyp).over(ry));
    if !arc.sweep && num(0).lt(delta) {
        delta = delta.minus(num(TURN));
    } else if arc.sweep && delta.lt(num(0)) {
        delta = delta.plus(num(TURN));
    }
    Sweep {
        cx: cos.times(cxp).minus(sin.times(cyp)).plus(ux1.plus(ux2).over(num(TWO))),
        cy: sin.times(cxp).plus(cos.times(cyp)).plus(uy1.plus(uy2).over(num(TWO))),
        rx,
        ry,
        sin,
        cos,
        theta,
        delta,
    }
}

impl Sweep {
    /// Cubics of at most a quarter turn each.
    pub open spec fn pieces(self) -> nat {
        let turns = quotient_of(abs_of(self.delta), num(QUARTER));
        to_u64_of(
            max_of(opposite_of(crate::num::floor_of(opposite_of(turns))), num(ONE)),
        ) as nat
    }

    pub open spec fn step(self) -> Num {
        quotient_of(self.delta, from_int(self.pieces() as int))
    }

    /// How far along its tangents a piece's control points sit.
    pub open spec fn alpha(self) -> Num {
        let step = self.step();
        let t = tan_of(quotient_of(step, num(TWO)));
        let sine = sin_cos_of(step).0;
        quotient_of(
            product_of(
                sine,
                sum_of(
                    sqrt_of(sum_of(num(FOUR), product_of(product_of(num(THREE), t), t))),
                    opposite_of(num(ONE)),
                ),
            ),
            num(THREE),
        )
    }

    /// The angle at which piece `i` starts.
    pub open spec fn angle(self, i: nat) -> Num
        decreases i,
    {
        if i == 0 {
            self.theta
        } else {
            sum_of(self.angle((i - 1) as nat), self.step())
        }
    }

    pub open spec fn point(self, a: Num) -> [Num; 2] {
        let (sa, ca) = sin_cos_of(a);
        [
            sum_of(
                sum_of(self.cx, product_of(product_of(self.rx, ca), self.cos)),
                opposite_of(product_of(product_of(self.ry, sa), self.sin)),
            ),
            sum_of(
                sum_of(self.cy, product_of(product_of(self.rx, ca), self.sin)),
                product_of(product_of(self.ry, sa), self.cos),
            ),
        ]
    }

    pub open spec fn tangent(self, a: Num) -> [Num; 2] {
        let (sa, ca) = sin_cos_of(a);
        [
            sum_of(
                product_of(product_of(opposite_of(self.rx), sa), self.cos),
                opposite_of(product_of(product_of(self.ry, ca), self.sin)),
            ),
            sum_of(
                product_of(product_of(opposite_of(self.rx), sa), self.sin),
                product_of(product_of(self.ry, ca), self.cos),
            ),
        ]
    }

    /// The cubic of piece `i`; the last one ends on the end point itself.
    pub open spec fn piece(self, i: nat, p: [Num; 2]) -> PathElement {
        let a = self.angle(i);
        let b = sum_of(a, self.step());
        let alpha = self.alpha();
        let p0 = self.point(a);
        let p3 = if i + 1 == self.pieces() {
            p
        } else {
            self.point(b)
        };
        let t0 = self.tangent(a);
        let t3 = self.tangent(b);
        PathElement::CubicTo(
            [sum_of(p0[0], product_of(alpha, t0[0])), sum_of(p0[1], product_of(alpha, t0[1]))],
            [
                sum_of(p3[0], opposite_of(product_of(alpha, t3[0]))),
                sum_of(p3[1], opposite_of(product_of(alpha, t3[1]))),
            ],
            p3,
        )
    }

    fn point_of(&self, a: Num) -> (r: [Num; 2])
        ensures
            r == self.point(a),
    {
        let (sa, ca) = sin_cos(a);
        [
            self.cx.plus(self.rx.times(ca).times(self.cos)).minus(
                self.ry.times(sa).times(self.sin),
            ),
            self.cy.plus(self.rx.times(ca).times(self.sin)).plus(self.ry.times(sa).times(self.cos)),
        ]
    }

    fn tangent_of(&self, a: Num) -> (r: [Num; 2])
        ensures
            r == self.tangent(a),
    {
        let (sa, ca) = sin_cos(a);
        [
            self.rx.neg().times(sa).times(self.cos).minus(self.ry.times(ca).times(self.sin)),
            self.rx.neg().times(sa).times(self.sin).plus(self.ry.times(ca).times(self.cos)),
        ]
    }
}

/// The elements of an arc: one cubic per quarter turn or less, or a line where there is no
/// ellipse.
pub open spec fn arc_elements(at: [Num; 2], arc: Arc, p: [Num; 2]) -> Seq<PathElement> {
    if (equal(at[0], p[0]) && equal(at[1], p[1])) || equal(arc.rx, num(0)) || equal(
        arc.ry,
        num(0),
    ) {
        seq![PathElement::LineTo(p)]
    } else {
        let sweep = sweep_of(at, arc, p);
        Seq::new(sweep.pieces(), |i: int| sweep.piece(i as nat, p))
    }
}

/// An elliptical arc as one cubic per quarter turn or less.
fn arc_to(at: [Num; 2], arc: Arc, p: [Num; 2], out: &mut Vec<PathElement>)
    ensures
        final(out)@ == old(out)@ + arc_elements(at, arc, p),
{
    let ghost was = out@;
    if (at[0].same(p[0]) && at[1].same(p[1])) || arc.rx.same(num(0)) || arc.ry.same(num(0)) {
        out.push(PathElement::LineTo(p));
        assert(out@ =~= was + arc_elements(at, arc, p));
        return ;
    }
    let sweep = sweep_between(at, arc, p);
    let pieces: u64 = sweep.delta.abs().over(num(QUARTER)).ceil().max(num(ONE)).to_u64();
    let step = sweep.delta.over(Num::from_u64(pieces));
    let t = tan(step.over(num(TWO)));
    let (sine, _) = sin_cos(step);
    let alpha = sine.times(sqrt(num(FOUR).plus(num(THREE).times(t).times(t))).minus(num(ONE))).over(
        num(THREE),
    );
    let ghost all = arc_elements(at, arc, p);
    let mut a = sweep.theta;
    let mut i: u64 = 0;
    assert(was + all.take(0) =~= was);
    while i < pieces
        invariant
            i <= pieces,
            pieces == sweep.pieces(),
            step == sweep.step(),
            alpha == sweep.alpha(),
            a == sweep.angle(i as nat),
            all == Seq::new(sweep.pieces(), |i: int| sweep.piece(i as nat, p)),
            out@ == was + all.take(i as int),
        decreases pieces - i,
    {
        let b = a.plus(step);
        let p0 = sweep.point_of(a);
        let p3 = if i + 1 == pieces {
            p
        } else {
            sweep.point_of(b)
        };
        let t0 = sweep.tangent_of(a);
        let t3 = sweep.tangent_of(b);
        let c1 = [p0[0].plus(alpha.times(t0[0])), p0[1].plus(alpha.times(t0[1]))];
        let c2 = [p3[0].minus(alpha.times(t3[0])), p3[1].minus(alpha.times(t3[1]))];
        out.push(PathElement::CubicTo(c1, c2, p3));
        assert(all[i as int] == PathElement::CubicTo(c1, c2, p3));
        a = b;
        i = i + 1;
        assert(out@ =~= was + all.take(i as int));
    }
    assert(all.take(i as int) =~= all);
}

/// An upper case letter.
pub open spec fn upper(c: u8) -> u8 {
    if is_lower(c) {
        (c - 32) as u8
    } else {
        c
    }
}

/// What a character shows as inside quotes.
pub uninterp spec fn quoted_character(c: char) -> Seq<char>;

/// `format!` with `{:?}` of a `char`: the character in single quotes, escaped. The text is a
/// function of the character alone.
#[verifier::external_body]
fn quoted_char(c: char) -> (r: String)
    ensures
        r@ == quoted_character(c),
{
    format!("{:?}", c)
}

/// What the numbers from `pos` on do as the arguments of a command.
#[verifier::opaque]
pub open spec fn obeyed(src: Seq<u8>, p: Pen, cmd: u8) -> Result<Pen, Seq<char>> {
    let relative = is_lower(cmd);
    let key = upper(cmd);
    if key == 0x4D {
        match point_at(src, p.pos, relative, p.at) {
            Err(e) => Err(e),
            Ok((to, pos)) => Ok(
                Pen {
                    pos,
                    out: p.out.push(PathElement::MoveTo(to)),
                    at: to,
                    start: to,
                    last_cubic: None,
                    last_quad: None,
                    // Further pairs after a move are lines.
                    command: Some(
                        if relative {
                            0x6Cu8
                        } else {
                            0x4Cu8
                        },
                    ),
                },
            ),
        }
    } else if key == 0x4C {
        match point_at(src, p.pos, relative, p.at) {
            Err(e) => Err(e),
            Ok((to, pos)) => Ok(p.line_to(to, pos)),
        }
    } else if key == 0x48 {
        match number_at(src, p.pos) {
            Err(e) => Err(e),
            Ok((x, pos)) => Ok(
                p.line_to(
                    [
                        if relative {
                            sum_of(p.at[0], x)
                        } else {
                            x
                        },
                        p.at[1],
                    ],
                    pos,
                ),
            ),
        }
    } else if key == 0x56 {
        match number_at(src, p.pos) {
            Err(e) => Err(e),
            Ok((y, pos)) => Ok(
                p.line_to(
                    [
                        p.at[0],
                        if relative {
                            sum_of(p.at[1], y)
                        } else {
                            y
                        },
                    ],
                    pos,
                ),
            ),
        }
    } else if key == 0x43 {
        match point_at(src, p.pos, relative, p.at) {
            Err(e) => Err(e),
            Ok((c1, a)) => match point_at(src, a, relative, p.at) {
                Err(e) => Err(e),
                Ok((c2, b)) => match point_at(src, b, relative, p.at) {
                    Err(e) => Err(e),
                    Ok((to, pos)) => Ok(p.cubic_to(c1, c2, to, pos)),
                },
            },
        }
    } else if key == 0x53 {
        match point_at(src, p.pos, relative, p.at) {
            Err(e) => Err(e),
            Ok((c2, b)) => match point_at(src, b, relative, p.at) {
                Err(e) => Err(e),
                Ok((to, pos)) => Ok(p.cubic_to(reflected(p.at, p.last_cubic), c2, to, pos)),
            },
        }
    } else if key == 0x51 {
        match point_at(src, p.pos, relative, p.at) {
            Err(e) => Err(e),
            Ok((c, b)) => match point_at(src, b, relative, p.at) {
                Err(e) => Err(e),
                Ok((to, pos)) => Ok(p.quad_to(c, to, pos)),
            },
        }
    } else if key == 0x54 {
        match point_at(src, p.pos, relative, p.at) {
            Err(e) => Err(e),
            Ok((to, pos)) => Ok(p.quad_to(reflected(p.at, p.last_quad), to, pos)),
        }
    } else if key == 0x41 {
        match arc_at(src, p.pos) {
            Err(e) => Err(e),
            Ok((arc, b)) => match point_at(src, b, relative, p.at) {
                Err(e) => Err(e),
                Ok((to, pos)) => Ok(p.arc_to(arc, to, pos)),
            },
        }
    } else if key == 0x5A {
        Ok(
            Pen {
                out: p.out.push(PathElement::Close),
                at: p.start,
                last_cubic: None,
                last_quad: None,
                ..p
            },
        )
    } else {
        Err("unknown path command "@ + quoted_character(key as char))
    }
}

/// The numbers of an arc command from `pos` on, and where they end.
pub open spec fn arc_at(src: Seq<u8>, pos: int) -> Result<(Arc, int), Seq<char>> {
    match number_at(src, pos) {
        Err(e) => Err(e),
        Ok((rx, a)) => match number_at(src, a) {
            Err(e) => Err(e),
            Ok((ry, b)) => match number_at(src, b) {
                Err(e) => Err(e),
                Ok((rotation, c)) => match flag_at(src, c) {
                    Err(e) => Err(e),
                    Ok((large, d)) => match flag_at(src, d) {
                        Err(e) => Err(e),
                        Ok((sweep, end)) => Ok((Arc { rx, ry, rotation, large, sweep }, end)),
                    },
                },
            },
        },
    }
}

/// One command, or one more set of arguments for the last one; `p` stands on it.
pub open spec fn stepped(src: Seq<u8>, p: Pen) -> Result<Pen, Seq<char>> {
    let c = src[p.pos];
    let letter = is_letter(c);
    let told = match p.command {
        Some(cmd) => cmd != 0x5A && cmd != 0x7A,
        None => false,
    };
    if !letter && !told {
        Err(at_byte("expected a command at byte "@, p.pos))
    } else if !letter && !(is_digit(c) || is_sign(c) || c == 0x2E) {
        Err(at_byte("unexpected "@ + quoted_character(c as char) + " at byte "@, p.pos))
    } else {
        let cmd = if letter {
            c
        } else {
            p.command->0
        };
        let there = if letter {
            Pen { pos: p.pos + 1, command: Some(c), ..p }
        } else {
            p
        };
        if p.out.len() == 0 && upper(cmd) != 0x4D {
            Err("path data must start with M"@)
        } else {
            obeyed(src, there, cmd)
        }
    }
}

/// What the rest of the path data is parsed into.
pub open spec fn parsed_from(src: Seq<u8>, p: Pen) -> Result<Seq<PathElement>, Seq<char>>
    decreases src.len() - p.pos,
{
    let pos = skipped(src, p.pos);
    if pos < 0 || pos >= src.len() {
        if p.out.len() == 0 {
            Err("path data is empty"@)
        } else {
            Ok(p.out)
        }
    } else {
        match stepped(src, Pen { pos, ..p }) {
            Err(e) => Err(e),
            // every step takes something off the path data
            Ok(next) => if p.pos < next.pos <= src.len() {
                parsed_from(src, next)
            } else {
                Err(Seq::empty())
            },
        }
    }
}

/// What path data is parsed into.
pub open spec fn parsed(src: Seq<u8>) -> Result<Seq<PathElement>, Seq<char>> {
    parsed_from(
        src,
        Pen {
            pos: 0,
            out: Seq::empty(),
            at: [num(0), num(0)],
            start: [num(0), num(0)],
            last_cubic: None,
            last_quad: None,
            command: None,
        },
    )
}

proof fn lemma_skipped(src: Seq<u8>, pos: int)
    requires
        0 <= pos <= src.len(),
    ensures
        pos <= skipped(src, pos) <= src.len(),
    decreases src.len() - pos,
{
    if pos < src.len() && separator(src[pos]) {
        lemma_skipped(src, pos + 1);
    }
}

proof fn lemma_scanned(src: Seq<u8>, pos: int, digit: bool, dot: bool, exp: bool)
    requires
        0 <= pos <= src.len(),
    ensures
        pos <= scanned(src, pos, digit, dot, exp) <= src.len(),
    decreases src.len() - pos,
{
    if pos < src.len() {
        let c = src[pos];
        if is_digit(c) {
            lemma_scanned(src, pos + 1, true, dot, exp);
        } else if c == 0x2E && !dot && !exp {
            lemma_scanned(src, pos + 1, digit, true, exp);
        } else if (c == 0x65 || c == 0x45) && digit && !exp {
            lemma_scanned(
                src,
                if pos + 1 < src.len() && is_sign(src[pos + 1]) {
                    pos + 2
                } else {
                    pos + 1
                },
                digit,
                dot,
                true,
            );
        }
    }
}

proof fn lemma_digits_end(src: Seq<u8>, i: int, to: int)
    requires
        0 <= i <= to <= src.len(),
    ensures
        i <= digits_end(src, i, to) <= to,
        forall|k: int| i <= k < digits_end(src, i, to) ==> is_digit(#[trigger] src[k]),
    decreases to - i,
{
    if i < to && is_digit(src[i]) {
        lemma_digits_end(src, i + 1, to);
    }
}

/// A number takes something off the path data.
proof fn lemma_number_advances(src: Seq<u8>, pos: int)
    requires
        0 <= pos <= src.len(),
    ensures
        number_at(src, pos) matches Ok((n, end)) ==> pos < end <= src.len(),
{
    reveal(number_at);
    lemma_skipped(src, pos);
    let start = skipped(src, pos);
    let first = if start < src.len() && is_sign(src[start]) {
        start + 1
    } else {
        start
    };
    lemma_scanned(src, first, false, false, false);
    let end = scanned(src, first, false, false, false);
    if end == start {
        lemma_digits_end(src, start, end);
        assert(decimal_in(src, start, end) is None);
    }
}

proof fn lemma_flag_advances(src: Seq<u8>, pos: int)
    requires
        0 <= pos <= src.len(),
    ensures
        flag_at(src, pos) matches Ok((n, end)) ==> pos < end <= src.len(),
{
    lemma_skipped(src, pos);
}

fn skip_separators(src: &[u8], pos: usize) -> (r: usize)
    requires
        pos <= src.len(),
    ensures
        r == skipped(src@, pos as int),
        pos <= r <= src.len(),
{
    let mut at: usize = pos;
    while at < src.len() && (src[at] == 0x20 || src[at] == 0x09 || src[at] == 0x0A || src[at]
        == 0x0C || src[at] == 0x0D || src[at] == 0x2C)
        invariant
            pos <= at <= src.len(),
            skipped(src@, pos as int) == skipped(src@, at as int),
        decreases src.len() - at,
    {
        at = at + 1;
    }
    at
}

fn scan(src: &[u8], from: usize) -> (r: usize)
    requires
        from <= src.len(),
    ensures
        r == scanned(src@, from as int, false, false, false),
        from <= r <= src.len(),
{
    let mut pos: usize = from;
    let mut digit = false;
    let mut dot = false;
    let mut exp = false;
    loop
        invariant
            from <= pos <= src.len(),
            scanned(src@, from as int, false, false, false) == scanned(
                src@,
                pos as int,
                digit,
                dot,
                exp,
            ),
        decreases src.len() - pos,
    {
        if pos >= src.len() {
            return pos;
        }
        let c: u8 = src[pos];
        if 0x30 <= c && c <= 0x39 {
            digit = true;
        } else if c == 0x2E && !dot && !exp {
            dot = true;
        } else if (c == 0x65 || c == 0x45) && digit && !exp {
            exp = true;
            if pos + 1 < src.len() && (src[pos + 1] == 0x2B || src[pos + 1] == 0x2D) {
                pos = pos + 1;
            }
        } else {
            return pos;
        }
        pos = pos + 1;
    }
}

proof fn lemma_amount_small(src: Seq<u8>, from: int, to: int)
    requires
        0 <= from <= to <= src.len(),
        forall|k: int| from <= k < to ==> is_digit(#[trigger] src[k]),
    ensures
        amount(src, from, to) < pow10((to - from) as nat),
    decreases to - from,
{
    if from < to {
        lemma_amount_small(src, from, to - 1);
        assert(is_digit(src[to - 1]));
        let p = pow10((to - 1 - from) as nat);
        assert(pow10((to - from) as nat) == 10 * p);
    }
}

/// Adds the digits from `from` on to a number; where they end.
fn take_digits(src: &[u8], from: usize, to: usize, n: &mut Big) -> (end: usize)
    requires
        from <= to <= src.len(),
    ensures
        end == digits_end(src@, from as int, to as int),
        from <= end <= to,
        final(n)@ == old(n)@ * pow10((end - from) as nat) + amount(
            src@,
            from as int,
            end as int,
        ),
{
    let ghost was = n@;
    let mut i: usize = from;
    assert(was * pow10(0) == was) by (nonlinear_arith)
        requires
            pow10(0) == 1,
    ;
    while i < to && 0x30 <= src[i] && src[i] <= 0x39
        invariant
            from <= i <= to <= src.len(),
            digits_end(src@, from as int, to as int) == digits_end(src@, i as int, to as int),
            n@ == was * pow10((i - from) as nat) + amount(src@, from as int, i as int),
        decreases to - i,
    {
        let ghost here = n@;
        let ghost p = pow10((i - from) as nat);
        let ghost a = amount(src@, from as int, i as int);
        n.scale(10, (src[i] - 0x30) as u32);
        proof {
            assert(pow10((i + 1 - from) as nat) == 10 * p);
            assert((was * p + a) * 10 == was * (10 * p) + 10 * a) by (nonlinear_arith);
        }
        i = i + 1;
    }
    i
}

/// Past this an exponent is far enough out.
pub const FAR_EXPONENT: i128 = 0x1_0000_0000_0000_0000_0000_0000;

/// The exponent from `from` on, held at some far number; where it ends.
fn take_exponent(src: &[u8], from: usize, to: usize) -> (r: (i128, usize))
    requires
        from <= to <= src.len(),
    ensures
        r.1 == digits_end(src@, from as int, to as int),
        from <= r.1 <= to,
        0 <= r.0 < 10 * FAR_EXPONENT + 10,
        r.0 < FAR_EXPONENT ==> r.0 == amount(src@, from as int, r.1 as int),
        r.0 >= FAR_EXPONENT ==> amount(src@, from as int, r.1 as int) >= FAR_EXPONENT,
{
    let mut e: i128 = 0;
    let mut i: usize = from;
    while i < to && 0x30 <= src[i] && src[i] <= 0x39
        invariant
            from <= i <= to <= src.len(),
            digits_end(src@, from as int, to as int) == digits_end(src@, i as int, to as int),
            0 <= e < 10 * FAR_EXPONENT + 10,
            e < FAR_EXPONENT ==> e == amount(src@, from as int, i as int),
            e >= FAR_EXPONENT ==> amount(src@, from as int, i as int) >= FAR_EXPONENT,
        decreases to - i,
    {
        if e < FAR_EXPONENT {
            e = 10 * e + (src[i] - 0x30) as i128;
        }
        i = i + 1;
    }
    (e, i)
}

/// The decimal that some bytes write.
#[verifier::spinoff_prover]
#[verifier::rlimit(60)]
fn parse_decimal(src: &[u8], from: usize, to: usize) -> (r: Option<Num>)
    requires
        from <= to <= src.len(),
    ensures
        match decimal_in(src@, from as int, to as int) {
            Some((neg, d, e)) => r == Some(read_decimal(neg, d, e)),
            None => r is None,
        },
{
    let ghost bytes = src@;
    let neg = from < to && src[from] == 0x2D;
    let s: usize = if from < to && (src[from] == 0x2B || src[from] == 0x2D) {
        from + 1
    } else {
        from
    };
    let mut d = Big::from_u64(0);
    let i1: usize = take_digits(src, s, to, &mut d);
    proof {
        assert(0 * pow10((i1 - s) as nat) == 0) by (nonlinear_arith);
        lemma_digits_end(bytes, s as int, to as int);
        lemma_amount_small(bytes, s as int, i1 as int);
    }
    let dot = i1 < to && src[i1] == 0x2E;
    let f: usize = if dot {
        i1 + 1
    } else {
        i1
    };
    let ghost whole = d@;
    let i2: usize = if dot {
        take_digits(src, f, to, &mut d)
    } else {
        i1
    };
    let digits: u64 = (i1 - s) as u64 + (i2 - f) as u64;
    proof {
        if dot {
            lemma_digits_end(bytes, f as int, to as int);
            lemma_amount_small(bytes, f as int, i2 as int);
        } else {
            assert(whole * pow10(0) == whole) by (nonlinear_arith)
                requires
                    pow10(0) == 1,
            ;
        }
        let a = pow10((i1 - s) as nat);
        let b = pow10((i2 - f) as nat);
        crate::decimal::lemma_pow10_adds((i1 - s) as nat, (i2 - f) as nat);
        assert(d@ < a * b) by (nonlinear_arith)
            requires
                d@ == whole * b + amount(bytes, f as int, i2 as int),
                whole + 1 <= a,
                amount(bytes, f as int, i2 as int) < b,
        ;
    }
    if i1 == s && i2 == f {
        return None;
    }
    let shift: i128 = (i2 - f) as i128;
    if i2 == to {
        return Some(from_digits(neg, &d, digits, -shift));
    }
    if src[i2] != 0x65 && src[i2] != 0x45 {
        return None;
    }
    let x: usize = if i2 + 1 < to && (src[i2 + 1] == 0x2B || src[i2 + 1] == 0x2D) {
        i2 + 2
    } else {
        i2 + 1
    };
    let (e, i3) = take_exponent(src, x, to);
    if i3 == x || i3 != to {
        return None;
    }
    let minus = src[i2 + 1] == 0x2D;
    let power: i128 = if minus {
        -e - shift
    } else {
        e - shift
    };
    proof {
        let truth = amount(bytes, x as int, to as int) as int;
        let exact = if minus {
            -truth
        } else {
            truth
        } - shift;
        if e >= FAR_EXPONENT {
            lemma_decimal_same(neg, d@, digits as nat, power as int, exact);
        }
    }
    Some(from_digits(neg, &d, digits, power))
}

fn message_at(what: &str, pos: usize) -> (r: String)
    ensures
        r@ == at_byte(what@, pos as int),
{
    joined(what, decimal_of(pos as u64).as_str())
}

fn number(src: &[u8], pos: usize) -> (r: Result<(Num, usize), String>)
    requires
        pos <= src.len(),
    ensures
        match (r, number_at(src@, pos as int)) {
            (Ok((n, end)), Ok((m, to))) => n == m && end == to && pos < end <= src.len(),
            (Err(e), Err(problem)) => e@ == problem,
            _ => false,
        },
{
    proof {
        lemma_number_advances(src@, pos as int);
        reveal(number_at);
    }
    let start: usize = skip_separators(src, pos);
    let first: usize = if start < src.len() && (src[start] == 0x2B || src[start] == 0x2D) {
        start + 1
    } else {
        start
    };
    let end: usize = scan(src, first);
    match parse_decimal(src, start, end) {
        Some(n) => {
            if n.is_finite() {
                Ok((n, end))
            } else {
                Err(message_at("expected a number at byte ", start))
            }
        },
        None => Err(message_at("expected a number at byte ", start)),
    }
}

/// An arc flag: a single `0` or `1`, which may run into the next number.
fn flag(src: &[u8], pos: usize) -> (r: Result<(bool, usize), String>)
    requires
        pos <= src.len(),
    ensures
        match (r, flag_at(src@, pos as int)) {
            (Ok((n, end)), Ok((m, to))) => n == m && end == to && pos < end <= src.len(),
            (Err(e), Err(problem)) => e@ == problem,
            _ => false,
        },
{
    proof {
        lemma_flag_advances(src@, pos as int);
    }
    let at: usize = skip_separators(src, pos);
    if at < src.len() && src[at] == 0x30 {
        Ok((false, at + 1))
    } else if at < src.len() && src[at] == 0x31 {
        Ok((true, at + 1))
    } else {
        Err(message_at("expected an arc flag (0 or 1) at byte ", at))
    }
}

fn point(src: &[u8], pos: usize, relative: bool, at: [Num; 2]) -> (r: Result<
    ([Num; 2], usize),
    String,
>)
    requires
        pos <= src.len(),
    ensures
        match (r, point_at(src@, pos as int, relative, at)) {
            (Ok((n, end)), Ok((m, to))) => n == m && end == to && pos < end <= src.len(),
            (Err(e), Err(problem)) => e@ == problem,
            _ => false,
        },
{
    match number(src, pos) {
        Err(e) => Err(e),
        Ok((x, mid)) => match number(src, mid) {
            Err(e) => Err(e),
            Ok((y, end)) => {
                if relative {
                    Ok(([at[0].plus(x), at[1].plus(y)], end))
                } else {
                    Ok(([x, y], end))
                }
            },
        },
    }
}

fn arc(src: &[u8], pos: usize) -> (r: Result<(Arc, usize), String>)
    requires
        pos <= src.len(),
    ensures
        match (r, arc_at(src@, pos as int)) {
            (Ok((n, end)), Ok((m, to))) => n == m && end == to && pos < end <= src.len(),
            (Err(e), Err(problem)) => e@ == problem,
            _ => false,
        },
{
    match number(src, pos) {
        Err(e) => Err(e),
        Ok((rx, a)) => match number(src, a) {
            Err(e) => Err(e),
            Ok((ry, b)) => match number(src, b) {
                Err(e) => Err(e),
                Ok((rotation, c)) => match flag(src, c) {
                    Err(e) => Err(e),
                    Ok((large, d)) => match flag(src, d) {
                        Err(e) => Err(e),
                        Ok((sweep, end)) => Ok((Arc { rx, ry, rotation, large, sweep }, end)),
                    },
                },
            },
        },
    }
}

/// Where the parser stands.
struct Parser {
    pos: usize,
    out: Vec<PathElement>,
    at: [Num; 2],
    start: [Num; 2],
    last_cubic: Option<[Num; 2]>,
    last_quad: Option<[Num; 2]>,
    command: Option<u8>,
}

impl View for Parser {
    type V = Pen;

    closed spec fn view(&self) -> Pen {
        Pen {
            pos: self.pos as int,
            out: self.out@,
            at: self.at,
            start: self.start,
            last_cubic: self.last_cubic,
            last_quad: self.last_quad,
            command: self.command,
        }
    }
}

fn reflect(at: [Num; 2], last: Option<[Num; 2]>) -> (r: [Num; 2])
    ensures
        r == reflected(at, last),
{
    match last {
        Some(c) => [
            num(TWO).times(at[0]).minus(c[0]),
            num(TWO).times(at[1]).minus(c[1]),
        ],
        None => at,
    }
}

impl Parser {
    fn line_to(&mut self, p: [Num; 2], pos: usize)
        ensures
            final(self)@ == old(self)@.line_to(p, pos as int),
    {
        self.out.push(PathElement::LineTo(p));
        self.at = p;
        self.last_cubic = None;
        self.last_quad = None;
        self.pos = pos;
    }

    fn cubic_to(&mut self, c1: [Num; 2], c2: [Num; 2], p: [Num; 2], pos: usize)
        ensures
            final(self)@ == old(self)@.cubic_to(c1, c2, p, pos as int),
    {
        self.out.push(PathElement::CubicTo(c1, c2, p));
        self.at = p;
        self.last_cubic = Some(c2);
        self.last_quad = None;
        self.pos = pos;
    }

    fn quad_to(&mut self, c: [Num; 2], p: [Num; 2], pos: usize)
        ensures
            final(self)@ == old(self)@.quad_to(c, p, pos as int),
    {
        self.out.push(PathElement::QuadTo(c, p));
        self.at = p;
        self.last_quad = Some(c);
        self.last_cubic = None;
        self.pos = pos;
    }

    /// Takes the arguments of a command and draws it.
    fn obey(&mut self, src: &[u8], cmd: u8) -> (r: Result<(), String>)
        requires
            old(self).pos <= src.len(),
        ensures
            match (r, obeyed(src@, old(self)@, cmd)) {
                (Ok(()), Ok(pen)) => final(self)@ == pen && old(self).pos <= final(self).pos
                    <= src.len() && (final(self).pos > old(self).pos || upper(cmd) == 0x5A),
                (Err(e), Err(problem)) => e@ == problem,
                _ => false,
            },
    {
        proof {
            reveal(obeyed);
        }
        let relative = 0x61 <= cmd && cmd <= 0x7A;
        let key: u8 = if relative {
            cmd - 32
        } else {
            cmd
        };
        let at = self.at;
        let from: usize = self.pos;
        if key == 0x4D {
            match point(src, from, relative, at) {
                Err(e) => Err(e),
                Ok((to, pos)) => {
                    self.out.push(PathElement::MoveTo(to));
                    self.at = to;
                    self.start = to;
                    self.last_cubic = None;
                    self.last_quad = None;
                    // Further pairs after a move are lines.
                    self.command = Some(
                        if relative {
                            0x6C
                        } else {
                            0x4C
                        },
                    );
                    self.pos = pos;
                    Ok(())
                },
            }
        } else if key == 0x4C {
            match point(src, from, relative, at) {
                Err(e) => Err(e),
                Ok((to, pos)) => {
                    self.line_to(to, pos);
                    Ok(())
                },
            }
        } else if key == 0x48 {
            match number(src, from) {
                Err(e) => Err(e),
                Ok((x, pos)) => {
                    let x = if relative {
                        at[0].plus(x)
                    } else {
                        x
                    };
                    self.line_to([x, at[1]], pos);
                    Ok(())
                },
            }
        } else if key == 0x56 {
            match number(src, from) {
                Err(e) => Err(e),
                Ok((y, pos)) => {
                    let y = if relative {
                        at[1].plus(y)
                    } else {
                        y
                    };
                    self.line_to([at[0], y], pos);
                    Ok(())
                },
            }
        } else if key == 0x43 {
            match point(src, from, relative, at) {
                Err(e) => Err(e),
                Ok((c1, a)) => match point(src, a, relative, at) {
                    Err(e) => Err(e),
                    Ok((c2, b)) => match point(src, b, relative, at) {
                        Err(e) => Err(e),
                        Ok((to, pos)) => {
                            self.cubic_to(c1, c2, to, pos);
                            Ok(())
                        },
                    },
                },
            }
        } else if key == 0x53 {
            match point(src, from, relative, at) {
                Err(e) => Err(e),
                Ok((c2, b)) => match point(src, b, relative, at) {
                    Err(e) => Err(e),
                    Ok((to, pos)) => {
                        let c1 = reflect(at, self.last_cubic);
                        self.cubic_to(c1, c2, to, pos);
                        Ok(())
                    },
                },
            }
        } else if key == 0x51 {
            match point(src, from, relative, at) {
                Err(e) => Err(e),
                Ok((c, b)) => match point(src, b, relative, at) {
                    Err(e) => Err(e),
                    Ok((to, pos)) => {
                        self.quad_to(c, to, pos);
                        Ok(())
                    },
                },
            }
        } else if key == 0x54 {
            match point(src, from, relative, at) {
                Err(e) => Err(e),
                Ok((to, pos)) => {
                    let c = reflect(at, self.last_quad);
                    self.quad_to(c, to, pos);
                    Ok(())
                },
            }
        } else if key == 0x41 {
            match arc(src, from) {
                Err(e) => Err(e),
                Ok((curve, b)) => match point(src, b, relative, at) {
                    Err(e) => Err(e),
                    Ok((to, pos)) => {
                        arc_to(at, curve, to, &mut self.out);
                        self.at = to;
                        self.last_cubic = None;
                        self.last_quad = None;
                        self.pos = pos;
                        Ok(())
                    },
                },
            }
        } else if key == 0x5A {
            self.out.push(PathElement::Close);
            self.at = self.start;
            self.last_cubic = None;
            self.last_quad = None;
            Ok(())
        } else {
            Err(joined("unknown path command ", quoted_char(key as char).as_str()))
        }
    }
}

/// Parses path data.
fn run(src: &[u8]) -> (r: Result<Vec<PathElement>, String>)
    ensures
        match (r, parsed(src@)) {
            (Ok(out), Ok(elements)) => out@ == elements,
            (Err(e), Err(problem)) => e@ == problem,
            _ => false,
        },
{
    let mut p = Parser {
        pos: 0,
        out: Vec::new(),
        at: [num(0), num(0)],
        start: [num(0), num(0)],
        last_cubic: None,
        last_quad: None,
        command: None,
    };
    loop
        invariant
            p.pos <= src.len(),
            parsed(src@) == parsed_from(src@, p@),
        decreases src.len() - p.pos,
    {
        let ghost here = p@;
        let pos: usize = skip_separators(src, p.pos);
        if pos >= src.len() {
            return if p.out.len() == 0 {
                Err(owned("path data is empty"))
            } else {
                Ok(p.out)
            };
        }
        p.pos = pos;
        let ghost there = p@;
        assert(there == Pen { pos: pos as int, ..here });
        let c: u8 = src[pos];
        let letter = (0x61 <= c && c <= 0x7A) || (0x41 <= c && c <= 0x5A);
        let cmd: u8 = if letter {
            c
        } else {
            match p.command {
                Some(cmd) => {
                    if cmd == 0x5A || cmd == 0x7A {
                        return Err(message_at("expected a command at byte ", pos));
                    }
                    cmd
                },
                None => {
                    return Err(message_at("expected a command at byte ", pos));
                },
            }
        };
        if !letter && !((0x30 <= c && c <= 0x39) || c == 0x2B || c == 0x2D || c == 0x2E) {
            let what = joined(
                joined("unexpected ", quoted_char(c as char).as_str()).as_str(),
                " at byte ",
            );
            return Err(message_at(what.as_str(), pos));
        }
        if p.out.len() == 0 && cmd != 0x4D && cmd != 0x6D {
            return Err(owned("path data must start with M"));
        }
        if letter {
            p.pos = pos + 1;
            p.command = Some(c);
        }
        let done = p.obey(src, cmd);
        match done {
            Ok(()) => {
                assert(p.pos > here.pos);
            },
            Err(e) => {
                return Err(e);
            },
        }
    }
}

/// A path that starts with a move, or nothing.
pub open spec fn starts_with_move(out: Seq<PathElement>) -> bool {
    out.len() > 0 ==> out[0] is MoveTo
}

proof fn lemma_obeyed_starts(src: Seq<u8>, p: Pen, cmd: u8)
    requires
        starts_with_move(p.out),
        p.out.len() > 0 || upper(cmd) == 0x4D,
    ensures
        obeyed(src, p, cmd) matches Ok(next) ==> next.out.len() > 0 && starts_with_move(next.out),
{
    reveal(obeyed);
}

proof fn lemma_parsed_from_starts(src: Seq<u8>, p: Pen)
    requires
        starts_with_move(p.out),
    ensures
        parsed_from(src, p) matches Ok(out) ==> out.len() > 0 && starts_with_move(out),
    decreases src.len() - p.pos,
{
    let pos = skipped(src, p.pos);
    if 0 <= pos < src.len() {
        let here = Pen { pos, ..p };
        let c = src[pos];
        let there = Pen { pos: pos + 1, command: Some(c), ..here };
        if p.out.len() > 0 || upper(c) == 0x4D {
            lemma_obeyed_starts(src, there, c);
        }
        if let Some(cmd) = p.command {
            if p.out.len() > 0 || upper(cmd) == 0x4D {
                lemma_obeyed_starts(src, here, cmd);
            }
        }
        if let Ok(next) = stepped(src, here) {
            if p.pos < next.pos <= src.len() {
                lemma_parsed_from_starts(src, next);
            }
        }
    }
}

/// Path data that parses has something in it, and starts with a move.
pub proof fn lemma_path_starts(src: Seq<u8>)
    ensures
        parsed(src) matches Ok(out) ==> out.len() > 0 && out[0] is MoveTo,
{
    lemma_parsed_from_starts(
        src,
        Pen {
            pos: 0,
            out: Seq::empty(),
            at: [num(0), num(0)],
            start: [num(0), num(0)],
            last_cubic: None,
            last_quad: None,
            command: None,
        },
    );
}

/// An arc ends on its end point.
pub proof fn lemma_arc_ends(at: [Num; 2], arc: Arc, p: [Num; 2])
    ensures
        ({
            let out = arc_elements(at, arc, p);
            &&& out.len() > 0
            &&& out.last() == PathElement::LineTo(p) || (out.last() matches PathElement::CubicTo(
                _,
                _,
                end,
            ) && end == p)
        }),
{
    let sweep = sweep_of(at, arc, p);
    let turns = quotient_of(abs_of(sweep.delta), num(QUARTER));
    lemma_at_least_one(opposite_of(crate::num::floor_of(opposite_of(turns))));
}

} // verus!
