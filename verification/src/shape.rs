//! The items of a draw list, and placing a layer's geometry on the canvas.

use crate::color::{color_of, parse_color};
use crate::lru::CacheKey;
use crate::model::{Align, Blend, Gradient, Shape, Sheet, Stop};
use crate::num::{
    at_most, equal, floor_of, less, num, opposite_of, product_of, single_of, sum_of,
    to_u64_of, Num,
};
use crate::outline::PlacedGlyph;
use crate::path::{place, placed, PathElement};
use crate::state::{bits, Bits, Error, FontData, ImageData, Problem};
use crate::text::{owned, same_text};
use crate::waves::{radians, sin_cos, sin_cos_of, to_radians, ONE};
use vstd::prelude::*;

verus! {

/// How far a cubic's control point sits along the tangent to meet a quarter circle, the usual
/// 4/3 * (sqrt(2) - 1).
pub const QUARTER_ARC: u64 = 0x3FE1_AC51_1153_4A22;

/// The same, for circles.
pub const CIRCLE_ARC: u64 = 0x3FE1_AC51_114F_0EAF;

/// A map of the plane, `(x, y)` to `(a x + c y + e, b x + d y + f)`, its coefficients in the
/// order `[a, b, c, d, e, f]` that SVG uses. The draw list places items with one where a
/// rotation or an uneven scale is involved; see [`ResolvedLayer::transform`].
#[derive(Clone, Copy, Debug, PartialEq)]
pub struct Transform(pub [Num; 6]);

impl Transform {
    pub open spec fn unmoved() -> Transform {
        Transform([num(ONE), num(0), num(0), num(ONE), num(0), num(0)])
    }

    pub open spec fn moved(x: Num, y: Num) -> Transform {
        Transform([num(ONE), num(0), num(0), num(ONE), x, y])
    }

    pub open spec fn sized(sx: Num, sy: Num) -> Transform {
        Transform([sx, num(0), num(0), sy, num(0), num(0)])
    }

    pub open spec fn turned(degrees: Num) -> Transform {
        let (s, c) = sin_cos_of(radians(degrees));
        Transform([c, s, opposite_of(s), c, num(0), num(0)])
    }

    /// This map behind another one.
    pub open spec fn behind(self, inner: Transform) -> Transform {
        let m = self.0;
        let n = inner.0;
        Transform(
            [
                sum_of(product_of(m[0], n[0]), product_of(m[2], n[1])),
                sum_of(product_of(m[1], n[0]), product_of(m[3], n[1])),
                sum_of(product_of(m[0], n[2]), product_of(m[2], n[3])),
                sum_of(product_of(m[1], n[2]), product_of(m[3], n[3])),
                sum_of(sum_of(product_of(m[0], n[4]), product_of(m[2], n[5])), m[4]),
                sum_of(sum_of(product_of(m[1], n[4]), product_of(m[3], n[5])), m[5]),
            ],
        )
    }

    pub open spec fn image_of(self, p: [Num; 2]) -> [Num; 2] {
        let m = self.0;
        [
            sum_of(sum_of(product_of(m[0], p[0]), product_of(m[2], p[1])), m[4]),
            sum_of(sum_of(product_of(m[1], p[0]), product_of(m[3], p[1])), m[5]),
        ]
    }

    /// The scale and the place, where it is only a positive uniform scale and a translation.
    pub open spec fn upright(self) -> Option<(Num, Num, Num)> {
        let m = self.0;
        if equal(m[1], num(0)) && equal(m[2], num(0)) && equal(m[0], m[3]) && less(num(0), m[0]) {
            Some((m[0], m[4], m[5]))
        } else {
            None
        }
    }

    /// The map that leaves everything where it is.
    pub fn identity() -> (r: Transform)
        ensures
            r == Transform::unmoved(),
    {
        Transform([num(ONE), num(0), num(0), num(ONE), num(0), num(0)])
    }

    pub fn translate(x: Num, y: Num) -> (r: Transform)
        ensures
            r == Transform::moved(x, y),
    {
        Transform([num(ONE), num(0), num(0), num(ONE), x, y])
    }

    pub fn scale(sx: Num, sy: Num) -> (r: Transform)
        ensures
            r == Transform::sized(sx, sy),
    {
        Transform([sx, num(0), num(0), sy, num(0), num(0)])
    }

    /// Rotation by `degrees`, clockwise on a canvas whose y grows down.
    pub fn rotate(degrees: Num) -> (r: Transform)
        ensures
            r == Transform::turned(degrees),
    {
        let (s, c) = sin_cos(to_radians(degrees));
        Transform([c, s, s.neg(), c, num(0), num(0)])
    }

    /// This map applied after `inner`.
    pub fn after(self, inner: Transform) -> (r: Transform)
        ensures
            r == self.behind(inner),
    {
        let m = self.0;
        let n = inner.0;
        Transform(
            [
                m[0].times(n[0]).plus(m[2].times(n[1])),
                m[1].times(n[0]).plus(m[3].times(n[1])),
                m[0].times(n[2]).plus(m[2].times(n[3])),
                m[1].times(n[2]).plus(m[3].times(n[3])),
                m[0].times(n[4]).plus(m[2].times(n[5])).plus(m[4]),
                m[1].times(n[4]).plus(m[3].times(n[5])).plus(m[5]),
            ],
        )
    }

    pub fn apply(self, p: [Num; 2]) -> (r: [Num; 2])
        ensures
            r == self.image_of(p),
    {
        let m = self.0;
        [
            m[0].times(p[0]).plus(m[2].times(p[1])).plus(m[4]),
            m[1].times(p[0]).plus(m[3].times(p[1])).plus(m[5]),
        ]
    }

    /// `(scale, x, y)` when this is only a positive uniform scale and a translation, which the
    /// draw list bakes into its coordinates.
    pub fn plain(self) -> (r: Option<(Num, Num, Num)>)
        ensures
            r == self.upright(),
    {
        let m = self.0;
        if m[1].same(num(0)) && m[2].same(num(0)) && m[0].same(m[3]) && num(0).lt(m[0]) {
            Some((m[0], m[4], m[5]))
        } else {
            None
        }
    }
}

/// One paintable item of the flattened show, in canvas coordinates.
#[derive(Debug, PartialEq)]
pub struct ResolvedLayer {
    pub name: String,
    pub shape: ResolvedShape,
    /// Fill color as RGBA bytes; opaque white for images. With a `gradient` this is its first
    /// stop, so a host that draws no gradients still draws something sensible.
    pub color: [u8; 4],
    /// A gradient to fill the shape with instead of `color`, already in the same space as the
    /// shape's coordinates.
    pub gradient: Option<ResolvedGradient>,
    /// Effective opacity in [0, 1] (tree-multiplied).
    pub opacity: Num,
    /// How the item combines with what was painted before it. Markers (clips, blend groups)
    /// carry `Normal`.
    pub blend: Blend,
    /// Whether this item may draw past the canvas into the letterbox.
    pub overflow: bool,
    /// Applied to the shape's coordinates to place it on the canvas. The identity for anything
    /// only translated and uniformly scaled, which is then already in canvas coordinates.
    pub transform: Transform,
}

/// What an item shows, or opens or closes.
#[allow(inconsistent_fields)]
#[derive(Debug, PartialEq)]
pub enum ResolvedShape {
    Rect { x: Num, y: Num, width: Num, height: Num },
    Circle { cx: Num, cy: Num, radius: Num },
    /// Start clipping: until the matching [`ResolvedShape::ClipEnd`], items only show inside
    /// `shape`. Clips nest.
    ClipBegin { shape: Box<ResolvedShape> },
    /// End the innermost clip.
    ClipEnd,
    /// Start a group that is composited as one picture with `blend`, until the matching
    /// [`ResolvedShape::BlendEnd`]. A clipped blended group opens the blend first.
    BlendBegin { blend: Blend },
    /// End the innermost blend group.
    BlendEnd,
    /// A filled polygon (a segment of a segment display), closed implicitly.
    Polygon { points: Vec<[Num; 2]> },
    /// A path of lines and curves, filled with the layer's color (a fully transparent color
    /// means no fill) and outlined with `stroke` (color, width) when given. As a clip, the
    /// stroke is ignored.
    Path { elements: Vec<PathElement>, stroke: Option<([u8; 4], Num)> },
    /// A host image drawn into the destination rectangle: the whole image, or with `source`
    /// only that pixel rectangle `[x, y, width, height]` of it (a sheet cell).
    Image {
        image: String,
        source: Option<[u32; 4]>,
        x: Num,
        y: Num,
        width: Num,
        height: Num,
        /// Repeat one tile across the box instead of stretching the image to fill it.
        tile: Option<Tiled>,
    },
    /// Text in an outline font: fill the outlines of `glyphs` from `font` at `size` pixels per
    /// em with the layer's color, after drawing `border` (color, width in pixels) around them
    /// when given.
    GlyphRun {
        font: FontData,
        size: Num,
        glyphs: Vec<PlacedGlyph>,
        border: Option<([u8; 4], Num)>,
    },
    /// Pixels the engine generated (rasterized text), drawn into the destination rectangle.
    /// `image.revision()` identifies the content, which is that of `label`.
    Bitmap { label: Lettering, image: ImageData, x: Num, y: Num, width: Num, height: Num },
}

/// Which text a bitmap shows.
#[derive(Debug, PartialEq)]
pub struct Lettering {
    /// The font style it is in.
    pub style: String,
    pub text: String,
    /// The box it was laid out in, where one was asked for.
    pub size: Option<[Num; 2]>,
    pub align: Align,
    /// Whether this is the silhouette behind it.
    pub shadow: bool,
}

/// A [`Lettering`], by value.
#[verifier::ext_equal]
pub ghost struct Lettered {
    pub style: Seq<char>,
    pub text: Seq<char>,
    pub size: Option<[Num; 2]>,
    pub align: Align,
    pub shadow: bool,
}

impl View for Lettering {
    type V = Lettered;

    open spec fn view(&self) -> Lettered {
        Lettered {
            style: self.style@,
            text: self.text@,
            size: self.size,
            align: self.align,
            shadow: self.shadow,
        }
    }
}

impl CacheKey for Lettering {
    fn same(&self, other: &Self) -> (r: bool) {
        let sized: bool = match (self.size, other.size) {
            (Some(a), Some(b)) => {
                let alike: bool = a[0] == b[0] && a[1] == b[1];
                assert(alike ==> a =~= b);
                alike
            },
            (None, None) => true,
            _ => false,
        };
        sized && self.align == other.align && self.shadow == other.shadow && same_text(
            self.style.as_str(),
            other.style.as_str(),
        ) && same_text(self.text.as_str(), other.text.as_str())
    }
}

impl Lettering {
    pub(crate) fn copy(&self) -> (r: Lettering)
        ensures
            r@ == self@,
    {
        Lettering {
            style: owned(self.style.as_str()),
            text: owned(self.text.as_str()),
            size: self.size,
            align: self.align,
            shadow: self.shadow,
        }
    }
}

/// A gradient with its colors parsed and its geometry scaled, ready to draw.
#[derive(Debug, PartialEq)]
pub struct ResolvedGradient {
    pub kind: ResolvedGradientKind,
    /// `(position, RGBA)`, in order; the positions in single precision.
    pub stops: Vec<(Num, [u8; 4])>,
}

#[derive(Clone, Copy, Debug, PartialEq)]
pub enum ResolvedGradientKind {
    Linear { from: [Num; 2], to: [Num; 2] },
    Radial { center: [Num; 2], radius: Num },
}

/// How a tiled image covers its box: one tile's size and where the pattern starts, both in the
/// same units as the box.
#[derive(Clone, Copy, Debug, PartialEq)]
pub struct Tiled {
    pub width: Num,
    pub height: Num,
    pub offset: [Num; 2],
}

/// A [`ResolvedShape`], by value.
pub ghost enum Drawn {
    Rect { x: Num, y: Num, width: Num, height: Num },
    Circle { cx: Num, cy: Num, radius: Num },
    ClipBegin { shape: Box<Drawn> },
    ClipEnd,
    BlendBegin { blend: Blend },
    BlendEnd,
    Polygon { points: Seq<[Num; 2]> },
    Path { elements: Seq<PathElement>, stroke: Option<([u8; 4], Num)> },
    Image {
        image: Seq<char>,
        source: Option<[u32; 4]>,
        x: Num,
        y: Num,
        width: Num,
        height: Num,
        tile: Option<Tiled>,
    },
    GlyphRun {
        font: FontData,
        size: Num,
        glyphs: Seq<PlacedGlyph>,
        border: Option<([u8; 4], Num)>,
    },
    Bitmap {
        label: Lettered,
        content: Bits,
        x: Num,
        y: Num,
        width: Num,
        height: Num,
    },
}

pub open spec fn drawn_of(shape: ResolvedShape) -> Drawn
    decreases shape,
{
    match shape {
        ResolvedShape::Rect { x, y, width, height } => Drawn::Rect { x, y, width, height },
        ResolvedShape::Circle { cx, cy, radius } => Drawn::Circle { cx, cy, radius },
        ResolvedShape::ClipBegin { shape } => Drawn::ClipBegin {
            shape: Box::new(drawn_of(*shape)),
        },
        ResolvedShape::ClipEnd => Drawn::ClipEnd,
        ResolvedShape::BlendBegin { blend } => Drawn::BlendBegin { blend },
        ResolvedShape::BlendEnd => Drawn::BlendEnd,
        ResolvedShape::Polygon { points } => Drawn::Polygon { points: points@ },
        ResolvedShape::Path { elements, stroke } => Drawn::Path { elements: elements@, stroke },
        ResolvedShape::Image { image, source, x, y, width, height, tile } => Drawn::Image {
            image: image@,
            source,
            x,
            y,
            width,
            height,
            tile,
        },
        ResolvedShape::GlyphRun { font, size, glyphs, border } => Drawn::GlyphRun {
            font,
            size,
            glyphs: glyphs@,
            border,
        },
        ResolvedShape::Bitmap { label, image, x, y, width, height } => Drawn::Bitmap {
            label: label@,
            content: bits(image),
            x,
            y,
            width,
            height,
        },
    }
}

impl View for ResolvedShape {
    type V = Drawn;

    open spec fn view(&self) -> Drawn {
        drawn_of(*self)
    }
}

/// A [`ResolvedGradient`], by value.
pub ghost struct Ramp {
    pub kind: ResolvedGradientKind,
    pub stops: Seq<(Num, [u8; 4])>,
}

impl View for ResolvedGradient {
    type V = Ramp;

    open spec fn view(&self) -> Ramp {
        Ramp { kind: self.kind, stops: self.stops@ }
    }
}

/// A [`ResolvedLayer`], by value.
pub ghost struct Item {
    pub name: Seq<char>,
    pub shape: Drawn,
    pub color: [u8; 4],
    pub gradient: Option<Ramp>,
    pub opacity: Num,
    pub blend: Blend,
    pub overflow: bool,
    pub transform: Transform,
}

impl View for ResolvedLayer {
    type V = Item;

    open spec fn view(&self) -> Item {
        Item {
            name: self.name@,
            shape: self.shape@,
            color: self.color,
            gradient: match self.gradient {
                Some(g) => Some(g@),
                None => None,
            },
            opacity: self.opacity,
            blend: self.blend,
            overflow: self.overflow,
            transform: self.transform,
        }
    }
}

/// The pixel rectangle `[x, y, width, height]` of a cell of a sheet: rounded down, and held to
/// the cells that fit the image.
pub open spec fn cell_of(sheet: Sheet, image_width: u32, image_height: u32, frame: Num) -> [u32; 4] {
    let cw = if sheet.cell[0] > 1 {
        sheet.cell[0] as int
    } else {
        1
    };
    let ch = if sheet.cell[1] > 1 {
        sheet.cell[1] as int
    } else {
        1
    };
    let across = if image_width as int / cw > 1 {
        image_width as int / cw
    } else {
        1
    };
    let rows = if image_height as int / ch > 1 {
        image_height as int / ch
    } else {
        1
    };
    let columns = if sheet.columns < 1 {
        1
    } else if sheet.columns > across {
        across
    } else {
        sheet.columns as int
    };
    let last = columns * rows - 1;
    let asked = to_u64_of(floor_of(frame)) as int;
    let index = if frame.finite() && less(num(0), frame) {
        if asked < last {
            asked
        } else {
            last
        }
    } else {
        0
    };
    [(index % columns * cw) as u32, (index / columns * ch) as u32, cw as u32, ch as u32]
}

/// The pixel rectangle `[x, y, width, height]` of sheet cell `frame` (rounded down, clamped to
/// the cells that fit the image).
pub fn sheet_cell(sheet: Sheet, image_width: u32, image_height: u32, frame: Num) -> (r: [u32; 4])
    ensures
        r == cell_of(sheet, image_width, image_height, frame),
{
    let cw: u32 = if sheet.cell[0] > 1 {
        sheet.cell[0]
    } else {
        1
    };
    let ch: u32 = if sheet.cell[1] > 1 {
        sheet.cell[1]
    } else {
        1
    };
    let across: u32 = if image_width / cw > 1 {
        image_width / cw
    } else {
        1
    };
    let rows: u32 = if image_height / ch > 1 {
        image_height / ch
    } else {
        1
    };
    let columns: u32 = if sheet.columns < 1 {
        1
    } else if sheet.columns > across {
        across
    } else {
        sheet.columns
    };
    assert(1 <= columns * rows <= 0xFFFF_FFFF * 0xFFFF_FFFF) by (nonlinear_arith)
        requires
            1 <= columns <= 0xFFFF_FFFF,
            1 <= rows <= 0xFFFF_FFFF,
    ;
    let last: u64 = columns as u64 * rows as u64 - 1;
    let index: u64 = if frame.is_finite() && num(0).lt(frame) {
        let asked: u64 = frame.floor().to_u64();
        if asked < last {
            asked
        } else {
            last
        }
    } else {
        0
    };
    let c: u64 = index % columns as u64;
    let l: u64 = index / columns as u64;
    proof {
        lemma_cell_fits(image_width as int, cw as int, across as int, c as int);
        assert(l < rows) by (nonlinear_arith)
            requires
                l == index as int / columns as int,
                index < columns * rows,
                columns > 0,
                index >= 0,
        ;
        lemma_cell_fits(image_height as int, ch as int, rows as int, l as int);
    }
    [(c * cw as u64) as u32, (l * ch as u64) as u32, cw, ch]
}

proof fn lemma_cell_fits(width: int, cell: int, count: int, i: int)
    requires
        0 <= width <= u32::MAX,
        0 < cell <= u32::MAX,
        count == if width / cell > 1 {
            width / cell
        } else {
            1
        },
        0 <= i < count,
    ensures
        0 <= i * cell <= u32::MAX,
{
    if width / cell > 1 {
        assert(i * cell <= width) by (nonlinear_arith)
            requires
                0 <= i < width / cell,
                0 < cell,
        ;
        assert(0 <= i * cell) by (nonlinear_arith)
            requires
                0 <= i,
                0 < cell,
        ;
    } else {
        assert(i == 0);
    }
}

/// The outline of a rect, with rounded corners when it has a radius.
pub open spec fn outline_of(rect: [Num; 4], radius: Option<Num>) -> Seq<PathElement> {
    let x = rect[0];
    let y = rect[1];
    let r = Shape::corner(rect, radius);
    let e = sum_of(x, rect[2]);
    let b = sum_of(y, rect[3]);
    let k = product_of(r, num(QUARTER_ARC));
    if at_most(r, num(0)) {
        seq![
            PathElement::MoveTo([x, y]),
            PathElement::LineTo([e, y]),
            PathElement::LineTo([e, b]),
            PathElement::LineTo([x, b]),
            PathElement::Close,
        ]
    } else {
        seq![
            PathElement::MoveTo([sum_of(x, r), y]),
            PathElement::LineTo([sum_of(e, opposite_of(r)), y]),
            PathElement::CubicTo(
                [sum_of(sum_of(e, opposite_of(r)), k), y],
                [e, sum_of(sum_of(y, r), opposite_of(k))],
                [e, sum_of(y, r)],
            ),
            PathElement::LineTo([e, sum_of(b, opposite_of(r))]),
            PathElement::CubicTo(
                [e, sum_of(sum_of(b, opposite_of(r)), k)],
                [sum_of(sum_of(e, opposite_of(r)), k), b],
                [sum_of(e, opposite_of(r)), b],
            ),
            PathElement::LineTo([sum_of(x, r), b]),
            PathElement::CubicTo(
                [sum_of(sum_of(x, r), opposite_of(k)), b],
                [x, sum_of(sum_of(b, opposite_of(r)), k)],
                [x, sum_of(b, opposite_of(r))],
            ),
            PathElement::LineTo([x, sum_of(y, r)]),
            PathElement::CubicTo(
                [x, sum_of(sum_of(y, r), opposite_of(k))],
                [sum_of(sum_of(x, r), opposite_of(k)), y],
                [sum_of(x, r), y],
            ),
            PathElement::Close,
        ]
    }
}

/// The outline of a rect, with rounded corners when it has a radius: quarter circles as
/// cubics, so a rounded rect strokes and clips like any other path.
pub fn rect_path(rect: [Num; 4], radius: Option<Num>) -> (v: Vec<PathElement>)
    ensures
        v@ == outline_of(rect, radius),
{
    let x = rect[0];
    let y = rect[1];
    let r = Shape::corner_radius(rect, radius);
    let e = x.plus(rect[2]);
    let b = y.plus(rect[3]);
    let k = r.times(num(QUARTER_ARC));
    let v: Vec<PathElement> = if r.le(num(0)) {
        vec![
            PathElement::MoveTo([x, y]),
            PathElement::LineTo([e, y]),
            PathElement::LineTo([e, b]),
            PathElement::LineTo([x, b]),
            PathElement::Close,
        ]
    } else {
        vec![
            PathElement::MoveTo([x.plus(r), y]),
            PathElement::LineTo([e.minus(r), y]),
            PathElement::CubicTo([e.minus(r).plus(k), y], [e, y.plus(r).minus(k)], [e, y.plus(r)]),
            PathElement::LineTo([e, b.minus(r)]),
            PathElement::CubicTo([e, b.minus(r).plus(k)], [e.minus(r).plus(k), b], [e.minus(r), b]),
            PathElement::LineTo([x.plus(r), b]),
            PathElement::CubicTo([x.plus(r).minus(k), b], [x, b.minus(r).plus(k)], [x, b.minus(r)]),
            PathElement::LineTo([x, y.plus(r)]),
            PathElement::CubicTo([x, y.plus(r).minus(k)], [x.plus(r).minus(k), y], [x.plus(r), y]),
            PathElement::Close,
        ]
    };
    assert(v@ =~= outline_of(rect, radius));
    v
}

/// The outline of a circle: four quarter arcs.
pub open spec fn ring_of(circle: [Num; 3]) -> Seq<PathElement> {
    let x = circle[0];
    let y = circle[1];
    let r = circle[2];
    let k = product_of(num(CIRCLE_ARC), r);
    seq![
        PathElement::MoveTo([sum_of(x, r), y]),
        PathElement::CubicTo(
            [sum_of(x, r), sum_of(y, k)],
            [sum_of(x, k), sum_of(y, r)],
            [x, sum_of(y, r)],
        ),
        PathElement::CubicTo(
            [sum_of(x, opposite_of(k)), sum_of(y, r)],
            [sum_of(x, opposite_of(r)), sum_of(y, k)],
            [sum_of(x, opposite_of(r)), y],
        ),
        PathElement::CubicTo(
            [sum_of(x, opposite_of(r)), sum_of(y, opposite_of(k))],
            [sum_of(x, opposite_of(k)), sum_of(y, opposite_of(r))],
            [x, sum_of(y, opposite_of(r))],
        ),
        PathElement::CubicTo(
            [sum_of(x, k), sum_of(y, opposite_of(r))],
            [sum_of(x, r), sum_of(y, opposite_of(k))],
            [sum_of(x, r), y],
        ),
        PathElement::Close,
    ]
}

fn circle_path(circle: [Num; 3]) -> (v: Vec<PathElement>)
    ensures
        v@ == ring_of(circle),
{
    let x = circle[0];
    let y = circle[1];
    let r = circle[2];
    let k = num(CIRCLE_ARC).times(r);
    let v: Vec<PathElement> = vec![
        PathElement::MoveTo([x.plus(r), y]),
        PathElement::CubicTo([x.plus(r), y.plus(k)], [x.plus(k), y.plus(r)], [x, y.plus(r)]),
        PathElement::CubicTo([x.minus(k), y.plus(r)], [x.minus(r), y.plus(k)], [x.minus(r), y]),
        PathElement::CubicTo([x.minus(r), y.minus(k)], [x.minus(k), y.minus(r)], [x, y.minus(r)]),
        PathElement::CubicTo([x.plus(k), y.minus(r)], [x.plus(r), y.minus(k)], [x.plus(r), y]),
        PathElement::Close,
    ];
    assert(v@ =~= ring_of(circle));
    v
}

/// A path scaled along each axis and then moved.
pub open spec fn placed_path(elements: Seq<PathElement>, x: Num, y: Num, sx: Num, sy: Num) -> Seq<
    PathElement,
> {
    Seq::new(elements.len(), |i: int| elements[i].placed(x, y, sx, sy))
}

/// A path scaled along each axis and then moved.
pub(crate) fn place_path(elements: &[PathElement], x: Num, y: Num, sx: Num, sy: Num) -> (r: Vec<
    PathElement,
>)
    ensures
        r@ == placed_path(elements@, x, y, sx, sy),
{
    let ghost all = placed_path(elements@, x, y, sx, sy);
    let mut out: Vec<PathElement> = Vec::new();
    let mut i: usize = 0;
    while i < elements.len()
        invariant
            i <= elements.len(),
            all == placed_path(elements@, x, y, sx, sy),
            out@ == all.take(i as int),
        decreases elements.len() - i,
    {
        let put = |p: [Num; 2]| -> (r: [Num; 2])
            ensures
                r == placed(p, x, y, sx, sy),
            { place(p, x, y, sx, sy) };
        out.push(elements[i].map(put));
        i = i + 1;
        assert(out@ =~= all.take(i as int));
    }
    assert(out@ =~= all);
    out
}

/// A shape's geometry, scaled uniformly and then moved. A stroked rect or circle is a path, the
/// one shape that carries a stroke, and so is a rounded rect.
pub open spec fn shape_drawn(
    shape: Shape,
    x: Num,
    y: Num,
    scale: Num,
    stroke: Option<([u8; 4], Num)>,
) -> Drawn {
    match shape {
        Shape::Rect { rect, radius } => if stroke is None && at_most(
            Shape::corner(rect, radius),
            num(0),
        ) {
            let p = placed([rect[0], rect[1]], x, y, scale, scale);
            Drawn::Rect {
                x: p[0],
                y: p[1],
                width: product_of(rect[2], scale),
                height: product_of(rect[3], scale),
            }
        } else {
            Drawn::Path {
                elements: placed_path(outline_of(rect, radius), x, y, scale, scale),
                stroke,
            }
        },
        Shape::Circle { circle } => if stroke is None {
            let p = placed([circle[0], circle[1]], x, y, scale, scale);
            Drawn::Circle { cx: p[0], cy: p[1], radius: product_of(circle[2], scale) }
        } else {
            Drawn::Path { elements: placed_path(ring_of(circle), x, y, scale, scale), stroke }
        },
        Shape::Path { path } => Drawn::Path {
            elements: placed_path(path.steps(), x, y, scale, scale),
            stroke,
        },
    }
}

/// Place a shape's local geometry: scaled uniformly around the layer's x/y origin, and moved
/// to it. A stroked rect or circle resolves as a path, the one shape that carries a stroke.
pub fn resolve_shape(shape: &Shape, x: Num, y: Num, scale: Num, stroke: Option<([u8; 4], Num)>) -> (r:
    ResolvedShape)
    ensures
        r@ == shape_drawn(*shape, x, y, scale, stroke),
{
    match shape {
        Shape::Rect { rect, radius } => {
            if stroke.is_none() && Shape::corner_radius(*rect, *radius).le(num(0)) {
                ResolvedShape::Rect {
                    x: rect[0].times(scale).plus(x),
                    y: rect[1].times(scale).plus(y),
                    width: rect[2].times(scale),
                    height: rect[3].times(scale),
                }
            } else {
                let outline = rect_path(*rect, *radius);
                ResolvedShape::Path {
                    elements: place_path(outline.as_slice(), x, y, scale, scale),
                    stroke,
                }
            }
        },
        Shape::Circle { circle } => {
            if stroke.is_none() {
                ResolvedShape::Circle {
                    cx: circle[0].times(scale).plus(x),
                    cy: circle[1].times(scale).plus(y),
                    radius: circle[2].times(scale),
                }
            } else {
                let outline = circle_path(*circle);
                ResolvedShape::Path {
                    elements: place_path(outline.as_slice(), x, y, scale, scale),
                    stroke,
                }
            }
        },
        Shape::Path { path } => ResolvedShape::Path {
            elements: place_path(path.elements(), x, y, scale, scale),
            stroke,
        },
    }
}

/// A color, or what is wrong with it.
pub open spec fn color_or(text: Seq<char>) -> Result<[u8; 4], Problem> {
    match color_of(text) {
        Some(color) => Ok(color),
        None => Err(Problem::InvalidColor(text)),
    }
}

pub(crate) fn color_from(text: &String) -> (r: Result<[u8; 4], Error>)
    ensures
        match (r, color_or(text@)) {
            (Ok(a), Ok(b)) => a == b,
            (Err(e), Err(p)) => e@ == p,
            _ => false,
        },
{
    match parse_color(text.as_str()) {
        Some(color) => Ok(color),
        None => Err(Error::InvalidColor(text.clone())),
    }
}

/// The first `n` stops of a gradient with their colors; the first bad color otherwise.
pub open spec fn ramp_stops(stops: Seq<Stop>, n: nat) -> Result<Seq<(Num, [u8; 4])>, Problem>
    decreases n,
{
    if n == 0 || n > stops.len() {
        Ok(Seq::empty())
    } else {
        match ramp_stops(stops, (n - 1) as nat) {
            Err(problem) => Err(problem),
            Ok(before) => match color_or(stops[n - 1].color@) {
                Ok(color) => Ok(before.push((single_of(stops[n - 1].at), color))),
                Err(problem) => Err(problem),
            },
        }
    }
}

/// A gradient with its colors parsed, and its geometry scaled and moved.
pub open spec fn ramp_of(gradient: Gradient, x: Num, y: Num, scale: Num) -> Result<Ramp, Problem> {
    match ramp_stops(gradient.colors(), gradient.colors().len()) {
        Err(problem) => Err(problem),
        Ok(stops) => Ok(
            Ramp {
                kind: match gradient {
                    Gradient::Linear { from, to, .. } => ResolvedGradientKind::Linear {
                        from: placed(from, x, y, scale, scale),
                        to: placed(to, x, y, scale, scale),
                    },
                    Gradient::Radial { center, radius, .. } => ResolvedGradientKind::Radial {
                        center: placed(center, x, y, scale, scale),
                        radius: product_of(radius, scale),
                    },
                },
                stops,
            },
        ),
    }
}

/// Parse a gradient's colors and scale its geometry the way a shape's coordinates are scaled.
pub fn resolve_gradient(gradient: &Gradient, x: Num, y: Num, scale: Num) -> (r: Result<
    ResolvedGradient,
    Error,
>)
    ensures
        match (r, ramp_of(*gradient, x, y, scale)) {
            (Ok(g), Ok(ramp)) => g@ == ramp,
            (Err(e), Err(problem)) => e@ == problem,
            _ => false,
        },
{
    let list = gradient.stops();
    let mut stops: Vec<(Num, [u8; 4])> = Vec::new();
    let mut i: usize = 0;
    while i < list.len()
        invariant
            i <= list.len(),
            list@ == gradient.colors(),
            ramp_stops(list@, i as nat) == Ok::<Seq<(Num, [u8; 4])>, Problem>(stops@),
        decreases list.len() - i,
    {
        match color_from(&list[i].color) {
            Ok(color) => {
                stops.push((list[i].at.single(), color));
            },
            Err(e) => {
                proof {
                    lemma_ramp_fails(list@, (i + 1) as nat, list@.len());
                }
                return Err(e);
            },
        }
        i = i + 1;
    }
    let kind = match gradient {
        Gradient::Linear { from, to, .. } => ResolvedGradientKind::Linear {
            from: [from[0].times(scale).plus(x), from[1].times(scale).plus(y)],
            to: [to[0].times(scale).plus(x), to[1].times(scale).plus(y)],
        },
        Gradient::Radial { center, radius, .. } => ResolvedGradientKind::Radial {
            center: [center[0].times(scale).plus(x), center[1].times(scale).plus(y)],
            radius: radius.times(scale),
        },
    };
    Ok(ResolvedGradient { kind, stops })
}

proof fn lemma_ramp_fails(stops: Seq<Stop>, n: nat, m: nat)
    requires
        n <= m <= stops.len(),
        ramp_stops(stops, n) is Err,
    ensures
        ramp_stops(stops, m) == ramp_stops(stops, n),
    decreases m,
{
    if n < m {
        lemma_ramp_fails(stops, n, (m - 1) as nat);
    }
}

/// A move alone, and an even scale alone, are baked into coordinates; what turns nothing and
/// moves nothing leaves them as they are.
pub proof fn lemma_plain(x: Num, y: Num, s: Num)
    ensures
        Transform::unmoved().upright() == Some((num(ONE), num(0), num(0))),
        Transform::moved(x, y).upright() == Some((num(ONE), x, y)),
        less(num(0), s) ==> Transform::sized(s, s).upright() == Some((s, num(0), num(0))),
{
    reveal(less);
    reveal(equal);
}

} // verus!
