//! Text, artwork and reels as items of a draw list.

use crate::cells::{celled, cells};
use crate::color::{color_of, parse_color};
use crate::lamp::TOP;
use crate::model::{Align, Blend, FontStyle, Justify, Reel, ReelCells};
use crate::names::lookup;
use crate::num::{
    at_most, floor_of, from_int, min_of, num, opposite_of, product_of, quotient_of, rem_euclid_of,
    sum_of, to_u64_of, Num,
};
use crate::outline::{run_ids, PlacedGlyph};
use crate::raster::{dressed, tinted, Raster, Styled, StyledFont, TextRaster};
use crate::shape::{
    drawn_of, place_path, placed_path, Drawn, Item, Lettered, Lettering, ResolvedLayer,
    ResolvedShape, Transform,
};
use crate::state::{Bits, Engine, FontData, ImageData, RegisteredFont, State, Vector, VectorPath};
use crate::text::owned;
use crate::waves::{ONE, TWO};
use vstd::prelude::*;

verus! {

/// Where a piece of a layer lands, shared by everything the walk adds.
#[derive(Clone, Copy, Debug)]
pub struct Placed<'a> {
    pub name: &'a str,
    /// Top-left corner on the canvas.
    pub origin: [Num; 2],
    pub scale: Num,
    pub opacity: Num,
    pub blend: Blend,
    /// Whether the tree this sits in may draw past the canvas.
    pub overflow: bool,
    pub transform: Transform,
}

/// A [`Placed`], by value.
pub ghost struct Spot {
    pub name: Seq<char>,
    pub origin: [Num; 2],
    pub scale: Num,
    pub opacity: Num,
    pub blend: Blend,
    pub overflow: bool,
    pub transform: Transform,
}

impl<'a> View for Placed<'a> {
    type V = Spot;

    open spec fn view(&self) -> Spot {
        Spot {
            name: self.name@,
            origin: self.origin,
            scale: self.scale,
            opacity: self.opacity,
            blend: self.blend,
            overflow: self.overflow,
            transform: self.transform,
        }
    }
}

impl Spot {
    /// A shape here.
    pub open spec fn item(self, shape: Drawn, color: [u8; 4]) -> Item {
        Item {
            name: self.name,
            shape,
            color,
            gradient: None,
            opacity: self.opacity,
            blend: self.blend,
            overflow: self.overflow,
            transform: self.transform,
        }
    }

    /// A marker here: it paints nothing itself.
    pub open spec fn marker(self, shape: Drawn) -> Item {
        Spot { blend: Blend::Normal, ..self }.item(shape, [0, 0, 0, 0])
    }

    /// The same, somewhere else.
    pub open spec fn at(self, x: Num, y: Num) -> Spot {
        Spot { origin: [x, y], ..self }
    }

    /// The same, fainter.
    pub open spec fn fainter(self, alpha: Num) -> Spot {
        Spot { opacity: product_of(self.opacity, alpha), ..self }
    }
}

pub open spec fn items_of(list: Seq<ResolvedLayer>) -> Seq<Item> {
    list.map_values(|l: ResolvedLayer| l@)
}

/// Adds a shape to the draw list.
pub(crate) fn put(out: &mut Vec<ResolvedLayer>, placed: &Placed<'_>, shape: ResolvedShape, color: [u8; 4])
    ensures
        items_of(final(out)@) == items_of(old(out)@).push(placed@.item(shape@, color)),
{
    let item = ResolvedLayer {
        name: crate::text::owned(placed.name),
        shape,
        color,
        gradient: None,
        opacity: placed.opacity,
        blend: placed.blend,
        overflow: placed.overflow,
        transform: placed.transform,
    };
    let ghost before = items_of(out@);
    out.push(item);
    assert(items_of(out@) =~= before.push(item@));
}

/// Adds a marker to the draw list.
pub(crate) fn mark(out: &mut Vec<ResolvedLayer>, placed: &Placed<'_>, shape: ResolvedShape)
    ensures
        items_of(final(out)@) == items_of(old(out)@).push(placed@.marker(shape@)),
{
    let plain = Placed { blend: Blend::Normal, ..*placed };
    put(out, &plain, shape, [0, 0, 0, 0]);
}

/// The color of a style, where it is one.
pub open spec fn ink_color(c: Seq<char>) -> [u8; 4] {
    match color_of(c) {
        Some(color) => color,
        None => [255, 255, 255, 255],
    }
}

fn ink_from(c: &String) -> (r: [u8; 4])
    ensures
        r == ink_color(c@),
{
    match parse_color(c.as_str()) {
        Some(color) => color,
        None => [255, 255, 255, 255],
    }
}

pub open spec fn solid(c: Seq<char>) -> [u8; 3] {
    let p = ink_color(c);
    [p[0], p[1], p[2]]
}

fn solid_from(c: &String) -> (r: [u8; 3])
    ensures
        r == solid(c@),
{
    let p = ink_from(c);
    [p[0], p[1], p[2]]
}

/// A bitmap font in a style, or in the one color of the style's shadow.
pub open spec fn styled_as(style: FontStyle, font: RegisteredFont, as_shadow: bool) -> Styled {
    let color = match style.shadow {
        Some(shadow) => if as_shadow {
            solid(shadow.color@)
        } else {
            solid(style.color@)
        },
        None => solid(style.color@),
    };
    let border = match style.border {
        Some(b) => Some(
            (
                if as_shadow {
                    color
                } else {
                    solid(b.color@)
                },
                b.width,
            ),
        ),
        None => None,
    };
    dressed(font.font@, font.pages@, color, border)
}

fn style_font<'a>(style: &FontStyle, font: &'a RegisteredFont, as_shadow: bool) -> (r: StyledFont<'a>)
    ensures
        r@ == styled_as(*style, *font, as_shadow),
{
    // A shadow is one color throughout, so its border is the shadow color too.
    let color: [u8; 3] = match &style.shadow {
        Some(shadow) => {
            if as_shadow {
                solid_from(&shadow.color)
            } else {
                solid_from(&style.color)
            }
        },
        None => solid_from(&style.color),
    };
    let border: Option<([u8; 3], u32)> = match &style.border {
        Some(b) => Some(
            (
                if as_shadow {
                    color
                } else {
                    solid_from(&b.color)
                },
                b.width,
            ),
        ),
        None => None,
    };
    StyledFont::new(&font.font, &font.pages, color, border)
}

/// How a text gets drawn.
#[derive(Debug)]
pub enum TextDraw {
    /// Pixels of a bitmap font.
    Bitmap(TextRaster),
    /// A glyph run of an outline font.
    Glyphs { font: FontData, size: Num, glyphs: Vec<PlacedGlyph>, container: [Num; 2] },
}

/// A [`TextDraw`], by value.
pub ghost enum Typeset {
    Bitmap(Raster),
    Glyphs { font: FontData, size: Num, glyphs: Seq<PlacedGlyph>, container: [Num; 2] },
}

impl View for TextDraw {
    type V = Typeset;

    open spec fn view(&self) -> Typeset {
        match self {
            TextDraw::Bitmap(raster) => Typeset::Bitmap(raster@),
            TextDraw::Glyphs { font, size, glyphs, container } => Typeset::Glyphs {
                font: *font,
                size: *size,
                glyphs: glyphs@,
                container: *container,
            },
        }
    }
}

impl Typeset {
    /// The box it was laid out in.
    pub open spec fn container(self) -> [Num; 2] {
        match self {
            Typeset::Bitmap(raster) => [raster.container.0, raster.container.1],
            Typeset::Glyphs { container, .. } => container,
        }
    }
}

/// A rasterized text, moved and faded. Its pixels are numbered when the draw list is whole.
pub open spec fn raster_item(
    spot: Spot,
    label: Lettered,
    raster: Raster,
    dx: Num,
    dy: Num,
    alpha: Num,
) -> Item {
    let x = spot.origin[0];
    let y = spot.origin[1];
    let s = spot.scale;
    spot.fainter(alpha).item(
        Drawn::Bitmap {
            label,
            content: Bits {
                columns: raster.width,
                rows: raster.height,
                pixels: raster.pixels,
                revision: 0,
            },
            x: sum_of(sum_of(x, product_of(from_int(raster.left), s)), dx),
            y: sum_of(sum_of(y, product_of(from_int(raster.top), s)), dy),
            width: product_of(from_int(raster.width as int), s),
            height: product_of(from_int(raster.height as int), s),
        },
        [255, 255, 255, 255],
    )
}

fn put_raster(
    out: &mut Vec<ResolvedLayer>,
    placed: &Placed<'_>,
    label: Lettering,
    raster: TextRaster,
    dx: Num,
    dy: Num,
    alpha: Num,
)
    ensures
        items_of(final(out)@) == items_of(old(out)@).push(
            raster_item(placed@, label@, raster@, dx, dy, alpha),
        ),
{
    let s = placed.scale;
    let x = placed.origin[0];
    let y = placed.origin[1];
    let left = Num::from_i64(raster.offset[0]);
    let top = Num::from_i64(raster.offset[1]);
    let width = Num::from_u64(raster.image.width as u64);
    let height = Num::from_u64(raster.image.height as u64);
    let faded = Placed { opacity: placed.opacity.times(alpha), ..*placed };
    let shape = ResolvedShape::Bitmap {
        label,
        x: x.plus(left.times(s)).plus(dx),
        y: y.plus(top.times(s)).plus(dy),
        width: width.times(s),
        height: height.times(s),
        image: ImageData {
            width: raster.image.width,
            height: raster.image.height,
            pixels: raster.image.pixels,
            revision: 0,
        },
    };
    put(out, &faded, shape, [255, 255, 255, 255]);
}

/// Glyphs on the canvas.
pub open spec fn moved_glyphs(glyphs: Seq<PlacedGlyph>, spot: Spot, dx: Num, dy: Num) -> Seq<
    PlacedGlyph,
> {
    Seq::new(
        glyphs.len(),
        |i: int|
            PlacedGlyph {
                id: glyphs[i].id,
                x: sum_of(sum_of(spot.origin[0], product_of(glyphs[i].x, spot.scale)), dx),
                y: sum_of(sum_of(spot.origin[1], product_of(glyphs[i].y, spot.scale)), dy),
            },
    )
}

/// A glyph run on the canvas.
pub open spec fn run_item(
    spot: Spot,
    font: FontData,
    em: Num,
    glyphs: Seq<PlacedGlyph>,
    ink: [u8; 4],
    border: Option<([u8; 4], Num)>,
    dx: Num,
    dy: Num,
) -> Item {
    spot.item(
        Drawn::GlyphRun {
            font,
            size: product_of(em, spot.scale),
            glyphs: moved_glyphs(glyphs, spot, dx, dy),
            border,
        },
        ink,
    )
}

fn put_run(
    out: &mut Vec<ResolvedLayer>,
    placed: &Placed<'_>,
    font: &FontData,
    em: Num,
    glyphs: &Vec<PlacedGlyph>,
    ink: [u8; 4],
    border: Option<([u8; 4], Num)>,
    dx: Num,
    dy: Num,
)
    ensures
        items_of(final(out)@) == items_of(old(out)@).push(
            run_item(placed@, *font, em, glyphs@, ink, border, dx, dy),
        ),
{
    let x = placed.origin[0];
    let y = placed.origin[1];
    let s = placed.scale;
    let ghost all = moved_glyphs(glyphs@, placed@, dx, dy);
    let mut list: Vec<PlacedGlyph> = Vec::new();
    let mut i: usize = 0;
    while i < glyphs.len()
        invariant
            i <= glyphs.len(),
            x == placed@.origin[0],
            y == placed@.origin[1],
            s == placed@.scale,
            all == moved_glyphs(glyphs@, placed@, dx, dy),
            list@ == all.take(i as int),
        decreases glyphs.len() - i,
    {
        let g = glyphs[i];
        list.push(
            PlacedGlyph { id: g.id, x: x.plus(g.x.times(s)).plus(dx), y: y.plus(g.y.times(s)).plus(dy) },
        );
        i = i + 1;
        assert(list@ =~= all.take(i as int));
    }
    assert(list@ =~= all);
    let shape = ResolvedShape::GlyphRun {
        font: font.copy(),
        size: em.times(s),
        glyphs: list,
        border,
    };
    put(out, placed, shape, ink);
}

/// How far a drawn stroke reaches where its artwork is scaled along each axis.
pub open spec fn stroke_width(width: Num, sx: Num, sy: Num, even: bool) -> Num {
    if even {
        product_of(width, sx)
    } else {
        quotient_of(product_of(width, sum_of(sx, sy)), num(TWO))
    }
}

/// A color multiplied by another one, channel by channel.
pub open spec fn stained(c: [u8; 4], tint: [u8; 4]) -> [u8; 4] {
    [tinted(c[0], tint[0]), tinted(c[1], tint[1]), tinted(c[2], tint[2]), tinted(c[3], tint[3])]
}

fn stain(c: [u8; 4], t: [u8; 4]) -> (r: [u8; 4])
    ensures
        r == stained(c, t),
{
    [
        crate::raster::tint(c[0], t[0]),
        crate::raster::tint(c[1], t[1]),
        crate::raster::tint(c[2], t[2]),
        crate::raster::tint(c[3], t[3]),
    ]
}

/// White leaves a color alone.
pub proof fn lemma_white_stains_nothing(c: [u8; 4])
    ensures
        stained(c, [255, 255, 255, 255]) == c,
{
    assert forall|i: int| 0 <= i < 4 implies tinted(c[i], 255) == #[trigger] c[i] by {
        assert((c[i] * 255) / 255 == c[i]) by (nonlinear_arith);
    }
    assert(stained(c, [255, 255, 255, 255]) =~= c);
}

/// One path of vector artwork on the canvas, multiplied by a tint.
pub open spec fn vector_item(
    spot: Spot,
    item: VectorPath,
    x: Num,
    y: Num,
    sx: Num,
    sy: Num,
    even: bool,
    tint: [u8; 4],
) -> Item {
    spot.item(
        Drawn::Path {
            elements: placed_path(item.elements@, x, y, sx, sy),
            stroke: match item.stroke {
                Some((color, width)) => Some(
                    (stained(color, tint), stroke_width(width, sx, sy, even)),
                ),
                None => None,
            },
        },
        match item.fill {
            Some(fill) => stained(fill, tint),
            None => [0, 0, 0, 0],
        },
    )
}

pub open spec fn vector_items(
    spot: Spot,
    data: Vector,
    x: Num,
    y: Num,
    sx: Num,
    sy: Num,
    even: bool,
    tint: [u8; 4],
) -> Seq<Item> {
    Seq::new(
        data.paths@.len(),
        |i: int| vector_item(spot, data.paths@[i], x, y, sx, sy, even, tint),
    )
}

pub(crate) fn put_vector(
    out: &mut Vec<ResolvedLayer>,
    placed: &Placed<'_>,
    data: &Vector,
    x: Num,
    y: Num,
    sx: Num,
    sy: Num,
    even: bool,
    tint: [u8; 4],
)
    ensures
        items_of(final(out)@) == items_of(old(out)@) + vector_items(
            placed@,
            *data,
            x,
            y,
            sx,
            sy,
            even,
            tint,
        ),
{
    let ghost before = items_of(out@);
    let ghost all = vector_items(placed@, *data, x, y, sx, sy, even, tint);
    let mut i: usize = 0;
    assert(before + all.take(0) =~= before);
    while i < data.paths.len()
        invariant
            i <= data.paths.len(),
            all == vector_items(placed@, *data, x, y, sx, sy, even, tint),
            items_of(out@) == before + all.take(i as int),
        decreases data.paths.len() - i,
    {
        let item = &data.paths[i];
        let stroke: Option<([u8; 4], Num)> = match item.stroke {
            Some((color, width)) => Some(
                (
                    stain(color, tint),
                    if even {
                        width.times(sx)
                    } else {
                        width.times(sx.plus(sy)).over(num(TWO))
                    },
                ),
            ),
            None => None,
        };
        let fill: [u8; 4] = match item.fill {
            Some(fill) => stain(fill, tint),
            None => [0, 0, 0, 0],
        };
        let shape = ResolvedShape::Path {
            elements: place_path(item.elements.as_slice(), x, y, sx, sy),
            stroke,
        };
        put(out, placed, shape, fill);
        assert(items_of(out@) =~= before + all.take(i as int + 1));
        i = i + 1;
    }
    assert(all.take(i as int) =~= all);
}

/// How a symbol of some size sits in a box: the scale it is drawn at, and how far it is from
/// the box's left and top.
pub open spec fn fitted(width: Num, height: Num, size: [Num; 2]) -> (Num, Num, Num) {
    let fit = min_of(quotient_of(size[0], width), quotient_of(size[1], height));
    (
        fit,
        quotient_of(sum_of(size[0], opposite_of(product_of(width, fit))), num(TWO)),
        quotient_of(sum_of(size[1], opposite_of(product_of(height, fit))), num(TWO)),
    )
}

fn fit_in(width: Num, height: Num, size: [Num; 2]) -> (r: (Num, Num, Num))
    ensures
        r == fitted(width, height, size),
{
    let fit = size[0].over(width).min(size[1].over(height));
    (
        fit,
        size[0].minus(width.times(fit)).over(num(TWO)),
        size[1].minus(height.times(fit)).over(num(TWO)),
    )
}

/// The window of a reel, in symbols: at least one.
pub open spec fn window_of(reel: Reel) -> nat {
    if reel.window < 1 {
        1
    } else {
        reel.window as nat
    }
}

/// The box of one symbol of a reel row, in the layer's own units.
pub open spec fn symbol_box(reel: Reel, width: Num, height: Num, count: nat) -> [Num; 2] {
    [
        quotient_of(width, from_int(count as int)),
        quotient_of(height, from_int(window_of(reel) as int)),
    ]
}

/// Where the symbol a cell stands on sits in its window.
pub open spec fn middle_of(reel: Reel) -> Num {
    quotient_of(
        sum_of(from_int(window_of(reel) as int), opposite_of(num(ONE))),
        num(TWO),
    )
}

/// The first symbol a window can see, counted along the ring.
pub open spec fn first_seen(reel: Reel, position: Num) -> Num {
    floor_of(sum_of(position, opposite_of(middle_of(reel))))
}

impl State {
    /// A font style of the show.
    pub open spec fn style(self, name: Seq<char>) -> Option<FontStyle> {
        match self.show {
            Some(show) => lookup(show.fonts@, name),
            None => None,
        }
    }

    /// A text in a bitmap font, or the silhouette behind it.
    pub open spec fn text_raster(
        self,
        style_name: Seq<char>,
        text: Seq<char>,
        size: Option<[Num; 2]>,
        align: Align,
        as_shadow: bool,
    ) -> Option<Raster> {
        match self.style(style_name) {
            None => None,
            Some(style) => match lookup(self.fonts, style.file@) {
                None => None,
                Some(font) => styled_as(style, font, as_shadow).raster(text, size, align),
            },
        }
    }

    /// How a text gets drawn: a glyph run for an outline font, a raster for a bitmap font.
    /// Nothing where the style's font is not registered, or is an outline font whose measures
    /// are not known at the style's size.
    pub open spec fn text_draw(
        self,
        style_name: Seq<char>,
        text: Seq<char>,
        size: Option<[Num; 2]>,
        align: Align,
    ) -> Option<Typeset> {
        match self.style(style_name) {
            None => None,
            Some(style) => match lookup(self.outline_fonts, style.file@) {
                Some(font) => match (style.size, lookup(self.faces, style_name)) {
                    (Some(em), Some(face)) => {
                        let lines = run_ids(font.data@, text);
                        let blank = text.len() == 0;
                        Some(
                            Typeset::Glyphs {
                                font,
                                size: em,
                                glyphs: face.laid_out(lines, blank, size, align, lines.len()),
                                container: face.container(lines, blank, size),
                            },
                        )
                    },
                    _ => None,
                },
                None => match self.text_raster(style_name, text, size, align, false) {
                    Some(raster) => Some(Typeset::Bitmap(raster)),
                    None => None,
                },
            },
        }
    }

    /// What a text adds to the draw list: its shadow, moved over and in one color, and the
    /// text on top of it.
    #[verifier::opaque]
    pub open spec fn text_items(
        self,
        spot: Spot,
        style_name: Seq<char>,
        text: Seq<char>,
        size: Option<[Num; 2]>,
        align: Align,
    ) -> Seq<Item> {
        match (self.style(style_name), self.text_draw(style_name, text, size, align)) {
            (Some(style), Some(Typeset::Bitmap(raster))) => {
                let label = Lettered { style: style_name, text, size, align, shadow: false };
                let own = seq![raster_item(spot, label, raster, num(0), num(0), num(ONE))];
                match (style.shadow, self.text_raster(style_name, text, size, align, true)) {
                    (Some(shadow), Some(behind)) => seq![
                        raster_item(
                            spot,
                            Lettered { shadow: true, ..label },
                            behind,
                            product_of(shadow.offset[0], spot.scale),
                            product_of(shadow.offset[1], spot.scale),
                            quotient_of(from_int(ink_color(shadow.color@)[3] as int), num(TOP)),
                        ),
                    ] + own,
                    _ => own,
                }
            },
            (Some(style), Some(Typeset::Glyphs { font, size: em, glyphs, .. })) => {
                if glyphs.len() == 0 {
                    Seq::empty()
                } else {
                    let edge = |ink: [u8; 4]|
                        match style.border {
                            Some(b) => Some(
                                (ink, product_of(from_int(b.width as int), spot.scale)),
                            ),
                            None => None,
                        };
                    let own = seq![
                        run_item(
                            spot,
                            font,
                            em,
                            glyphs,
                            ink_color(style.color@),
                            match style.border {
                                Some(b) => edge(ink_color(b.color@)),
                                None => None,
                            },
                            num(0),
                            num(0),
                        ),
                    ];
                    match style.shadow {
                        Some(shadow) => {
                            let ink = ink_color(shadow.color@);
                            seq![
                                run_item(
                                    spot,
                                    font,
                                    em,
                                    glyphs,
                                    ink,
                                    edge(ink),
                                    product_of(shadow.offset[0], spot.scale),
                                    product_of(shadow.offset[1], spot.scale),
                                ),
                            ] + own
                        },
                        None => own,
                    }
                }
            },
            _ => Seq::empty(),
        }
    }

    /// What the artwork of a ring place adds to the draw list, fitted into a box and centred
    /// in it. Missing artwork adds nothing.
    pub open spec fn artwork_items(
        self,
        spot: Spot,
        cells: ReelCells,
        index: int,
        size: [Num; 2],
    ) -> Seq<Item> {
        let x = spot.origin[0];
        let y = spot.origin[1];
        let s = spot.scale;
        if index < 0 || index >= cells.names().len() {
            Seq::empty()
        } else {
            let name = cells.names()[index]@;
            match cells {
                ReelCells::Vectors(_) => match lookup(self.vectors, name) {
                    None => Seq::empty(),
                    Some(data) => if at_most(data.width, num(0)) || at_most(data.height, num(0)) {
                        Seq::empty()
                    } else {
                        let (fit, left, top) = fitted(data.width, data.height, size);
                        let unit = product_of(fit, s);
                        vector_items(
                            spot,
                            data,
                            sum_of(x, product_of(left, s)),
                            sum_of(y, product_of(top, s)),
                            unit,
                            unit,
                            true,
                            [255, 255, 255, 255],
                        )
                    },
                },
                ReelCells::Images(_) => match lookup(self.images, name) {
                    None => Seq::empty(),
                    Some(data) => if data.width == 0 || data.height == 0 {
                        Seq::empty()
                    } else {
                        let width = from_int(data.width as int);
                        let height = from_int(data.height as int);
                        let (fit, left, top) = fitted(width, height, size);
                        seq![
                            spot.item(
                                Drawn::Image {
                                    image: name,
                                    source: None,
                                    x: sum_of(x, product_of(left, s)),
                                    y: sum_of(y, product_of(top, s)),
                                    width: product_of(product_of(width, fit), s),
                                    height: product_of(product_of(height, fit), s),
                                    tile: None,
                                },
                                [255, 255, 255, 255],
                            ),
                        ]
                    },
                },
            }
        }
    }

    /// How far down a character has to move for the ink of some characters to sit in the
    /// middle of the box it is laid out in, rather than the line they share. Nothing where the
    /// font cannot say.
    pub open spec fn ink_centring(self, style_name: Seq<char>, characters: Seq<char>) -> Num {
        match self.style(style_name) {
            None => num(0),
            Some(style) => match self.outline_ink(style, style_name, characters) {
                Some((top, bottom, line)) => sum_of(
                    quotient_of(
                        sum_of(line, opposite_of(sum_of(bottom, opposite_of(top)))),
                        num(TWO),
                    ),
                    opposite_of(top),
                ),
                None => match lookup(self.fonts, style.file@) {
                    None => num(0),
                    Some(font) => {
                        let styled = styled_as(style, font, false);
                        match styled.ink_of(characters, characters.len()) {
                            Some((t, b)) => {
                                let top = from_int(t);
                                let bottom = from_int(b);
                                let line = from_int(styled.face.line_height as int);
                                sum_of(
                                    quotient_of(
                                        sum_of(line, opposite_of(sum_of(bottom, opposite_of(top)))),
                                        num(TWO),
                                    ),
                                    opposite_of(top),
                                )
                            },
                            None => num(0),
                        }
                    },
                },
            },
        }
    }

    /// The ink of some characters in a style's outline font, and the height of their line.
    pub open spec fn outline_ink(
        self,
        style: FontStyle,
        style_name: Seq<char>,
        characters: Seq<char>,
    ) -> Option<(Num, Num, Num)> {
        match (lookup(self.outline_fonts, style.file@), lookup(self.faces, style_name)) {
            (Some(font), Some(face)) => if style.size is None {
                None
            } else {
                match face.ink_in(font.data@, characters) {
                    Some((top, bottom)) => Some((top, bottom, face.line_height())),
                    None => None,
                }
            },
            _ => None,
        }
    }

    /// What symbol `k` of a window adds to the draw list.
    pub open spec fn symbol_items(
        self,
        spot: Spot,
        reel: Reel,
        size: [Num; 2],
        position: Num,
        centring: Num,
        k: nat,
    ) -> Seq<Item> {
        let at = sum_of(first_seen(reel, position), from_int(k as int));
        let slide = sum_of(sum_of(at, opposite_of(position)), middle_of(reel));
        let on = to_u64_of(rem_euclid_of(at, from_int(reel.charset@.len() as int))) as int;
        let down = product_of(size[1], spot.scale);
        let y = spot.origin[1];
        let here = spot.at(spot.origin[0], sum_of(sum_of(y, product_of(slide, down)), centring));
        match (reel.cells, reel.font) {
            (Some(cells), _) => self.artwork_items(here, cells, on, size),
            (None, Some(font)) => if on < reel.charset@.len() {
                self.text_items(here, font@, seq![reel.charset@[on]], Some(size), Align::Center)
            } else {
                Seq::empty()
            },
            (None, None) => Seq::empty(),
        }
    }

    /// What the first `n` symbols of a window add.
    pub open spec fn window_items(
        self,
        spot: Spot,
        reel: Reel,
        size: [Num; 2],
        position: Num,
        centring: Num,
        n: nat,
    ) -> Seq<Item>
        decreases n,
    {
        if n == 0 {
            Seq::empty()
        } else {
            self.window_items(spot, reel, size, position, centring, (n - 1) as nat)
                + self.symbol_items(spot, reel, size, position, centring, (n - 1) as nat)
        }
    }

    /// What one cell of a reel row adds: its window, and every symbol the window can see.
    pub open spec fn cell_items(
        self,
        spot: Spot,
        reel: Reel,
        size: [Num; 2],
        position: Num,
        centring: Num,
    ) -> Seq<Item> {
        let w = product_of(size[0], spot.scale);
        let h = product_of(
            product_of(size[1], spot.scale),
            from_int(window_of(reel) as int),
        );
        let window = Drawn::Rect { x: spot.origin[0], y: spot.origin[1], width: w, height: h };
        seq![spot.marker(Drawn::ClipBegin { shape: Box::new(window) })] + self.window_items(
            spot,
            reel,
            size,
            position,
            centring,
            window_of(reel) + 1,
        ) + seq![spot.marker(Drawn::ClipEnd)]
    }

    /// What the first `n` cells of a reel row add. A cell whose character is not on the ring
    /// shows nothing.
    pub open spec fn row_items(
        self,
        spot: Spot,
        reel: Reel,
        letters: Seq<Option<char>>,
        size: [Num; 2],
        positions: Seq<Num>,
        centring: Num,
        n: nat,
    ) -> Seq<Item>
        decreases n,
    {
        if n == 0 || n > letters.len() {
            Seq::empty()
        } else {
            let before = self.row_items(
                spot,
                reel,
                letters,
                size,
                positions,
                centring,
                (n - 1) as nat,
            );
            let i = n - 1;
            if letters[i] is Some && reel.charset@.contains(letters[i]->0) {
                let position = if i < positions.len() {
                    positions[i]
                } else {
                    num(0)
                };
                let x = sum_of(
                    spot.origin[0],
                    product_of(from_int(i), product_of(size[0], spot.scale)),
                );
                before + self.cell_items(
                    spot.at(x, spot.origin[1]),
                    reel,
                    size,
                    position,
                    centring,
                )
            } else {
                before
            }
        }
    }

    /// What a reel row adds to the draw list: each cell a window on its ring.
    #[verifier::opaque]
    pub open spec fn reel_items(
        self,
        spot: Spot,
        reel: Reel,
        text: Seq<char>,
        width: Num,
        height: Num,
        count: nat,
        justify: Justify,
        positions: Seq<Num>,
    ) -> Seq<Item> {
        if reel.charset@.len() == 0 || count == 0 {
            Seq::empty()
        } else {
            let centring = match (reel.cells, reel.font) {
                (None, Some(font)) => product_of(
                    self.ink_centring(font@, reel.charset@),
                    spot.scale,
                ),
                _ => num(0),
            };
            let letters = celled(text, count, justify);
            self.row_items(
                spot,
                reel,
                letters,
                symbol_box(reel, width, height, count),
                positions,
                centring,
                letters.len(),
            )
        }
    }
}

impl Engine {
    pub(crate) fn style(&self, name: &str) -> (r: Option<&FontStyle>)
        ensures
            match (r, self@.style(name@)) {
                (Some(a), Some(b)) => *a == b,
                (None, None) => true,
                _ => false,
            },
    {
        match &self.show {
            Some(show) => show.fonts.get(name),
            None => None,
        }
    }

    /// Rasterize `text` in font style `style_name`. `None` when the style's font is not
    /// registered or nothing draws. `as_shadow` draws the same text in the style's shadow
    /// color, border included, which is the silhouette that sits behind it.
    pub(crate) fn text_raster(
        &self,
        style_name: &str,
        text: &str,
        size: Option<[Num; 2]>,
        align: Align,
        as_shadow: bool,
    ) -> (r: Option<TextRaster>)
        ensures
            match (r, self@.text_raster(style_name@, text@, size, align, as_shadow)) {
                (Some(a), Some(b)) => a@ == b,
                (None, None) => true,
                _ => false,
            },
    {
        let style = match self.style(style_name) {
            Some(style) => style,
            None => {
                return None;
            },
        };
        match self.fonts.get(style.file.as_str()) {
            Some(font) => style_font(style, font, as_shadow).rasterize(text, size, align),
            None => None,
        }
    }

    /// How `text` in font style `style_name` gets drawn: a glyph run for an outline font, a
    /// raster for a bitmap font. `None` when the style's font is not registered (or is an
    /// outline font without a `size`).
    pub(crate) fn text_draw(
        &self,
        style_name: &str,
        text: &str,
        size: Option<[Num; 2]>,
        align: Align,
    ) -> (r: Option<TextDraw>)
        ensures
            match (r, self@.text_draw(style_name@, text@, size, align)) {
                (Some(a), Some(b)) => a@ == b,
                (None, None) => true,
                _ => false,
            },
    {
        let style = match self.style(style_name) {
            Some(style) => style,
            None => {
                return None;
            },
        };
        if let Some(font) = self.outline_fonts.get(style.file.as_str()) {
            return match (style.size, self.faces.get(style_name)) {
                (Some(em), Some(face)) => {
                    let layout = face.layout(&font.data, text, size, align);
                    Some(
                        TextDraw::Glyphs {
                            font: font.copy(),
                            size: em,
                            glyphs: layout.glyphs,
                            container: layout.container,
                        },
                    )
                },
                _ => None,
            };
        }
        match self.text_raster(style_name, text, size, align, false) {
            Some(raster) => Some(TextDraw::Bitmap(raster)),
            None => None,
        }
    }

    /// Add `text` in font style `style_name` to the draw list, laid out in a box of `size` (the
    /// text's own size when `None`) whose top-left corner sits at the item's origin. Text
    /// layers and the characters of a reel both come through here.
    pub(crate) fn push_text(
        &self,
        out: &mut Vec<ResolvedLayer>,
        placed: &Placed<'_>,
        style_name: &str,
        text: &str,
        size: Option<[Num; 2]>,
        align: Align,
    )
        ensures
            items_of(final(out)@) == items_of(old(out)@) + self@.text_items(
                placed@,
                style_name@,
                text@,
                size,
                align,
            ),
    {
        proof {
            reveal(State::text_items);
        }
        let ghost before = items_of(out@);
        let ghost all = self@.text_items(placed@, style_name@, text@, size, align);
        let scale = placed.scale;
        let style = match self.style(style_name) {
            Some(style) => style,
            None => {
                assert(before + all =~= before);
                return ;
            },
        };
        match self.text_draw(style_name, text, size, align) {
            Some(TextDraw::Bitmap(raster)) => {
                // The shadow goes in first, so the text lands on top of it. Its alpha rides on
                // the layer's opacity.
                if let Some(shadow) = &style.shadow {
                    if let Some(behind) = self.text_raster(style_name, text, size, align, true) {
                        let alpha = Num::from_u64(ink_from(&shadow.color)[3] as u64).over(num(TOP));
                        let dx = shadow.offset[0].times(scale);
                        let dy = shadow.offset[1].times(scale);
                        let label = Lettering {
                            style: owned(style_name),
                            text: owned(text),
                            size,
                            align,
                            shadow: true,
                        };
                        put_raster(out, placed, label, behind, dx, dy, alpha);
                    }
                }
                let label = Lettering {
                    style: owned(style_name),
                    text: owned(text),
                    size,
                    align,
                    shadow: false,
                };
                put_raster(out, placed, label, raster, num(0), num(0), num(ONE));
                assert(items_of(out@) =~= before + all);
            },
            Some(TextDraw::Glyphs { font, size: em, glyphs, .. }) => {
                if glyphs.len() > 0 {
                    if let Some(shadow) = &style.shadow {
                        let ink = ink_from(&shadow.color);
                        let edge: Option<([u8; 4], Num)> = match &style.border {
                            Some(b) => Some((ink, Num::from_u64(b.width as u64).times(scale))),
                            None => None,
                        };
                        let dx = shadow.offset[0].times(scale);
                        let dy = shadow.offset[1].times(scale);
                        put_run(out, placed, &font, em, &glyphs, ink, edge, dx, dy);
                    }
                    let border: Option<([u8; 4], Num)> = match &style.border {
                        Some(b) => Some(
                            (ink_from(&b.color), Num::from_u64(b.width as u64).times(scale)),
                        ),
                        None => None,
                    };
                    let ink = ink_from(&style.color);
                    put_run(out, placed, &font, em, &glyphs, ink, border, num(0), num(0));
                }
                assert(items_of(out@) =~= before + all);
            },
            None => {
                assert(before + all =~= before);
            },
        }
    }

    /// Add the artwork of ring place `index` to the draw list, fitted into a box of `size` at
    /// the item's origin and centred in it, so a symbol keeps its shape whatever shape the
    /// cells are.
    pub(crate) fn push_artwork(
        &self,
        out: &mut Vec<ResolvedLayer>,
        placed: &Placed<'_>,
        cells: &ReelCells,
        index: usize,
        size: [Num; 2],
    )
        ensures
            items_of(final(out)@) == items_of(old(out)@) + self@.artwork_items(
                placed@,
                *cells,
                index as int,
                size,
            ),
    {
        let ghost before = items_of(out@);
        let ghost all = self@.artwork_items(placed@, *cells, index as int, size);
        assert(before + Seq::<Item>::empty() =~= before);
        let name = match cells.at(index) {
            Some(name) => name,
            None => {
                return ;
            },
        };
        let x = placed.origin[0];
        let y = placed.origin[1];
        let s = placed.scale;
        match cells {
            ReelCells::Vectors(_) => {
                // Missing artwork is skipped, as a missing image is.
                if let Some(data) = self.vectors.get(name) {
                    if data.width.le(num(0)) || data.height.le(num(0)) {
                        return ;
                    }
                    let (fit, left, top) = fit_in(data.width, data.height, size);
                    let unit = fit.times(s);
                    put_vector(
                        out,
                        placed,
                        data,
                        x.plus(left.times(s)),
                        y.plus(top.times(s)),
                        unit,
                        unit,
                        true,
                        [255, 255, 255, 255],
                    );
                }
            },
            ReelCells::Images(_) => {
                if let Some(data) = self.images.get(name) {
                    if data.width == 0 || data.height == 0 {
                        return ;
                    }
                    let width = Num::from_u64(data.width as u64);
                    let height = Num::from_u64(data.height as u64);
                    let (fit, left, top) = fit_in(width, height, size);
                    let shape = ResolvedShape::Image {
                        image: crate::text::owned(name),
                        source: None,
                        x: x.plus(left.times(s)),
                        y: y.plus(top.times(s)),
                        width: width.times(fit).times(s),
                        height: height.times(fit).times(s),
                        tile: None,
                    };
                    put(out, placed, shape, [255, 255, 255, 255]);
                    assert(items_of(out@) =~= before + all);
                }
            },
        }
    }

    /// How far down a character has to move for the ink of `characters` to sit in the middle
    /// of the box it is laid out in, rather than the line they share. 0 when the font cannot
    /// say.
    ///
    /// Measuring the whole ring at once, rather than each symbol as it comes, keeps the row
    /// still while it rolls.
    pub(crate) fn ink_centring(&self, style_name: &str, characters: &Vec<char>) -> (r: Num)
        ensures
            r == self@.ink_centring(style_name@, characters@),
    {
        let style = match self.style(style_name) {
            Some(style) => style,
            None => {
                return num(0);
            },
        };
        if let (Some(font), Some(face)) = (
            self.outline_fonts.get(style.file.as_str()),
            self.faces.get(style_name),
        ) {
            if style.size.is_some() {
                if let Some((top, bottom)) = face.ink(&font.data, characters) {
                    let line = face.line_step();
                    return line.minus(bottom.minus(top)).over(num(TWO)).minus(top);
                }
            }
        }
        match self.fonts.get(style.file.as_str()) {
            Some(font) => {
                let styled = style_font(style, font, false);
                match styled.ink(characters) {
                    Some((t, b)) => {
                        let top = Num::from_i64(t);
                        let bottom = Num::from_i64(b);
                        let line = Num::from_i64(styled.line() as i64);
                        line.minus(bottom.minus(top)).over(num(TWO)).minus(top)
                    },
                    None => num(0),
                }
            },
            None => num(0),
        }
    }

    fn push_symbol(
        &self,
        out: &mut Vec<ResolvedLayer>,
        placed: &Placed<'_>,
        reel: &Reel,
        ring: &Vec<char>,
        size: [Num; 2],
        position: Num,
        centring: Num,
        k: u64,
    )
        requires
            ring@ == reel.charset@,
        ensures
            items_of(final(out)@) == items_of(old(out)@) + self@.symbol_items(
                placed@,
                *reel,
                size,
                position,
                centring,
                k as nat,
            ),
    {
        assert(items_of(out@) + Seq::<Item>::empty() =~= items_of(out@));
        let window: u64 = if reel.window < 1 {
            1
        } else {
            reel.window as u64
        };
        let middle = Num::from_u64(window).minus(num(ONE)).over(num(TWO));
        let at = position.minus(middle).floor().plus(Num::from_u64(k));
        let slide = at.minus(position).plus(middle);
        let on: u64 = at.rem_euclid(Num::from_u64(ring.len() as u64)).to_u64();
        let down = size[1].times(placed.scale);
        let y = placed.origin[1];
        let here = Placed { origin: [placed.origin[0], y.plus(slide.times(down)).plus(centring)], ..*placed };
        match (&reel.cells, &reel.font) {
            (Some(cells), _) => {
                if on < cells.len() as u64 {
                    self.push_artwork(out, &here, cells, on as usize, size);
                }
            },
            (None, Some(font)) => {
                if on < ring.len() as u64 {
                    let mut character = String::new();
                    character.push(ring[on as usize]);
                    assert(character@ =~= seq![reel.charset@[on as int]]);
                    self.push_text(
                        out,
                        &here,
                        font.as_str(),
                        character.as_str(),
                        Some(size),
                        Align::Center,
                    );
                }
            },
            (None, None) => {},
        }
    }

    fn push_cell(
        &self,
        out: &mut Vec<ResolvedLayer>,
        placed: &Placed<'_>,
        reel: &Reel,
        ring: &Vec<char>,
        size: [Num; 2],
        position: Num,
        centring: Num,
    )
        requires
            ring@ == reel.charset@,
        ensures
            items_of(final(out)@) == items_of(old(out)@) + self@.cell_items(
                placed@,
                *reel,
                size,
                position,
                centring,
            ),
    {
        let ghost before = items_of(out@);
        let window: u64 = if reel.window < 1 {
            1
        } else {
            reel.window as u64
        };
        // Only what stands in the window shows.
        mark(
            out,
            placed,
            ResolvedShape::ClipBegin {
                shape: Box::new(
                    ResolvedShape::Rect {
                        x: placed.origin[0],
                        y: placed.origin[1],
                        width: size[0].times(placed.scale),
                        height: size[1].times(placed.scale).times(Num::from_u64(window)),
                    },
                ),
            },
        );
        proof {
            reveal_with_fuel(drawn_of, 2);
        }
        let ghost opened = items_of(out@);
        assert(opened + Seq::<Item>::empty() =~= opened);
        // Every symbol the window can see, from the one leaving at its top to the one coming
        // up at its bottom.
        let mut k: u64 = 0;
        while k <= window
            invariant
                k <= window + 1,
                window <= 0xFFFF_FFFF,
                ring@ == reel.charset@,
                items_of(out@) == opened + self@.window_items(
                    placed@,
                    *reel,
                    size,
                    position,
                    centring,
                    k as nat,
                ),
            decreases window + 1 - k,
        {
            self.push_symbol(out, placed, reel, ring, size, position, centring, k);
            k = k + 1;
            assert(items_of(out@) =~= opened + self@.window_items(
                placed@,
                *reel,
                size,
                position,
                centring,
                k as nat,
            ));
        }
        mark(out, placed, ResolvedShape::ClipEnd);
        assert(items_of(out@) =~= before + self@.cell_items(
            placed@,
            *reel,
            size,
            position,
            centring,
        ));
    }

    /// Add a reel row to the draw list: each cell a window on its ring, showing the symbol it
    /// stands on and the ones round it, slid by how far between two it is. A cell whose
    /// character is not on the ring shows nothing.
    pub(crate) fn push_reel(
        &self,
        out: &mut Vec<ResolvedLayer>,
        placed: &Placed<'_>,
        reel: &Reel,
        text: &str,
        size: [Num; 2],
        count: usize,
        justify: Justify,
        positions: Vec<Num>,
    )
        ensures
            items_of(final(out)@) == items_of(old(out)@) + self@.reel_items(
                placed@,
                *reel,
                text@,
                size[0],
                size[1],
                count as nat,
                justify,
                positions@,
            ),
    {
        proof {
            reveal(State::reel_items);
        }
        let ghost before = items_of(out@);
        assert(before + Seq::<Item>::empty() =~= before);
        let ring = reel.characters();
        if ring.len() == 0 || count == 0 {
            return ;
        }
        let window: u64 = if reel.window < 1 {
            1
        } else {
            reel.window as u64
        };
        let cell = [
            size[0].over(Num::from_u64(count as u64)),
            size[1].over(Num::from_u64(window)),
        ];
        // The characters are centred on their ink, as artwork is on its own box, rather than
        // on the line they are laid out in.
        let centring = match (&reel.cells, &reel.font) {
            (None, Some(font)) => self.ink_centring(font.as_str(), &ring).times(placed.scale),
            _ => num(0),
        };
        let letters = cells(text, count, justify);
        let mut i: usize = 0;
        while i < letters.len()
            invariant
                i <= letters.len(),
                ring@ == reel.charset@,
                items_of(out@) == before + self@.row_items(
                    placed@,
                    *reel,
                    letters@,
                    cell,
                    positions@,
                    centring,
                    i as nat,
                ),
            decreases letters.len() - i,
        {
            if let Some(c) = letters[i] {
                if on_ring(&ring, c) {
                    let position = if i < positions.len() {
                        positions[i]
                    } else {
                        num(0)
                    };
                    let x = placed.origin[0].plus(
                        Num::from_u64(i as u64).times(cell[0].times(placed.scale)),
                    );
                    let here = Placed { origin: [x, placed.origin[1]], ..*placed };
                    self.push_cell(out, &here, reel, &ring, cell, position, centring);
                }
            }
            i = i + 1;
            assert(items_of(out@) =~= before + self@.row_items(
                placed@,
                *reel,
                letters@,
                cell,
                positions@,
                centring,
                i as nat,
            ));
        }
    }
}

fn on_ring(ring: &Vec<char>, c: char) -> (r: bool)
    ensures
        r == ring@.contains(c),
{
    let mut i: usize = 0;
    while i < ring.len()
        invariant
            i <= ring.len(),
            forall|k: int| 0 <= k < i ==> ring@[k] != c,
        decreases ring.len() - i,
    {
        if ring[i] == c {
            assert(ring@[i as int] == c);
            return true;
        }
        i = i + 1;
    }
    false
}

} // verus!
