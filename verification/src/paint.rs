//! A draw list as the orders a vector renderer takes, one call each.

use crate::draw::items_of;
use crate::frame::{fade, faded};
use crate::lists::reversed;
use crate::model::Blend;
use crate::nesting::marks;
use crate::num::{from_int, num, product_of, sum_of, Num};
use crate::outline::PlacedGlyph;
use crate::path::PathElement;
use crate::shape::{
    Drawn, Item, Ramp, ResolvedGradient, ResolvedLayer, ResolvedShape, Tiled, Transform,
};
use crate::state::{bits, Bits, Engine, Error, FontData, ImageData, Problem, State};
use crate::waves::TWO;
use vstd::prelude::*;

verus! {

/// A part of the plane.
#[derive(Debug, PartialEq)]
pub enum Region {
    /// Between two corners.
    Rect { x0: Num, y0: Num, x1: Num, y1: Num },
    Circle { cx: Num, cy: Num, radius: Num },
    Path { elements: Vec<PathElement> },
    /// All of it.
    Everything,
}

/// What a region is filled with.
#[derive(Debug, PartialEq)]
pub enum Brush {
    Solid([u8; 4]),
    /// A gradient, at an opacity.
    Gradient { gradient: ResolvedGradient, opacity: Num },
}

/// Pixels to draw.
#[allow(inconsistent_fields)]
#[derive(Debug, PartialEq)]
pub enum Picture {
    /// A registered image, or a pixel rectangle of it, multiplied by a tint.
    Named { image: String, source: Option<[u32; 4]>, tint: [u8; 4] },
    Pixels { image: ImageData },
}

/// One order to a vector renderer.
#[derive(Debug, PartialEq)]
pub enum Command {
    Fill { region: Region, brush: Brush, placement: Transform },
    Stroke { elements: Vec<PathElement>, color: [u8; 4], width: Num, placement: Transform },
    /// Show only what is inside a region, until the matching [`Command::Pop`].
    Clip { region: Region, placement: Transform },
    /// Composite as one picture, until the matching [`Command::Pop`].
    Blend { blend: Blend },
    Pop,
    /// Glyphs, filled, or outlined at a width.
    Glyphs {
        font: FontData,
        size: Num,
        glyphs: Vec<PlacedGlyph>,
        color: [u8; 4],
        outline: Option<Num>,
        placement: Transform,
    },
    /// A picture stretched to a box, or tiled across it.
    Draw {
        picture: Picture,
        x: Num,
        y: Num,
        width: Num,
        height: Num,
        tile: Option<Tiled>,
        opacity: Num,
        placement: Transform,
    },
}

/// A [`Region`], by value.
pub ghost enum Area {
    Rect { x0: Num, y0: Num, x1: Num, y1: Num },
    Circle { cx: Num, cy: Num, radius: Num },
    Path { elements: Seq<PathElement> },
    Everything,
}

/// A [`Brush`], by value.
pub ghost enum Inking {
    Solid([u8; 4]),
    Gradient { gradient: Ramp, opacity: Num },
}

/// A [`Picture`], by value.
pub ghost enum Image {
    Named { image: Seq<char>, source: Option<[u32; 4]>, tint: [u8; 4] },
    Pixels { content: Bits },
}

/// A [`Command`], by value.
pub ghost enum Order {
    Fill { region: Area, brush: Inking, placement: Transform },
    Stroke { elements: Seq<PathElement>, color: [u8; 4], width: Num, placement: Transform },
    Clip { region: Area, placement: Transform },
    Blend { blend: Blend },
    Pop,
    Glyphs {
        font: FontData,
        size: Num,
        glyphs: Seq<PlacedGlyph>,
        color: [u8; 4],
        outline: Option<Num>,
        placement: Transform,
    },
    Draw {
        picture: Image,
        x: Num,
        y: Num,
        width: Num,
        height: Num,
        tile: Option<Tiled>,
        opacity: Num,
        placement: Transform,
    },
}

impl View for Region {
    type V = Area;

    open spec fn view(&self) -> Area {
        match *self {
            Region::Rect { x0, y0, x1, y1 } => Area::Rect { x0, y0, x1, y1 },
            Region::Circle { cx, cy, radius } => Area::Circle { cx, cy, radius },
            Region::Path { elements } => Area::Path { elements: elements@ },
            Region::Everything => Area::Everything,
        }
    }
}

impl View for Brush {
    type V = Inking;

    open spec fn view(&self) -> Inking {
        match *self {
            Brush::Solid(color) => Inking::Solid(color),
            Brush::Gradient { gradient, opacity } => Inking::Gradient {
                gradient: gradient@,
                opacity,
            },
        }
    }
}

impl View for Picture {
    type V = Image;

    open spec fn view(&self) -> Image {
        match *self {
            Picture::Named { image, source, tint } => Image::Named { image: image@, source, tint },
            Picture::Pixels { image } => Image::Pixels { content: bits(image) },
        }
    }
}

impl View for Command {
    type V = Order;

    open spec fn view(&self) -> Order {
        match *self {
            Command::Fill { region, brush, placement } => Order::Fill {
                region: region@,
                brush: brush@,
                placement,
            },
            Command::Stroke { elements, color, width, placement } => Order::Stroke {
                elements: elements@,
                color,
                width,
                placement,
            },
            Command::Clip { region, placement } => Order::Clip { region: region@, placement },
            Command::Blend { blend } => Order::Blend { blend },
            Command::Pop => Order::Pop,
            Command::Glyphs { font, size, glyphs, color, outline, placement } => Order::Glyphs {
                font,
                size,
                glyphs: glyphs@,
                color,
                outline,
                placement,
            },
            Command::Draw { picture, x, y, width, height, tile, opacity, placement } => {
                Order::Draw {
                    picture: picture@,
                    x,
                    y,
                    width,
                    height,
                    tile,
                    opacity,
                    placement,
                }
            },
        }
    }
}

pub open spec fn orders_of(list: Seq<Command>) -> Seq<Order> {
    list.map_values(|c: Command| c@)
}

/// A polygon as a closed path.
pub open spec fn polygon_path(points: Seq<[Num; 2]>) -> Seq<PathElement> {
    Seq::new(
        points.len(),
        |i: int|
            if i == 0 {
                PathElement::MoveTo(points[i])
            } else {
                PathElement::LineTo(points[i])
            },
    ).push(PathElement::Close)
}

/// The region a shape covers: anything that is no outline covers everything.
pub open spec fn area_of(shape: Drawn) -> Area {
    match shape {
        Drawn::Rect { x, y, width, height } => Area::Rect {
            x0: x,
            y0: y,
            x1: sum_of(x, width),
            y1: sum_of(y, height),
        },
        Drawn::Circle { cx, cy, radius } => Area::Circle { cx, cy, radius },
        Drawn::Path { elements, .. } => Area::Path { elements },
        Drawn::Polygon { points } => Area::Path { elements: polygon_path(points) },
        _ => Area::Everything,
    }
}

/// What an item is filled with.
pub open spec fn inking(item: Item) -> Inking {
    match item.gradient {
        Some(gradient) => Inking::Gradient { gradient, opacity: item.opacity },
        None => Inking::Solid(faded(item.color, item.opacity)),
    }
}

/// The orders for the shape of an item.
pub open spec fn shape_orders(item: Item) -> Seq<Order> {
    let placement = item.transform;
    match item.shape {
        Drawn::ClipBegin { shape } => seq![Order::Clip { region: area_of(*shape), placement }],
        Drawn::ClipEnd => seq![Order::Pop],
        Drawn::BlendBegin { blend } => seq![Order::Blend { blend }],
        Drawn::BlendEnd => seq![Order::Pop],
        Drawn::Path { elements, stroke } => (if item.color[3] > 0 || item.gradient is Some {
            seq![
                Order::Fill { region: area_of(item.shape), brush: inking(item), placement },
            ]
        } else {
            Seq::empty()
        }) + (match stroke {
            Some((color, width)) => seq![
                Order::Stroke { elements, color: faded(color, item.opacity), width, placement },
            ],
            None => Seq::empty(),
        }),
        Drawn::GlyphRun { font, size, glyphs, border } => (match border {
            Some((color, width)) => seq![
                Order::Glyphs {
                    font,
                    size,
                    glyphs,
                    color: faded(color, item.opacity),
                    outline: Some(product_of(width, num(TWO))),
                    placement,
                },
            ],
            None => Seq::empty(),
        }) + seq![
            Order::Glyphs {
                font,
                size,
                glyphs,
                color: faded(item.color, item.opacity),
                outline: None,
                placement,
            },
        ],
        Drawn::Image { image, source, x, y, width, height, tile } => seq![
            Order::Draw {
                picture: Image::Named { image, source, tint: item.color },
                x,
                y,
                width,
                height,
                tile,
                opacity: item.opacity,
                placement,
            },
        ],
        Drawn::Bitmap { content, x, y, width, height, .. } => seq![
            Order::Draw {
                picture: Image::Pixels { content },
                x,
                y,
                width,
                height,
                tile: None,
                opacity: item.opacity,
                placement,
            },
        ],
        _ => seq![Order::Fill { region: area_of(item.shape), brush: inking(item), placement }],
    }
}

/// The orders for an item: one that blends is composited on its own.
pub open spec fn item_orders(item: Item) -> Seq<Order> {
    if item.blend == Blend::Normal {
        shape_orders(item)
    } else {
        seq![Order::Blend { blend: item.blend }] + shape_orders(item) + seq![Order::Pop]
    }
}

/// The orders for a draw list.
pub open spec fn painted(items: Seq<Item>) -> Seq<Order>
    decreases items.len(),
{
    if items.len() == 0 {
        Seq::empty()
    } else {
        painted(items.drop_last()) + item_orders(items.last())
    }
}

pub(crate) fn polygon(points: &Vec<[Num; 2]>) -> (r: Vec<PathElement>)
    ensures
        r@ == polygon_path(points@),
{
    let ghost all = polygon_path(points@);
    let mut out: Vec<PathElement> = Vec::new();
    let mut i: usize = 0;
    while i < points.len()
        invariant
            i <= points.len(),
            all == polygon_path(points@),
            out@ == all.take(i as int),
        decreases points.len() - i,
    {
        if i == 0 {
            out.push(PathElement::MoveTo(points[i]));
        } else {
            out.push(PathElement::LineTo(points[i]));
        }
        i = i + 1;
        assert(out@ =~= all.take(i as int));
    }
    out.push(PathElement::Close);
    assert(out@ =~= all);
    out
}

fn region(shape: ResolvedShape) -> (r: Region)
    ensures
        r@ == area_of(shape@),
{
    match shape {
        ResolvedShape::Rect { x, y, width, height } => Region::Rect {
            x0: x,
            y0: y,
            x1: x.plus(width),
            y1: y.plus(height),
        },
        ResolvedShape::Circle { cx, cy, radius } => Region::Circle { cx, cy, radius },
        ResolvedShape::Path { elements, .. } => Region::Path { elements },
        ResolvedShape::Polygon { points } => Region::Path { elements: polygon(&points) },
        _ => Region::Everything,
    }
}

fn add_command(out: &mut Vec<Command>, command: Command)
    ensures
        orders_of(final(out)@) == orders_of(old(out)@).push(command@),
{
    let ghost before = orders_of(out@);
    out.push(command);
    assert(orders_of(out@) =~= before.push(command@));
}

fn copy_elements(elements: &Vec<PathElement>) -> (r: Vec<PathElement>)
    ensures
        r@ == elements@,
{
    let mut out: Vec<PathElement> = Vec::new();
    let mut i: usize = 0;
    while i < elements.len()
        invariant
            i <= elements.len(),
            out@ == elements@.take(i as int),
        decreases elements.len() - i,
    {
        out.push(elements[i]);
        i = i + 1;
        assert(out@ =~= elements@.take(i as int));
    }
    assert(out@ =~= elements@);
    out
}

fn copy_glyphs(glyphs: &Vec<PlacedGlyph>) -> (r: Vec<PlacedGlyph>)
    ensures
        r@ == glyphs@,
{
    let mut out: Vec<PlacedGlyph> = Vec::new();
    let mut i: usize = 0;
    while i < glyphs.len()
        invariant
            i <= glyphs.len(),
            out@ == glyphs@.take(i as int),
        decreases glyphs.len() - i,
    {
        out.push(glyphs[i]);
        i = i + 1;
        assert(out@ =~= glyphs@.take(i as int));
    }
    assert(out@ =~= glyphs@);
    out
}

pub open spec fn ramp_view(gradient: Option<ResolvedGradient>) -> Option<Ramp> {
    match gradient {
        Some(g) => Some(g@),
        None => None,
    }
}

fn paint_shape(
    shape: ResolvedShape,
    color: [u8; 4],
    gradient: Option<ResolvedGradient>,
    opacity: Num,
    placement: Transform,
    out: &mut Vec<Command>,
)
    ensures
        forall|item: Item|
            item.shape == shape@ && item.color == color && item.opacity == opacity
                && item.transform == placement && item.gradient == ramp_view(gradient) ==> orders_of(final(out)@) == orders_of(old(out)@) + #[trigger] shape_orders(
                    item,
                ),
{
    let ghost before = orders_of(out@);
    let ghost ramp = ramp_view(gradient);
    let filled: bool = color[3] > 0 || gradient.is_some();
    let brush = match gradient {
        Some(gradient) => Brush::Gradient { gradient, opacity },
        None => Brush::Solid(fade(color, opacity)),
    };
    match shape {
        ResolvedShape::ClipBegin { shape } => {
            let region = region(*shape);
            add_command(out, Command::Clip { region, placement });
        },
        ResolvedShape::ClipEnd => {
            add_command(out, Command::Pop);
        },
        ResolvedShape::BlendBegin { blend } => {
            add_command(out, Command::Blend { blend });
        },
        ResolvedShape::BlendEnd => {
            add_command(out, Command::Pop);
        },
        ResolvedShape::Path { elements, stroke } => {
            if filled {
                let region = Region::Path { elements: copy_elements(&elements) };
                add_command(out, Command::Fill { region, brush, placement });
            }
            if let Some((color, width)) = stroke {
                let color = fade(color, opacity);
                add_command(out, Command::Stroke { elements, color, width, placement });
            }
        },
        ResolvedShape::GlyphRun { font, size, glyphs, border } => {
            // The border first, as a stroke of twice its width, and the fill on top: what
            // stays visible is a border outside the glyph.
            if let Some((edge, width)) = border {
                add_command(
                    out,
                    Command::Glyphs {
                        font: font.copy(),
                        size,
                        glyphs: copy_glyphs(&glyphs),
                        color: fade(edge, opacity),
                        outline: Some(width.times(num(TWO))),
                        placement,
                    },
                );
            }
            let color = fade(color, opacity);
            add_command(
                out,
                Command::Glyphs { font, size, glyphs, color, outline: None, placement },
            );
        },
        ResolvedShape::Image { image, source, x, y, width, height, tile } => {
            let picture = Picture::Named { image, source, tint: color };
            add_command(
                out,
                Command::Draw { picture, x, y, width, height, tile, opacity, placement },
            );
        },
        ResolvedShape::Bitmap { image, x, y, width, height, .. } => {
            let picture = Picture::Pixels { image };
            add_command(
                out,
                Command::Draw { picture, x, y, width, height, tile: None, opacity, placement },
            );
        },
        other => {
            let region = region(other);
            add_command(out, Command::Fill { region, brush, placement });
        },
    }
    assert forall|item: Item|
        item.shape == shape@ && item.color == color && item.opacity == opacity && item.transform
            == placement && item.gradient == ramp implies orders_of(out@) == before
        + #[trigger] shape_orders(item) by {
        assert(orders_of(out@) =~= before + shape_orders(item));
    }
}

/// The orders that paint a draw list, in paint order.
pub fn paint(layers: Vec<ResolvedLayer>) -> (r: Vec<Command>)
    ensures
        orders_of(r@) == painted(items_of(layers@)),
{
    let ghost all = items_of(layers@);
    // The layers, the first one last, so that each can be taken in turn.
    let mut back = reversed(layers);
    assert(all =~= items_of(back@).reverse());
    let mut out: Vec<Command> = Vec::new();
    let ghost mut n: int = 0;
    assert(orders_of(out@) =~= painted(all.take(0)));
    while back.len() > 0
        invariant
            n + back@.len() == all.len(),
            n >= 0,
            items_of(back@).reverse() == all.skip(n),
            orders_of(out@) == painted(all.take(n)),
        decreases back.len(),
    {
        let ghost rest = back@;
        if let Some(layer) = back.pop() {
            let ghost item = layer@;
            let ghost before = orders_of(out@);
            proof {
                assert(items_of(rest).reverse()[0] == item);
                assert(all.skip(n)[0] == all[n]);
                assert(all.take(n + 1).drop_last() =~= all.take(n));
                assert(all.take(n + 1).last() == item);
            }
            let blended: bool = layer.blend != Blend::Normal;
            if blended {
                add_command(&mut out, Command::Blend { blend: layer.blend });
            }
            paint_shape(
                layer.shape,
                layer.color,
                layer.gradient,
                layer.opacity,
                layer.transform,
                &mut out,
            );
            if blended {
                add_command(&mut out, Command::Pop);
            }
            proof {
                let own = shape_orders(item);
                assert(orders_of(out@) =~= before + item_orders(item));
                assert(items_of(back@).reverse() =~= items_of(rest).reverse().skip(1));
                assert(all.skip(n).skip(1) =~= all.skip(n + 1));
                n = n + 1;
            }
        }
    }
    assert(all.take(n) =~= all);
    out
}

/// The order that shows only what is inside the canvas.
pub open spec fn canvas_clip(size: [u32; 2]) -> Order {
    Order::Clip {
        region: Area::Rect {
            x0: num(0),
            y0: num(0),
            x1: from_int(size[0] as int),
            y1: from_int(size[1] as int),
        },
        placement: Transform::unmoved(),
    }
}

/// Orders for a surface larger than the canvas, so far.
pub ghost struct Framed {
    pub orders: Seq<Order>,
    /// Whether the clip to the canvas is open.
    pub inside: bool,
}

impl Framed {
    /// With the clip to the canvas closed, where it was open.
    pub open spec fn closed(self) -> Seq<Order> {
        if self.inside {
            self.orders.push(Order::Pop)
        } else {
            self.orders
        }
    }

    /// With one more item. What may draw past the canvas, and what opens or closes something,
    /// stands outside the clip; an item that blends with what is beneath it has the clip of its
    /// own, inside the blend.
    pub open spec fn and(self, item: Item, size: [u32; 2]) -> Framed {
        if item.overflow || marks(item.shape) {
            Framed { orders: self.closed() + item_orders(item), inside: false }
        } else if item.blend != Blend::Normal {
            Framed {
                orders: self.closed() + seq![
                    Order::Blend { blend: item.blend },
                    canvas_clip(size),
                ] + shape_orders(item) + seq![Order::Pop, Order::Pop],
                inside: false,
            }
        } else {
            Framed {
                orders: (if self.inside {
                    self.orders
                } else {
                    self.orders.push(canvas_clip(size))
                }) + shape_orders(item),
                inside: true,
            }
        }
    }
}

/// The orders for a draw list on a surface larger than the canvas: each run of items that stay
/// on the canvas is clipped to it, and the others are not.
pub open spec fn framed(items: Seq<Item>, size: [u32; 2]) -> Framed
    decreases items.len(),
{
    if items.len() == 0 {
        Framed { orders: Seq::empty(), inside: false }
    } else {
        framed(items.drop_last(), size).and(items.last(), size)
    }
}

fn is_mark(shape: &ResolvedShape) -> (r: bool)
    ensures
        r == marks(shape@),
{
    match shape {
        ResolvedShape::ClipBegin { .. } => true,
        ResolvedShape::ClipEnd => true,
        ResolvedShape::BlendBegin { .. } => true,
        ResolvedShape::BlendEnd => true,
        _ => false,
    }
}

fn clip_canvas(out: &mut Vec<Command>, size: [u32; 2])
    ensures
        orders_of(final(out)@) == orders_of(old(out)@).push(canvas_clip(size)),
{
    let region = Region::Rect {
        x0: num(0),
        y0: num(0),
        x1: Num::from_u64(size[0] as u64),
        y1: Num::from_u64(size[1] as u64),
    };
    add_command(out, Command::Clip { region, placement: Transform::identity() });
}

fn frame_layer(layer: ResolvedLayer, size: [u32; 2], inside: bool, out: &mut Vec<Command>) -> (r:
    bool)
    ensures
        (Framed { orders: orders_of(final(out)@), inside: r }) == (Framed {
            orders: orders_of(old(out)@),
            inside,
        }).and(layer@, size),
{
    let ghost item = layer@;
    let ghost f = Framed { orders: orders_of(out@), inside };
    let ghost own = shape_orders(item);
    let blended: bool = layer.blend != Blend::Normal;
    let free: bool = layer.overflow || is_mark(&layer.shape);
    if inside && (free || blended) {
        add_command(out, Command::Pop);
    }
    if blended {
        add_command(out, Command::Blend { blend: layer.blend });
    }
    if !free && (blended || !inside) {
        clip_canvas(out, size);
    }
    let ghost before = orders_of(out@);
    paint_shape(layer.shape, layer.color, layer.gradient, layer.opacity, layer.transform, out);
    assert(orders_of(out@) == before + own);
    if blended {
        if !free {
            add_command(out, Command::Pop);
        }
        add_command(out, Command::Pop);
    }
    assert(orders_of(out@) =~= f.and(item, size).orders);
    !free && !blended
}

/// The orders that paint a draw list on a surface larger than the canvas, in paint order: what
/// is marked as overflowing draws past the canvas, and nothing else does.
pub fn paint_framed(layers: Vec<ResolvedLayer>, size: [u32; 2]) -> (r: Vec<Command>)
    ensures
        orders_of(r@) == framed(items_of(layers@), size).closed(),
{
    let ghost all = items_of(layers@);
    let mut back = reversed(layers);
    assert(all =~= items_of(back@).reverse());
    let mut out: Vec<Command> = Vec::new();
    let mut inside: bool = false;
    let ghost mut n: int = 0;
    proof {
        assert(all.skip(0) =~= all);
        assert(orders_of(out@) =~= Seq::<Order>::empty());
    }
    while back.len() > 0
        invariant
            n + back@.len() == all.len(),
            n >= 0,
            items_of(back@).reverse() == all.skip(n),
            framed(all.take(n), size) == (Framed { orders: orders_of(out@), inside }),
        decreases back.len(),
    {
        let ghost rest = back@;
        if let Some(layer) = back.pop() {
            let ghost item = layer@;
            proof {
                assert(items_of(rest).reverse()[0] == item);
                assert(all.skip(n)[0] == all[n]);
                assert(all.take(n + 1).drop_last() =~= all.take(n));
                assert(all.take(n + 1).last() == item);
            }
            inside = frame_layer(layer, size, inside, &mut out);
            proof {
                assert(items_of(back@).reverse() =~= items_of(rest).reverse().skip(1));
                assert(all.skip(n).skip(1) =~= all.skip(n + 1));
                n = n + 1;
            }
        }
    }
    assert(all.take(n) =~= all);
    if inside {
        add_command(&mut out, Command::Pop);
    }
    out
}

impl State {
    /// The orders that paint the show now on a surface larger than its canvas.
    pub open spec fn presented(self) -> Result<Seq<Order>, Problem> {
        match self.resolved() {
            Ok(items) => Ok(framed(items, self.show->0.size).closed()),
            Err(problem) => Err(problem),
        }
    }

    /// The orders that paint the show now.
    pub open spec fn picture(self) -> Result<Seq<Order>, Problem> {
        match self.resolved() {
            Ok(items) => Ok(painted(items)),
            Err(problem) => Err(problem),
        }
    }
}

impl Engine {
    /// The orders that paint the show now on a surface larger than its canvas, in the canvas's
    /// coordinates: layers marked to overflow draw past the canvas, everything else is clipped
    /// to it.
    pub fn presented(&mut self) -> (r: Result<Vec<Command>, Error>)
        ensures
            final(self)@ == old(self)@.once_drawn(),
            match (r, old(self)@.presented()) {
                (Ok(list), Ok(orders)) => orders_of(list@) == orders,
                (Err(e), Err(problem)) => e@ == problem,
                _ => false,
            },
    {
        let size: [u32; 2] = match &self.show {
            Some(show) => show.size,
            None => [0, 0],
        };
        match self.resolved_layers() {
            Ok(layers) => Ok(paint_framed(layers, size)),
            Err(e) => Err(e),
        }
    }

    /// The orders that paint the show now.
    pub fn picture(&mut self) -> (r: Result<Vec<Command>, Error>)
        ensures
            final(self)@ == old(self)@.once_drawn(),
            match (r, old(self)@.picture()) {
                (Ok(list), Ok(orders)) => orders_of(list@) == orders,
                (Err(e), Err(problem)) => e@ == problem,
                _ => false,
            },
    {
        match self.resolved_layers() {
            Ok(layers) => Ok(paint(layers)),
            Err(e) => Err(e),
        }
    }
}

} // verus!
