//! Flattening the show into a draw list.

use crate::draw::{items_of, mark, put, put_vector, vector_items, Placed, Spot, TextDraw};
use crate::color::{color_of, parse_color};
use crate::hear::{frame_key, frame_name};
use crate::lamp::TOP;
use crate::lists::{first_where, lemma_first_where, reversed};
use crate::model::{
    Align, Blend, DigitDisplay, Fill, Glow, Justify, Layer, LayerKind, OutputMode, Property,
    Scaling, SegmentStyle, Shape, Sheet, Stroke, Tile,
};
use crate::names::lookup;
use crate::arith::{
    lemma_clamped, lemma_commutes, lemma_opposite, lemma_small_sizes, lemma_times_one,
    lemma_times_zero,
};
use crate::num::{
    at_most, ceil_of, clamp_of, equal, from_int, lemma_size_at_least, lemma_size_zero, less,
    magnitude, max_of, num, one_unit, opposite_of, product_of, quotient_of, rem_euclid_of,
    round_of, rounded, sum_of, to_byte_of, to_u64_of, Num,
};
use crate::order::{counts, lemma_product_rises, lemma_rounded_within, lemma_whole_number};
use crate::paint::{polygon, polygon_path};
use crate::path::{bounds, bounds_of, PathElement};
use crate::segments::{
    dotted, fitted, lean, lean_of, lemma_dot_comes_last, masks, point_lists, polygons, polygons_of,
    Look, BAR, DOT,
};
use crate::shape::{
    cell_of, color_from, color_or, drawn_of, ramp_of, resolve_gradient, resolve_shape, shape_drawn,
    sheet_cell, Drawn, Item, Ramp, ResolvedGradient, ResolvedLayer, ResolvedShape, Tiled,
    Transform,
};
use crate::state::{Engine, Error, Play, Problem, State, Vector};
use crate::tree::{root_layers, rooted, Root};
use crate::uploads::number_bitmaps;
use crate::waves::{ONE, TWO};
use vstd::arithmetic::power2::{
    lemma2_to64, lemma2_to64_rest, lemma_pow2_adds, lemma_pow2_pos, pow2,
};
use vstd::prelude::*;

verus! {

/// How many rings a segment's glow is drawn in.
pub const GLOW_STEPS: u32 = 8;

/// What a layer takes from the tree above it.
#[derive(Clone, Copy, Debug)]
pub struct Inherited {
    pub transform: Transform,
    pub opacity: Num,
    /// Whether the tree above may draw past the canvas.
    pub overflow: bool,
}

impl Inherited {
    /// At the top of a tree: nothing placed, nothing faded, nothing allowed past the canvas
    /// yet.
    pub open spec fn nothing() -> Inherited {
        Inherited { transform: Transform::unmoved(), opacity: num(ONE), overflow: false }
    }

    fn top() -> (r: Inherited)
        ensures
            r == Inherited::nothing(),
    {
        Inherited { transform: Transform::identity(), opacity: num(ONE), overflow: false }
    }

    /// Where a layer lands. Baked into the coordinates where it can be; otherwise the shape
    /// stays local and the transform carries it.
    pub open spec fn spot(self, layer: Layer) -> Spot {
        let (scale, x, y, transform) = match self.transform.upright() {
            Some((scale, x, y)) => (scale, x, y, Transform::unmoved()),
            None => (num(ONE), num(0), num(0), self.transform),
        };
        Spot {
            name: layer.name@,
            origin: [x, y],
            scale,
            opacity: self.opacity,
            blend: layer.blend,
            overflow: self.overflow,
            transform,
        }
    }

    fn place<'a>(&self, layer: &'a Layer) -> (r: Placed<'a>)
        ensures
            r@ == self.spot(*layer),
    {
        let (scale, x, y, transform) = match self.transform.plain() {
            Some((scale, x, y)) => (scale, x, y, Transform::identity()),
            None => (num(ONE), num(0), num(0), self.transform),
        };
        Placed {
            name: layer.name.as_str(),
            origin: [x, y],
            scale,
            opacity: self.opacity,
            blend: layer.blend,
            overflow: self.overflow,
            transform,
        }
    }
}

/// A shape layer's fill: its color, and the gradient where it is one. A gradient keeps its
/// first stop as the color that a host without gradients would draw.
pub open spec fn filled(fill: Fill, x: Num, y: Num, scale: Num) -> Result<
    ([u8; 4], Option<Ramp>),
    Problem,
> {
    match fill {
        Fill::Color(color) => match color_or(color@) {
            Ok(c) => Ok((c, None)),
            Err(problem) => Err(problem),
        },
        Fill::Gradient(gradient) => match ramp_of(gradient, x, y, scale) {
            Err(problem) => Err(problem),
            Ok(ramp) => {
                let stops = gradient.colors();
                let first = if stops.len() == 0 {
                    None
                } else {
                    color_of(stops[0].color@)
                };
                Ok(
                    (
                        match first {
                            Some(c) => c,
                            None => [255, 255, 255, 255],
                        },
                        Some(ramp),
                    ),
                )
            },
        },
    }
}

fn fill_of(fill: &Fill, x: Num, y: Num, scale: Num) -> (r: Result<
    ([u8; 4], Option<ResolvedGradient>),
    Error,
>)
    ensures
        match (r, filled(*fill, x, y, scale)) {
            (Ok((color, gradient)), Ok((c, ramp))) => color == c && match (gradient, ramp) {
                (Some(a), Some(b)) => a@ == b,
                (None, None) => true,
                _ => false,
            },
            (Err(e), Err(problem)) => e@ == problem,
            _ => false,
        },
{
    match fill {
        Fill::Color(color) => match color_from(color) {
            Ok(c) => Ok((c, None)),
            Err(e) => Err(e),
        },
        Fill::Gradient(gradient) => match resolve_gradient(gradient, x, y, scale) {
            Err(e) => Err(e),
            Ok(ramp) => {
                let stops = gradient.stops();
                let first: Option<[u8; 4]> = if stops.len() == 0 {
                    None
                } else {
                    parse_color(stops[0].color.as_str())
                };
                let color = match first {
                    Some(c) => c,
                    None => [255, 255, 255, 255],
                };
                Ok((color, Some(ramp)))
            },
        },
    }
}

/// A layer's outline: its color and how wide it is drawn.
pub open spec fn outlined(stroke: Option<Stroke>, scale: Num) -> Result<
    Option<([u8; 4], Num)>,
    Problem,
> {
    match stroke {
        None => Ok(None),
        Some(s) => match color_or(s.color@) {
            Ok(c) => Ok(Some((c, product_of(s.width, scale)))),
            Err(problem) => Err(problem),
        },
    }
}

fn outline(stroke: &Option<Stroke>, scale: Num) -> (r: Result<Option<([u8; 4], Num)>, Error>)
    ensures
        match (r, outlined(*stroke, scale)) {
            (Ok(a), Ok(b)) => a == b,
            (Err(e), Err(problem)) => e@ == problem,
            _ => false,
        },
{
    match stroke {
        None => Ok(None),
        Some(s) => match color_from(&s.color) {
            Ok(c) => Ok(Some((c, s.width.times(scale)))),
            Err(e) => Err(e),
        },
    }
}

/// What a shape layer adds to the draw list.
pub open spec fn shape_items(spot: Spot, shape: Shape, fill: Fill, stroke: Option<Stroke>) -> Result<
    Seq<Item>,
    Problem,
> {
    let x = spot.origin[0];
    let y = spot.origin[1];
    match filled(fill, x, y, spot.scale) {
        Err(problem) => Err(problem),
        Ok((color, gradient)) => match outlined(stroke, spot.scale) {
            Err(problem) => Err(problem),
            Ok(stroke) => Ok(
                seq![
                    Item {
                        gradient,
                        ..spot.item(shape_drawn(shape, x, y, spot.scale, stroke), color)
                    },
                ],
            ),
        },
    }
}

fn push_shape(
    out: &mut Vec<ResolvedLayer>,
    placed: &Placed<'_>,
    shape: &Shape,
    fill: &Fill,
    stroke: &Option<Stroke>,
) -> (r: Result<(), Error>)
    ensures
        match (r, shape_items(placed@, *shape, *fill, *stroke)) {
            (Ok(()), Ok(items)) => items_of(final(out)@) == items_of(old(out)@) + items,
            (Err(e), Err(problem)) => e@ == problem,
            _ => false,
        },
{
    let x = placed.origin[0];
    let y = placed.origin[1];
    let (color, gradient) = match fill_of(fill, x, y, placed.scale) {
        Ok(f) => f,
        Err(e) => {
            return Err(e);
        },
    };
    let stroke = match outline(stroke, placed.scale) {
        Ok(s) => s,
        Err(e) => {
            return Err(e);
        },
    };
    let item = ResolvedLayer {
        gradient,
        overflow: placed.overflow,
        name: crate::text::owned(placed.name),
        shape: resolve_shape(shape, x, y, placed.scale, stroke),
        color,
        opacity: placed.opacity,
        blend: placed.blend,
        transform: placed.transform,
    };
    let ghost before = items_of(out@);
    out.push(item);
    assert(items_of(out@) =~= before + seq![item@]);
    Ok(())
}

/// What some polygons in a color add to the draw list.
pub open spec fn polygon_items(spot: Spot, list: Seq<Seq<[Num; 2]>>, color: [u8; 4]) -> Seq<Item> {
    Seq::new(list.len(), |i: int| spot.item(Drawn::Polygon { points: list[i] }, color))
}

fn push_polygons(
    out: &mut Vec<ResolvedLayer>,
    placed: &Placed<'_>,
    list: Vec<Vec<[Num; 2]>>,
    color: [u8; 4],
)
    ensures
        items_of(final(out)@) == items_of(old(out)@) + polygon_items(
            placed@,
            point_lists(list@),
            color,
        ),
{
    let ghost before = items_of(out@);
    let ghost all = polygon_items(placed@, point_lists(list@), color);
    let mut i: usize = 0;
    assert(before + all.take(0) =~= before);
    while i < list.len()
        invariant
            i <= list.len(),
            all == polygon_items(placed@, point_lists(list@), color),
            items_of(out@) == before + all.take(i as int),
        decreases list.len() - i,
    {
        let points = copy_points(&list[i]);
        put(out, placed, ResolvedShape::Polygon { points }, color);
        assert(items_of(out@) =~= before + all.take(i as int + 1));
        i = i + 1;
    }
    assert(all.take(i as int) =~= all);
}

fn copy_points(points: &Vec<[Num; 2]>) -> (r: Vec<[Num; 2]>)
    ensures
        r@ == points@,
{
    let mut out: Vec<[Num; 2]> = Vec::new();
    let mut i: usize = 0;
    while i < points.len()
        invariant
            i <= points.len(),
            out@ == points@.take(i as int),
        decreases points.len() - i,
    {
        out.push(points[i]);
        i = i + 1;
        assert(out@ =~= points@.take(i as int));
    }
    assert(out@ =~= points@);
    out
}

/// The polygons of a digit cell, all wound the same way round, so that filled as one path they
/// cover what any of them covers.
pub open spec fn wound(
    style: SegmentStyle,
    mask: u16,
    cell: [Num; 4],
    snap: bool,
    look: Look,
) -> Seq<Seq<[Num; 2]>> {
    let all = polygons_of(style, mask, cell, snap, look);
    if mask & DOT != 0 && !(snap && !equal(lean_of(look), num(0))) {
        all.drop_last().push(all.last().reverse())
    } else {
        all
    }
}

fn wound_polygons(style: SegmentStyle, mask: u16, cell: [Num; 4], snap: bool, look: Look) -> (r: Vec<
    Vec<[Num; 2]>,
>)
    ensures
        point_lists(r@) == wound(style, mask, cell, snap, look),
{
    let mut list = polygons(style, mask, cell, snap, look);
    let lean = lean(look);
    if mask & DOT != 0 && !(snap && !lean.same(num(0))) {
        let ghost was = list@;
        proof {
            lemma_dot_comes_last(style, mask, cell, snap, look);
            assert(point_lists(was).len() > 0);
        }
        if let Some(dot) = list.pop() {
            let turned = reversed(dot);
            list.push(turned);
            assert(point_lists(list@) =~= point_lists(was).drop_last().push(
                point_lists(was).last().reverse(),
            ));
        }
    }
    list
}

/// The outlines of the first `n` polygons, as one path.
pub open spec fn outlines(list: Seq<Seq<[Num; 2]>>, n: nat) -> Seq<PathElement>
    decreases n,
{
    if n == 0 || n > list.len() {
        Seq::empty()
    } else {
        outlines(list, (n - 1) as nat) + polygon_path(list[n - 1])
    }
}

/// The outlines of the lit segments of the first `n` digits of a row, as one path.
pub open spec fn row_outline(
    spot: Spot,
    d: Digit,
    masks: Seq<u16>,
    width: Num,
    height: Num,
    digits: u32,
    n: nat,
) -> Seq<PathElement>
    decreases n,
{
    if n == 0 || n > masks.len() {
        Seq::empty()
    } else {
        let list = wound(
            d.style,
            masks[n - 1],
            digit_cell(spot, width, height, digits, n - 1),
            d.snap,
            d.look,
        );
        row_outline(spot, d, masks, width, height, digits, (n - 1) as nat) + outlines(
            list,
            list.len(),
        )
    }
}

fn add_outlines(out: &mut Vec<PathElement>, list: &Vec<Vec<[Num; 2]>>)
    ensures
        final(out)@ == old(out)@ + outlines(point_lists(list@), list@.len()),
{
    let ghost was = out@;
    let ghost all = point_lists(list@);
    let mut i: usize = 0;
    assert(was + Seq::<PathElement>::empty() =~= was);
    while i < list.len()
        invariant
            i <= list.len(),
            all == point_lists(list@),
            out@ == was + outlines(all, i as nat),
        decreases list.len() - i,
    {
        let mut path = polygon(&list[i]);
        out.append(&mut path);
        i = i + 1;
        assert(out@ =~= was + outlines(all, i as nat));
    }
}

/// How far out a ring of a halo is.
pub open spec fn ring_part(step: nat) -> Num {
    quotient_of(from_int(step as int), from_int(GLOW_STEPS as int))
}

/// How much wider a ring of a halo is than the segment.
pub open spec fn glow_reach(glow: Glow, cell_width: Num, step: nat) -> Num {
    let reach = max_of(product_of(glow.size, cell_width), num(0));
    let part = ring_part(step);
    product_of(product_of(reach, part), num(TWO))
}

/// How bright a halo is inside a ring and outside the one before it: as bright as its strength
/// says where it leaves the segment, and nothing past the last ring.
pub open spec fn ring_light(glow: Glow, alpha: u8, opacity: Num, step: nat) -> Num {
    let strength = clamp_of(glow.strength, num(0), num(ONE));
    let left = sum_of(num(ONE), opposite_of(ring_part((step - 1) as nat)));
    product_of(
        product_of(
            product_of(quotient_of(from_int(alpha as int), num(TOP)), opacity),
            strength,
        ),
        product_of(left, left),
    )
}

/// The color of a ring of a halo: what it takes, over the rings around it, to be as bright as
/// the halo is there.
pub open spec fn ring_color(glow: Glow, lit: [u8; 4], opacity: Num, step: nat) -> [u8; 4] {
    let inside = ring_light(glow, lit[3], opacity, step);
    let outside = ring_light(glow, lit[3], opacity, step + 1);
    let dark = quotient_of(
        sum_of(num(ONE), opposite_of(inside)),
        sum_of(num(ONE), opposite_of(outside)),
    );
    let cover = clamp_of(sum_of(num(ONE), opposite_of(dark)), num(0), num(ONE));
    [lit[0], lit[1], lit[2], to_byte_of(round_of(product_of(cover, num(TOP))))]
}

/// Eighths are exact.
proof fn lemma_ring_part(step: nat)
    requires
        step <= GLOW_STEPS,
    ensures
        counts(sum_of(num(ONE), opposite_of(ring_part(step)))),
        sum_of(num(ONE), opposite_of(ring_part(step))).size() == ((8 - step) * 128) * pow2(1064),
{
    lemma_whole_number(step);
    lemma_whole_number(GLOW_STEPS as nat);
    lemma_small_sizes();
    lemma2_to64();
    lemma_pow2_pos(1064);
    lemma_pow2_adds(10, 1064);
    let (u, v) = (one_unit(), pow2(1064));
    let (x, y) = (from_int(step as int), from_int(GLOW_STEPS as int));
    let part = ring_part(step);
    lemma_size_zero(y);
    let (n, d) = (x.size() * u, y.size());
    assert(n == ((128 * step) * v) * d) by (nonlinear_arith)
        requires
            n == (step * u) * u,
            d == 8 * u,
            u == 1024 * v,
    ;
    assert(part == rounded(false, n, d)) by {
        reveal(quotient_of);
    }
    lemma_rounded_within(n, d, (128 * step) as nat, (128 * step) as nat, 1064);
    lemma_opposite(part);
    assert((128 * step) * v <= u) by (nonlinear_arith)
        requires
            step <= 8,
            u == 1024 * v,
    ;
    let left = (u - part.size()) as nat;
    assert(left == ((8 - step) * 128) * v) by (nonlinear_arith)
        requires
            left == u - (128 * step) * v,
            u == 1024 * v,
    ;
    let k = ((8 - step) * 128) as nat;
    lemma_rounded_within(left, 1, k, k, 1064);
    let z = sum_of(num(ONE), opposite_of(part));
    assert(z == rounded(false, left, 1)) by {
        reveal(sum_of);
        if left == 0 {
            reveal(rounded);
            assert(magnitude(0, 1) == 0);
        }
    }
}

/// A share of something is no larger than it.
proof fn lemma_share(x: Num, share: Num)
    requires
        counts(x),
        counts(share),
        share.size() <= one_unit(),
    ensures
        counts(product_of(x, share)),
        product_of(x, share).size() <= x.size(),
{
    lemma_small_sizes();
    lemma_times_one(x);
    lemma_commutes(x, share);
    lemma_product_rises(share, num(ONE), x);
}

/// A halo is never brighter than the segment casting it, and fades from ring to ring.
pub proof fn lemma_halo_fades(glow: Glow, alpha: u8, opacity: Num, step: nat)
    requires
        1 <= step <= GLOW_STEPS,
        counts(opacity) && opacity.size() <= one_unit(),
        !glow.strength.nan() && !glow.strength.negative(),
    ensures
        ({
            let segment = product_of(quotient_of(from_int(alpha as int), num(TOP)), opacity);
            &&& ring_light(glow, alpha, opacity, step).size() <= segment.size()
            &&& ring_light(glow, alpha, opacity, step + 1).size() <= ring_light(
                glow,
                alpha,
                opacity,
                step,
            ).size()
            &&& counts(segment) && counts(ring_light(glow, alpha, opacity, step))
            &&& ring_light(glow, alpha, opacity, (GLOW_STEPS + 1) as nat).zero()
        }),
{
    lemma_small_sizes();
    lemma2_to64();
    lemma2_to64_rest();
    lemma_pow2_pos(1064);
    lemma_pow2_adds(10, 1064);
    lemma_pow2_adds(45, 1029);
    let (u, v) = (one_unit(), pow2(1064));
    // The segment itself.
    let (a, top) = (from_int(alpha as int), num(TOP));
    lemma_whole_number(alpha as nat);
    assert(top.step() == 1029 && top.mantissa() == 255 * 0x2000_0000_0000);
    assert(top.size() == 255 * u) by (nonlinear_arith)
        requires
            top.size() == (255 * 0x2000_0000_0000) * pow2(1029),
            u == 0x2000_0000_0000 * pow2(1029),
    ;
    lemma_size_zero(top);
    let (n, d) = (a.size() * u, top.size());
    assert((0 * v) * d <= n <= (1024 * v) * d) by (nonlinear_arith)
        requires
            n == (alpha * u) * u,
            d == 255 * u,
            u == 1024 * v,
            0 <= alpha <= 255,
    ;
    lemma_rounded_within(n, d, 0, 1024, 1064);
    let ink = quotient_of(a, top);
    assert(ink == rounded(false, n, d)) by {
        reveal(quotient_of);
    }
    lemma_share(ink, opacity);
    let segment = product_of(ink, opacity);
    // What its strength leaves.
    let strength = clamp_of(glow.strength, num(0), num(ONE));
    assert(counts(strength) && strength.size() <= u) by {
        reveal(less);
        lemma_size_at_least(strength, num(ONE));
    }
    lemma_share(segment, strength);
    let base = product_of(segment, strength);
    // And the distance.
    lemma_ring_part((step - 1) as nat);
    lemma_ring_part(step);
    lemma_ring_part(GLOW_STEPS as nat);
    let near = sum_of(num(ONE), opposite_of(ring_part((step - 1) as nat)));
    let far = sum_of(num(ONE), opposite_of(ring_part(step)));
    assert(far.size() <= near.size() <= u) by (nonlinear_arith)
        requires
            near.size() == ((9 - step) * 128) * v,
            far.size() == ((8 - step) * 128) * v,
            u == 1024 * v,
            1 <= step <= 8,
            v > 0,
    ;
    lemma_share(near, near);
    lemma_share(far, far);
    lemma_product_rises(far, near, far);
    lemma_product_rises(far, near, near);
    lemma_commutes(near, far);
    let (bright, dim) = (product_of(near, near), product_of(far, far));
    lemma_share(base, bright);
    lemma_share(base, dim);
    lemma_product_rises(dim, bright, base);
    lemma_commutes(base, bright);
    lemma_commutes(base, dim);
    let none = sum_of(num(ONE), opposite_of(ring_part(GLOW_STEPS as nat)));
    assert((0int * 128) * v == 0) by (nonlinear_arith);
    lemma_size_zero(none);
    lemma_times_zero(none, none);
    lemma_times_zero(base, product_of(none, none));
}

/// The rings of a halo from ring `step` outward, the outermost first. Each covers the halos of
/// all lit segments at once, so where two meet the brighter one shows.
pub open spec fn ring_items(
    spot: Spot,
    glow: Glow,
    d: Digit,
    lit: [u8; 4],
    masks: Seq<u16>,
    width: Num,
    height: Num,
    digits: u32,
    step: nat,
) -> Seq<Item>
    decreases GLOW_STEPS + 1 - step,
{
    if step == 0 || step > GLOW_STEPS {
        Seq::empty()
    } else {
        let grow = glow_reach(glow, digit_cell(spot, width, height, digits, 0)[2], step);
        let wide = Digit { look: Look { grow, ..d.look }, ..d };
        ring_items(spot, glow, d, lit, masks, width, height, digits, step + 1).push(
            Spot { blend: Blend::Normal, opacity: num(ONE), ..spot }.item(
                Drawn::Path {
                    elements: row_outline(spot, wide, masks, width, height, digits, masks.len()),
                    stroke: None,
                },
                ring_color(glow, lit, spot.opacity, step),
            ),
        )
    }
}

/// The halo of a row, as one picture.
pub open spec fn halo_items(
    spot: Spot,
    glow: Glow,
    d: Digit,
    lit: [u8; 4],
    masks: Seq<u16>,
    width: Num,
    height: Num,
    digits: u32,
) -> Seq<Item> {
    seq![spot.marker(Drawn::BlendBegin { blend: spot.blend })] + ring_items(
        spot,
        glow,
        d,
        lit,
        masks,
        width,
        height,
        digits,
        1,
    ) + seq![spot.marker(Drawn::BlendEnd)]
}

fn light_of(glow: &Glow, alpha: u8, opacity: Num, step: u32) -> (r: Num)
    requires
        1 <= step <= GLOW_STEPS + 1,
    ensures
        r == ring_light(*glow, alpha, opacity, step as nat),
{
    let strength = glow.strength.clamp(num(0), num(ONE));
    let part = Num::from_u64((step - 1) as u64).over(Num::from_u64(GLOW_STEPS as u64));
    let left = num(ONE).minus(part);
    Num::from_u64(alpha as u64).over(num(TOP)).times(opacity).times(strength).times(
        left.times(left),
    )
}

fn color_of_ring(glow: &Glow, lit: [u8; 4], opacity: Num, step: u32) -> (r: [u8; 4])
    requires
        1 <= step <= GLOW_STEPS,
    ensures
        r == ring_color(*glow, lit, opacity, step as nat),
{
    let inside = light_of(glow, lit[3], opacity, step);
    let outside = light_of(glow, lit[3], opacity, step + 1);
    let dark = num(ONE).minus(inside).over(num(ONE).minus(outside));
    let cover = num(ONE).minus(dark).clamp(num(0), num(ONE));
    [lit[0], lit[1], lit[2], cover.times(num(TOP)).round().to_u8()]
}

fn outline_row(
    placed: &Placed<'_>,
    d: &Digit,
    masks: &Vec<u16>,
    size: [Num; 2],
    digits: u32,
) -> (r: Vec<PathElement>)
    ensures
        r@ == row_outline(placed@, *d, masks@, size[0], size[1], digits, masks@.len()),
{
    let mut out: Vec<PathElement> = Vec::new();
    let mut i: usize = 0;
    while i < masks.len()
        invariant
            i <= masks.len(),
            out@ == row_outline(placed@, *d, masks@, size[0], size[1], digits, i as nat),
        decreases masks.len() - i,
    {
        let cell = cell_at(placed, size, digits, i);
        let list = wound_polygons(d.style, masks[i], cell, d.snap, d.look);
        add_outlines(&mut out, &list);
        i = i + 1;
    }
    out
}

fn push_halo(
    out: &mut Vec<ResolvedLayer>,
    placed: &Placed<'_>,
    glow: &Glow,
    d: &Digit,
    lit: [u8; 4],
    masks: &Vec<u16>,
    size: [Num; 2],
    digits: u32,
)
    ensures
        items_of(final(out)@) == items_of(old(out)@) + halo_items(
            placed@,
            *glow,
            *d,
            lit,
            masks@,
            size[0],
            size[1],
            digits,
        ),
{
    let ghost before = items_of(out@);
    mark(out, placed, ResolvedShape::BlendBegin { blend: placed.blend });
    let ghost opened = items_of(out@);
    let cell = cell_at(placed, size, digits, 0);
    let reach = glow.size.times(cell[2]).max(num(0));
    let rings = Num::from_u64(GLOW_STEPS as u64);
    let over = Placed { blend: Blend::Normal, opacity: num(ONE), ..*placed };
    let mut step: u32 = GLOW_STEPS;
    assert(opened + Seq::<Item>::empty() =~= opened);
    while step >= 1
        invariant
            step <= GLOW_STEPS,
            cell == digit_cell(placed@, size[0], size[1], digits, 0),
            reach == max_of(product_of(glow.size, cell[2]), num(0)),
            rings == from_int(GLOW_STEPS as int),
            over@ == (Spot { blend: Blend::Normal, opacity: num(ONE), ..placed@ }),
            items_of(out@) == opened + ring_items(
                placed@,
                *glow,
                *d,
                lit,
                masks@,
                size[0],
                size[1],
                digits,
                (step + 1) as nat,
            ),
        decreases step,
    {
        let part = Num::from_u64(step as u64).over(rings);
        let wide = Digit {
            style: d.style,
            lit: d.lit,
            unlit: d.unlit,
            snap: d.snap,
            look: Look { grow: reach.times(part).times(num(TWO)), ..d.look },
        };
        let elements = outline_row(placed, &wide, masks, size, digits);
        let color = color_of_ring(glow, lit, placed.opacity, step);
        put(out, &over, ResolvedShape::Path { elements, stroke: None }, color);
        assert(items_of(out@) =~= opened + ring_items(
            placed@,
            *glow,
            *d,
            lit,
            masks@,
            size[0],
            size[1],
            digits,
            step as nat,
        ));
        step = step - 1;
    }
    mark(out, placed, ResolvedShape::BlendEnd);
    assert(items_of(out@) =~= before + halo_items(
        placed@,
        *glow,
        *d,
        lit,
        masks@,
        size[0],
        size[1],
        digits,
    ));
}

/// How the digits of a segment row are drawn.
pub struct Digit {
    pub style: SegmentStyle,
    /// The color of lit segments; `None` where they are not drawn.
    pub lit: Option<[u8; 4]>,
    /// The color of dark segments; `None` where they are not drawn.
    pub unlit: Option<[u8; 4]>,
    pub snap: bool,
    pub look: Look,
}

/// What one digit adds to the draw list: its dark segments, and the lit ones.
pub open spec fn digit_items(spot: Spot, d: Digit, mask: u16, cell: [Num; 4]) -> Seq<Item> {
    (match d.unlit {
        Some(unlit) => polygon_items(
            spot,
            polygons_of(d.style, !mask, cell, d.snap, d.look),
            unlit,
        ),
        None => Seq::empty(),
    }) + (match d.lit {
        Some(lit) => polygon_items(spot, polygons_of(d.style, mask, cell, d.snap, d.look), lit),
        None => Seq::empty(),
    })
}

fn push_digit(out: &mut Vec<ResolvedLayer>, placed: &Placed<'_>, d: &Digit, mask: u16, cell: [Num; 4])
    ensures
        items_of(final(out)@) == items_of(old(out)@) + digit_items(placed@, *d, mask, cell),
{
    let ghost before = items_of(out@);
    if let Some(unlit) = d.unlit {
        push_polygons(out, placed, polygons(d.style, !mask, cell, d.snap, d.look), unlit);
    }
    if let Some(lit) = d.lit {
        push_polygons(out, placed, polygons(d.style, mask, cell, d.snap, d.look), lit);
    }
    assert(items_of(out@) =~= before + digit_items(placed@, *d, mask, cell));
}

/// The cell of digit `i` of a row, on the canvas.
pub open spec fn digit_cell(spot: Spot, width: Num, height: Num, digits: u32, i: int) -> [Num; 4] {
    let count = if digits < 1 {
        1
    } else {
        digits as int
    };
    let x = spot.origin[0];
    let w = quotient_of(product_of(width, spot.scale), from_int(count));
    [sum_of(x, product_of(from_int(i), w)), spot.origin[1], w, product_of(height, spot.scale)]
}

fn cell_at(placed: &Placed<'_>, size: [Num; 2], digits: u32, i: usize) -> (r: [Num; 4])
    ensures
        r == digit_cell(placed@, size[0], size[1], digits, i as int),
{
    let count: u64 = if digits < 1 {
        1
    } else {
        digits as u64
    };
    let w = size[0].times(placed.scale).over(Num::from_u64(count));
    [
        placed.origin[0].plus(Num::from_u64(i as u64).times(w)),
        placed.origin[1],
        w,
        size[1].times(placed.scale),
    ]
}

/// What the first `n` digits of a segment row add.
pub open spec fn digits_items(
    spot: Spot,
    d: Digit,
    lit: Seq<u16>,
    width: Num,
    height: Num,
    digits: u32,
    n: nat,
) -> Seq<Item>
    decreases n,
{
    if n == 0 || n > lit.len() {
        Seq::empty()
    } else {
        digits_items(spot, d, lit, width, height, digits, (n - 1) as nat) + digit_items(
            spot,
            d,
            lit[n - 1],
            digit_cell(spot, width, height, digits, n - 1),
        )
    }
}

fn push_digits(
    out: &mut Vec<ResolvedLayer>,
    placed: &Placed<'_>,
    d: &Digit,
    shown: &Vec<u16>,
    size: [Num; 2],
    digits: u32,
)
    ensures
        items_of(final(out)@) == items_of(old(out)@) + digits_items(
            placed@,
            *d,
            shown@,
            size[0],
            size[1],
            digits,
            shown@.len(),
        ),
{
    let ghost before = items_of(out@);
    let mut i: usize = 0;
    assert(before + Seq::<Item>::empty() =~= before);
    while i < shown.len()
        invariant
            i <= shown.len(),
            items_of(out@) == before + digits_items(
                placed@,
                *d,
                shown@,
                size[0],
                size[1],
                digits,
                i as nat,
            ),
        decreases shown.len() - i,
    {
        push_digit(out, placed, d, shown[i], cell_at(placed, size, digits, i));
        i = i + 1;
        assert(items_of(out@) =~= before + digits_items(
            placed@,
            *d,
            shown@,
            size[0],
            size[1],
            digits,
            i as nat,
        ));
    }
}

/// The color of a digit's dark segments.
pub open spec fn unlit_color(unlit: Option<String>) -> Result<Option<[u8; 4]>, Problem> {
    match unlit {
        None => Ok(None),
        Some(text) => match color_or(text@) {
            Ok(c) => Ok(Some(c)),
            Err(problem) => Err(problem),
        },
    }
}

/// What a segment row adds to the draw list.
#[verifier::opaque]
pub open spec fn segment_items(
    spot: Spot,
    display: DigitDisplay,
    text: Seq<char>,
    width: Num,
    height: Num,
    digits: u32,
    justify: Justify,
    snap: bool,
) -> Result<Seq<Item>, Problem> {
    match display {
        DigitDisplay::Reel(_) => Ok(Seq::empty()),
        DigitDisplay::Segments { style, fill, unlit, slant, thickness, glow } => {
            match (color_or(fill@), unlit_color(unlit)) {
                (Err(problem), _) => Err(problem),
                (Ok(_), Err(problem)) => Err(problem),
                (Ok(lit), Ok(unlit)) => {
                    let look = Look {
                        thickness: match thickness {
                            Some(t) => t,
                            None => num(BAR),
                        },
                        slant,
                        grow: num(0),
                    };
                    let shown = fitted(dotted(style, text), digits as nat, justify);
                    let d = Digit { style, lit: Some(lit), unlit, snap, look };
                    let n = shown.len();
                    Ok(
                        match glow {
                            None => digits_items(spot, d, shown, width, height, digits, n),
                            // The halo over the dark segments, and the lit ones on top of it.
                            Some(glow) => digits_items(
                                spot,
                                Digit { lit: None, ..d },
                                shown,
                                width,
                                height,
                                digits,
                                n,
                            ) + halo_items(spot, glow, d, lit, shown, width, height, digits)
                                + digits_items(
                                spot,
                                Digit { unlit: None, ..d },
                                shown,
                                width,
                                height,
                                digits,
                                n,
                            ),
                        },
                    )
                },
            }
        },
    }
}

fn push_segments(
    out: &mut Vec<ResolvedLayer>,
    placed: &Placed<'_>,
    display: &DigitDisplay,
    text: &str,
    size: [Num; 2],
    digits: u32,
    justify: Justify,
    snap: bool,
) -> (r: Result<(), Error>)
    ensures
        match (
            r,
            segment_items(placed@, *display, text@, size[0], size[1], digits, justify, snap),
        ) {
            (Ok(()), Ok(items)) => items_of(final(out)@) == items_of(old(out)@) + items,
            (Err(e), Err(problem)) => e@ == problem,
            _ => false,
        },
{
    proof {
        reveal(segment_items);
    }
    let ghost before = items_of(out@);
    assert(before + Seq::<Item>::empty() =~= before);
    if let DigitDisplay::Segments { style, fill, unlit, slant, thickness, glow } = display {
        let lit = match color_from(fill) {
            Ok(c) => c,
            Err(e) => {
                return Err(e);
            },
        };
        let unlit: Option<[u8; 4]> = match unlit {
            None => None,
            Some(c) => match color_from(c) {
                Ok(c) => Some(c),
                Err(e) => {
                    return Err(e);
                },
            },
        };
        let look = Look {
            thickness: match *thickness {
                Some(t) => t,
                None => num(BAR),
            },
            slant: *slant,
            grow: num(0),
        };
        let style = *style;
        let shown = masks(style, text, digits as usize, justify);
        let d = Digit { style, lit: Some(lit), unlit, snap, look };
        match glow {
            None => {
                push_digits(out, placed, &d, &shown, size, digits);
            },
            Some(glow) => {
                let dark = Digit { style, lit: None, unlit, snap, look };
                let bright = Digit { style, lit: Some(lit), unlit: None, snap, look };
                push_digits(out, placed, &dark, &shown, size, digits);
                push_halo(out, placed, glow, &d, lit, &shown, size, digits);
                push_digits(out, placed, &bright, &shown, size, digits);
                let ghost n = shown@.len();
                let ghost (w, h) = (size[0], size[1]);
                assert(items_of(out@) =~= before + (digits_items(
                    placed@,
                    dark,
                    shown@,
                    w,
                    h,
                    digits,
                    n,
                ) + halo_items(placed@, *glow, d, lit, shown@, w, h, digits) + digits_items(
                    placed@,
                    bright,
                    shown@,
                    w,
                    h,
                    digits,
                    n,
                )));
            },
        }
    }
    Ok(())
}

/// The most tiles of vector artwork beside each other: past that one is too small to be seen.
pub const MOST_TILES: u64 = 4096;

/// Where the first tile starts: the last place at or before the edge that the pattern, starting
/// anywhere, has a tile at.
pub open spec fn first_tile(offset: Num, step: Num) -> Num {
    let part = rem_euclid_of(offset, step);
    if less(num(0), part) {
        sum_of(part, opposite_of(step))
    } else {
        num(0)
    }
}

/// How many tiles it takes to cover a length.
pub open spec fn tile_count(length: Num, first: Num, step: Num) -> nat {
    if less(num(0), step) {
        let n = to_u64_of(ceil_of(quotient_of(sum_of(length, opposite_of(first)), step)));
        if n < MOST_TILES {
            n as nat
        } else {
            MOST_TILES as nat
        }
    } else {
        0
    }
}

/// How vector artwork is tiled along one side, on the canvas: where it starts, how far apart
/// the tiles are, how many there are, and how much larger than itself the artwork is.
#[derive(Clone, Copy, Debug)]
pub struct Tiling {
    pub from: Num,
    pub step: Num,
    pub count: u64,
    pub scale: Num,
}

/// The tiling along a side that starts at `edge`.
pub open spec fn tiling_of(
    edge: Num,
    length: Num,
    one: Num,
    natural: Num,
    offset: Num,
    scale: Num,
) -> Tiling {
    let step = product_of(one, scale);
    let first = first_tile(product_of(offset, scale), step);
    Tiling {
        from: sum_of(edge, first),
        step,
        count: tile_count(product_of(length, scale), first, step) as u64,
        scale: product_of(quotient_of(one, natural), scale),
    }
}

impl Tiling {
    /// Where a tile starts.
    pub open spec fn place(self, i: int) -> Num {
        sum_of(self.from, product_of(from_int(i), self.step))
    }
}

fn tiling(edge: Num, length: Num, one: Num, natural: Num, offset: Num, scale: Num) -> (r: Tiling)
    ensures
        r == tiling_of(edge, length, one, natural, offset, scale),
{
    let step = one.times(scale);
    let part = offset.times(scale).rem_euclid(step);
    let first = if num(0).lt(part) {
        part.minus(step)
    } else {
        num(0)
    };
    let count: u64 = if num(0).lt(step) {
        let n: u64 = length.times(scale).minus(first).over(step).ceil().to_u64();
        if n < MOST_TILES {
            n
        } else {
            MOST_TILES
        }
    } else {
        0
    };
    Tiling { from: edge.plus(first), step, count, scale: one.over(natural).times(scale) }
}

/// What the first `n` tiles of a row add.
pub open spec fn tile_row(
    spot: Spot,
    data: Vector,
    across: Tiling,
    y: Num,
    sy: Num,
    tint: [u8; 4],
    n: nat,
) -> Seq<Item>
    decreases n,
{
    if n == 0 {
        Seq::empty()
    } else {
        tile_row(spot, data, across, y, sy, tint, (n - 1) as nat) + vector_items(
            spot,
            data,
            across.place(n - 1),
            y,
            across.scale,
            sy,
            false,
            tint,
        )
    }
}

/// What the first `n` rows of tiles add.
pub open spec fn tile_rows(
    spot: Spot,
    data: Vector,
    across: Tiling,
    down: Tiling,
    tint: [u8; 4],
    n: nat,
) -> Seq<Item>
    decreases n,
{
    if n == 0 {
        Seq::empty()
    } else {
        tile_rows(spot, data, across, down, tint, (n - 1) as nat) + tile_row(
            spot,
            data,
            across,
            down.place(n - 1),
            down.scale,
            tint,
            across.count as nat,
        )
    }
}

/// What vector artwork tiled across a box adds: the tiles, clipped to the box.
pub open spec fn tiled_vector(
    spot: Spot,
    data: Vector,
    extent: [Num; 2],
    tile: Tile,
    start: [Num; 2],
    tint: [u8; 4],
) -> Seq<Item> {
    let one = match tile.size {
        Some(size) => size,
        None => [data.width, data.height],
    };
    let s = spot.scale;
    let (x, y) = (spot.origin[0], spot.origin[1]);
    let across = tiling_of(x, extent[0], one[0], data.width, start[0], s);
    let down = tiling_of(y, extent[1], one[1], data.height, start[1], s);
    let window = Drawn::Rect {
        x,
        y,
        width: product_of(extent[0], s),
        height: product_of(extent[1], s),
    };
    seq![spot.marker(Drawn::ClipBegin { shape: Box::new(window) })] + tile_rows(
        spot,
        data,
        across,
        down,
        tint,
        down.count as nat,
    ) + seq![spot.marker(Drawn::ClipEnd)]
}

fn tile_vector(
    out: &mut Vec<ResolvedLayer>,
    placed: &Placed<'_>,
    data: &Vector,
    extent: [Num; 2],
    tile: Tile,
    start: [Num; 2],
    tint: [u8; 4],
)
    ensures
        items_of(final(out)@) == items_of(old(out)@) + tiled_vector(
            placed@,
            *data,
            extent,
            tile,
            start,
            tint,
        ),
{
    let ghost before = items_of(out@);
    let one: [Num; 2] = match tile.size {
        Some(size) => size,
        None => [data.width, data.height],
    };
    let s = placed.scale;
    let (x, y) = (placed.origin[0], placed.origin[1]);
    let across = tiling(x, extent[0], one[0], data.width, start[0], s);
    let down = tiling(y, extent[1], one[1], data.height, start[1], s);
    let window = ResolvedShape::Rect {
        x,
        y,
        width: extent[0].times(s),
        height: extent[1].times(s),
    };
    proof {
        reveal_with_fuel(drawn_of, 2);
    }
    mark(out, placed, ResolvedShape::ClipBegin { shape: Box::new(window) });
    let ghost opened = items_of(out@);
    assert(opened + Seq::<Item>::empty() =~= opened);
    let mut j: u64 = 0;
    while j < down.count
        invariant
            j <= down.count,
            items_of(out@) == opened + tile_rows(placed@, *data, across, down, tint, j as nat),
        decreases down.count - j,
    {
        let top = down.from.plus(Num::from_u64(j).times(down.step));
        let ghost here = items_of(out@);
        assert(here + Seq::<Item>::empty() =~= here);
        let mut i: u64 = 0;
        while i < across.count
            invariant
                i <= across.count,
                items_of(out@) == here + tile_row(
                    placed@,
                    *data,
                    across,
                    top,
                    down.scale,
                    tint,
                    i as nat,
                ),
            decreases across.count - i,
        {
            let left = across.from.plus(Num::from_u64(i).times(across.step));
            put_vector(out, placed, data, left, top, across.scale, down.scale, false, tint);
            i = i + 1;
            assert(items_of(out@) =~= here + tile_row(
                placed@,
                *data,
                across,
                top,
                down.scale,
                tint,
                i as nat,
            ));
        }
        j = j + 1;
        assert(items_of(out@) =~= opened + tile_rows(
            placed@,
            *data,
            across,
            down,
            tint,
            j as nat,
        ));
    }
    mark(out, placed, ResolvedShape::ClipEnd);
    assert(items_of(out@) =~= before + tiled_vector(placed@, *data, extent, tile, start, tint));
}

/// The image of an image layer: which part of it is drawn where, and how it is tiled.
pub open spec fn image_drawn(
    spot: Spot,
    image: Seq<char>,
    columns: u32,
    rows: u32,
    size: Option<[Num; 2]>,
    sheet: Option<Sheet>,
    frame: Num,
    repeat: Option<Tile>,
    tile_x: Num,
    tile_y: Num,
) -> Drawn {
    let source = match sheet {
        Some(sheet) => Some(cell_of(sheet, columns, rows, frame)),
        None => None,
    };
    let natural = match source {
        Some(cell) => [from_int(cell[2] as int), from_int(cell[3] as int)],
        None => [from_int(columns as int), from_int(rows as int)],
    };
    let s = spot.scale;
    let extent = match size {
        Some(size) => size,
        None => natural,
    };
    Drawn::Image {
        image,
        source,
        x: spot.origin[0],
        y: spot.origin[1],
        width: product_of(extent[0], s),
        height: product_of(extent[1], s),
        tile: match repeat {
            None => None,
            Some(tile) => {
                let one = match tile.size {
                    Some(size) => size,
                    None => natural,
                };
                Some(
                    Tiled {
                        width: product_of(one[0], s),
                        height: product_of(one[1], s),
                        offset: [product_of(tile_x, s), product_of(tile_y, s)],
                    },
                )
            },
        },
    }
}

fn image_shape(
    placed: &Placed<'_>,
    image: &str,
    columns: u32,
    rows: u32,
    size: Option<[Num; 2]>,
    sheet: Option<Sheet>,
    frame: Num,
    repeat: Option<Tile>,
    tile_x: Num,
    tile_y: Num,
) -> (r: ResolvedShape)
    ensures
        r@ == image_drawn(
            placed@,
            image@,
            columns,
            rows,
            size,
            sheet,
            frame,
            repeat,
            tile_x,
            tile_y,
        ),
{
    let source: Option<[u32; 4]> = match sheet {
        Some(sheet) => Some(sheet_cell(sheet, columns, rows, frame)),
        None => None,
    };
    let natural: [Num; 2] = match source {
        Some(cell) => [Num::from_u64(cell[2] as u64), Num::from_u64(cell[3] as u64)],
        None => [Num::from_u64(columns as u64), Num::from_u64(rows as u64)],
    };
    let s = placed.scale;
    let extent: [Num; 2] = match size {
        Some(size) => size,
        None => natural,
    };
    // Tiling covers the layer's size with copies of one tile; without it the image is
    // stretched to that size.
    let tile: Option<Tiled> = match repeat {
        None => None,
        Some(tile) => {
            let one: [Num; 2] = match tile.size {
                Some(size) => size,
                None => natural,
            };
            Some(
                Tiled {
                    width: one[0].times(s),
                    height: one[1].times(s),
                    offset: [tile_x.times(s), tile_y.times(s)],
                },
            )
        },
    };
    ResolvedShape::Image {
        image: crate::text::owned(image),
        source,
        x: placed.origin[0],
        y: placed.origin[1],
        width: extent[0].times(s),
        height: extent[1].times(s),
        tile,
    }
}

impl State {
    /// The play a layer shows: its first.
    pub open spec fn first_play(self, root: Root, path: Seq<usize>) -> Option<Play> {
        match first_where(self.sounding, |p: Play| p.on(root, path), 0) {
            Some(i) => Some(self.sounding[i]),
            None => None,
        }
    }

    /// What a layer shows, or would show if it played.
    pub open spec fn shown_name(self, root: Root, path: Seq<usize>) -> Seq<char> {
        match self.first_play(root, path) {
            Some(play) => play.playing,
            None => self.media_name(root, path),
        }
    }

    /// A layer's content box in its local space, before any scale.
    #[verifier::opaque]
    pub open spec fn content_box(self, root: Root, path: Seq<usize>, layer: Layer) -> Option<[Num; 4]> {
        match layer.kind {
            LayerKind::Group { .. } => None,
            LayerKind::Audio { .. } => None,
            LayerKind::Shape { shape, .. } => match shape {
                Shape::Rect { rect, .. } => Some(rect),
                Shape::Circle { circle } => {
                    let r = circle[2];
                    Some(
                        [
                            sum_of(circle[0], opposite_of(r)),
                            sum_of(circle[1], opposite_of(r)),
                            product_of(num(TWO), r),
                            product_of(num(TWO), r),
                        ],
                    )
                },
                Shape::Path { path } => bounds_of(path.steps()),
            },
            LayerKind::Video { size, .. } => {
                let natural = match lookup(self.videos, self.shown_name(root, path)) {
                    Some(info) => Some([info.width, info.height]),
                    None => match lookup(self.images, frame_name(root, path)) {
                        Some(frame) => Some(
                            [from_int(frame.width as int), from_int(frame.height as int)],
                        ),
                        None => None,
                    },
                };
                match natural {
                    None => None,
                    Some(natural) => Some(boxed(size, natural)),
                }
            },
            LayerKind::Image { image, size, sheet, .. } => match (
                lookup(self.images, image@),
                lookup(self.vectors, image@),
            ) {
                (Some(data), _) => Some(
                    boxed(
                        size,
                        match sheet {
                            Some(sheet) => [
                                from_int(sheet.cell[0] as int),
                                from_int(sheet.cell[1] as int),
                            ],
                            None => [from_int(data.width as int), from_int(data.height as int)],
                        },
                    ),
                ),
                (None, Some(data)) => Some(boxed(size, [data.width, data.height])),
                (None, None) => None,
            },
            LayerKind::Digits { size, .. } => Some(boxed(Some(size), size)),
            LayerKind::Text { size, align, .. } => match size {
                Some(size) => Some(boxed(Some(size), size)),
                None => match self.text_draw(
                    self.text(root, path, layer, Property::Font),
                    self.text(root, path, layer, Property::Text),
                    None,
                    align,
                ) {
                    Some(draw) => Some(boxed(None, draw.container())),
                    None => None,
                },
            },
        }
    }

    /// The anchor point in a layer's scaled space: it lands on x/y, and the layer turns and
    /// scales around it.
    pub open spec fn pivot(
        self,
        root: Root,
        path: Seq<usize>,
        layer: Layer,
        sx: Num,
        sy: Num,
    ) -> [Num; 2] {
        match (layer.anchor, self.content_box(root, path, layer)) {
            (Some(anchor), Some(b)) => {
                let ax = Align::start(anchor.left(), anchor.right(), b[2], num(0));
                let ay = Align::start(anchor.top(), anchor.bottom(), b[3], num(0));
                [
                    product_of(sum_of(b[0], opposite_of(ax)), sx),
                    product_of(sum_of(b[1], opposite_of(ay)), sy),
                ]
            },
            _ => [num(0), num(0)],
        }
    }

    /// A layer's own placement: moved to x/y, turned, and scaled around its anchor.
    pub open spec fn local(self, root: Root, path: Seq<usize>, layer: Layer) -> Transform {
        let scale = self.number(root, path, layer, Property::Scale);
        let sx = product_of(scale, self.number(root, path, layer, Property::ScaleX));
        let sy = product_of(scale, self.number(root, path, layer, Property::ScaleY));
        let pivot = self.pivot(root, path, layer, sx, sy);
        Transform::moved(
            self.number(root, path, layer, Property::X),
            self.number(root, path, layer, Property::Y),
        ).behind(Transform::turned(self.number(root, path, layer, Property::Rotation))).behind(
            Transform::moved(opposite_of(pivot[0]), opposite_of(pivot[1])),
        ).behind(Transform::sized(sx, sy))
    }

    /// What a layer hands down: its placement below the tree above it, its opacity times that
    /// above it, and whether it may bleed.
    pub open spec fn handed(self, root: Root, path: Seq<usize>, layer: Layer, from: Inherited) -> Inherited {
        Inherited {
            transform: from.transform.behind(self.local(root, path, layer)),
            opacity: clamp_of(
                product_of(from.opacity, self.number(root, path, layer, Property::Opacity)),
                num(0),
                num(ONE),
            ),
            overflow: from.overflow || layer.overflow,
        }
    }

    /// What a video layer adds: the frame handed over for its play, while it plays.
    pub open spec fn video_items(
        self,
        root: Root,
        path: Seq<usize>,
        spot: Spot,
        size: Option<[Num; 2]>,
    ) -> Seq<Item> {
        match (self.first_play(root, path), lookup(self.images, frame_name(root, path))) {
            (Some(play), Some(frame)) => {
                let natural = match lookup(self.videos, play.playing) {
                    Some(info) => [info.width, info.height],
                    None => [from_int(frame.width as int), from_int(frame.height as int)],
                };
                let extent = match size {
                    Some(size) => size,
                    None => natural,
                };
                seq![
                    spot.item(
                        Drawn::Image {
                            image: frame_name(root, path),
                            source: None,
                            x: spot.origin[0],
                            y: spot.origin[1],
                            width: product_of(extent[0], spot.scale),
                            height: product_of(extent[1], spot.scale),
                            tile: None,
                        },
                        [255, 255, 255, 255],
                    ),
                ]
            },
            _ => Seq::empty(),
        }
    }

    /// The color a layer's artwork is multiplied by.
    pub open spec fn tint_of(self, root: Root, path: Seq<usize>, layer: Layer) -> [u8; 4] {
        match color_of(self.text(root, path, layer, Property::Tint)) {
            Some(tint) => tint,
            None => [255, 255, 255, 255],
        }
    }

    /// What an image layer adds: pixels, or the paths of vector artwork. Artwork that is not
    /// registered adds nothing.
    pub open spec fn image_items(
        self,
        root: Root,
        path: Seq<usize>,
        layer: Layer,
        spot: Spot,
        image: Seq<char>,
        size: Option<[Num; 2]>,
        sheet: Option<Sheet>,
        repeat: Option<Tile>,
    ) -> Seq<Item> {
        let tint = self.tint_of(root, path, layer);
        match (lookup(self.images, image), lookup(self.vectors, image)) {
            (Some(data), _) => seq![
                spot.item(
                    image_drawn(
                        spot,
                        image,
                        data.width,
                        data.height,
                        size,
                        sheet,
                        self.number(root, path, layer, Property::Frame),
                        repeat,
                        self.number(root, path, layer, Property::TileX),
                        self.number(root, path, layer, Property::TileY),
                    ),
                    tint,
                ),
            ],
            (None, Some(data)) => {
                let extent = match size {
                    Some(size) => size,
                    None => [data.width, data.height],
                };
                let s = spot.scale;
                match repeat {
                    None => vector_items(
                        spot,
                        data,
                        spot.origin[0],
                        spot.origin[1],
                        product_of(quotient_of(extent[0], data.width), s),
                        product_of(quotient_of(extent[1], data.height), s),
                        false,
                        tint,
                    ),
                    Some(tile) => tiled_vector(
                        spot,
                        data,
                        extent,
                        tile,
                        [
                            self.number(root, path, layer, Property::TileX),
                            self.number(root, path, layer, Property::TileY),
                        ],
                        tint,
                    ),
                }
            },
            (None, None) => Seq::empty(),
        }
    }

    /// Whether segments keep to the canvas's own pixel grid: wherever the frame is made on it,
    /// which is anything but smooth full color, and nothing turns or stretches them.
    pub open spec fn snaps(self, placement: Inherited) -> bool {
        (self.output().mode.unwrap_or(OutputMode::Rgb) != OutputMode::Rgb
            || self.output().scaling.unwrap_or(Scaling::Smooth) == Scaling::PixelPerfect)
            && placement.transform.upright() is Some
    }

    /// What a layer that is no group adds to the draw list.
    #[verifier::opaque]
    pub open spec fn leaf_items(self, root: Root, path: Seq<usize>, layer: Layer, own: Inherited) -> Result<
        Seq<Item>,
        Problem,
    > {
        let spot = own.spot(layer);
        match layer.kind {
            LayerKind::Group { .. } => Ok(Seq::empty()),
            LayerKind::Audio { .. } => Ok(Seq::empty()),
            LayerKind::Shape { shape, fill, stroke } => shape_items(spot, shape, fill, stroke),
            LayerKind::Video { size, .. } => Ok(self.video_items(root, path, spot, size)),
            LayerKind::Image { image, size, sheet, repeat, .. } => Ok(
                self.image_items(root, path, layer, spot, image@, size, sheet, repeat),
            ),
            LayerKind::Digits { digits, size, justify, display, .. } => {
                let text = self.text(root, path, layer, Property::Text);
                match display {
                    DigitDisplay::Segments { .. } => segment_items(
                        spot,
                        display,
                        text,
                        size[0],
                        size[1],
                        digits,
                        justify,
                        self.snaps(own),
                    ),
                    DigitDisplay::Reel(reel) => Ok(
                        self.reel_items(
                            spot,
                            reel,
                            text,
                            size[0],
                            size[1],
                            digits as nat,
                            justify,
                            self.reel_positions(root, path, reel),
                        ),
                    ),
                }
            },
            LayerKind::Text { size, align, .. } => Ok(
                self.text_items(
                    spot,
                    self.text(root, path, layer, Property::Font),
                    self.text(root, path, layer, Property::Text),
                    size,
                    align,
                ),
            ),
        }
    }

    /// The draw list of some layers below what the tree above them hands down, or the first
    /// color that is none.
    pub open spec fn walked(
        self,
        root: Root,
        layers: Seq<Layer>,
        prefix: Seq<usize>,
        from: Inherited,
    ) -> Result<Seq<Item>, Problem>
        decreases layers,
    {
        if layers.len() == 0 {
            Ok(Seq::empty())
        } else {
            let path = prefix.push((layers.len() - 1) as usize);
            match self.walked(root, layers.drop_last(), prefix, from) {
                Err(problem) => Err(problem),
                Ok(before) => match self.walked_layer(root, layers.last(), path, from) {
                    Err(problem) => Err(problem),
                    Ok(own) => Ok(before + own),
                },
            }
        }
    }

    pub open spec fn walked_layer(self, root: Root, layer: Layer, path: Seq<usize>, from: Inherited) -> Result<
        Seq<Item>,
        Problem,
    >
        decreases layer,
    {
        if !self.visible(root, path, layer) {
            Ok(Seq::empty())
        } else {
            let own = self.handed(root, path, layer, from);
            match layer.kind {
                LayerKind::Group { children, clip, .. } => match self.walked(
                    root,
                    children@,
                    path,
                    own,
                ) {
                    Err(problem) => Err(problem),
                    Ok(items) => Ok(opening(own, layer, clip) + items + closing(own, layer, clip)),
                },
                _ => self.leaf_items(root, path, layer, own),
            }
        }
    }

    /// The draw list, its bitmaps not numbered yet.
    pub open spec fn draw_list(self) -> Result<Seq<Item>, Problem> {
        match self.show {
            None => Err(Problem::NoShow),
            Some(show) => match self.walked(
                Root::Show,
                show.layers@,
                Seq::empty(),
                Inherited::nothing(),
            ) {
                Err(problem) => Err(problem),
                Ok(own) => match self.active_scene {
                    None => Ok(own),
                    Some(scene) => match rooted(show, Root::Scene(scene)) {
                        None => Ok(own),
                        Some(layers) => match self.walked(
                            Root::Scene(scene),
                            layers,
                            Seq::empty(),
                            Inherited::nothing(),
                        ) {
                            Err(problem) => Err(problem),
                            Ok(items) => Ok(own + items),
                        },
                    },
                },
            },
        }
    }
}

/// A box at the origin, of a set size or the content's own.
pub open spec fn boxed(size: Option<[Num; 2]>, natural: [Num; 2]) -> [Num; 4] {
    match size {
        Some(s) => [num(0), num(0), s[0], s[1]],
        None => [num(0), num(0), natural[0], natural[1]],
    }
}

fn box_of(size: Option<[Num; 2]>, natural: [Num; 2]) -> (r: [Num; 4])
    ensures
        r == boxed(size, natural),
{
    match size {
        Some(s) => [num(0), num(0), s[0], s[1]],
        None => [num(0), num(0), natural[0], natural[1]],
    }
}

/// What a group adds ahead of its children: a blended group is composited as one picture, and
/// a clipped one shows only inside its clip.
pub open spec fn opening(own: Inherited, layer: Layer, clip: Option<Shape>) -> Seq<Item> {
    let spot = own.spot(layer);
    (if layer.blend != Blend::Normal {
        seq![spot.marker(Drawn::BlendBegin { blend: layer.blend })]
    } else {
        Seq::empty()
    }) + (match clip {
        Some(shape) => seq![
            spot.marker(
                Drawn::ClipBegin {
                    shape: Box::new(
                        shape_drawn(shape, spot.origin[0], spot.origin[1], spot.scale, None),
                    ),
                },
            ),
        ],
        None => Seq::empty(),
    })
}

/// What a group adds behind its children.
pub open spec fn closing(own: Inherited, layer: Layer, clip: Option<Shape>) -> Seq<Item> {
    let spot = own.spot(layer);
    (if clip is Some {
        seq![spot.marker(Drawn::ClipEnd)]
    } else {
        Seq::empty()
    }) + (if layer.blend != Blend::Normal {
        seq![spot.marker(Drawn::BlendEnd)]
    } else {
        Seq::empty()
    })
}

impl Engine {
    fn first_play(&self, root: Root, path: &Vec<usize>) -> (r: Option<usize>)
        ensures
            match r {
                Some(i) => i < self.sounding@.len() && self@.first_play(root, path@) == Some(
                    self.sounding@[i as int]@,
                ),
                None => self@.first_play(root, path@) is None,
            },
    {
        let ghost pred = |p: Play| p.on(root, path@);
        proof {
            lemma_first_where(self@.sounding, pred, 0);
        }
        let mut i: usize = 0;
        while i < self.sounding.len()
            invariant
                i <= self.sounding.len(),
                pred == (|p: Play| p.on(root, path@)),
                forall|j: int| 0 <= j < i ==> !pred(#[trigger] self@.sounding[j]),
                match first_where(self@.sounding, pred, 0) {
                    Some(k) => 0 <= k < self@.sounding.len() && pred(self@.sounding[k])
                        && forall|j: int| 0 <= j < k ==> !pred(#[trigger] self@.sounding[j]),
                    None => forall|j: int|
                        0 <= j < self@.sounding.len() ==> !pred(#[trigger] self@.sounding[j]),
                },
            decreases self.sounding.len() - i,
        {
            assert(self@.sounding[i as int] == self.sounding@[i as int]@);
            if self.sounding[i].on(root, path) {
                assert(pred(self@.sounding[i as int]));
                return Some(i);
            }
            i = i + 1;
        }
        None
    }

    /// A layer's content box `[x, y, width, height]` in its local space, before any scale;
    /// `None` for groups, unregistered images and text whose font is not registered.
    pub(crate) fn content_box(&self, root: Root, layer: &Layer, path: &Vec<usize>) -> (r: Option<
        [Num; 4],
    >)
        ensures
            r == self@.content_box(root, path@, *layer),
    {
        proof {
            reveal(State::content_box);
        }
        match &layer.kind {
            LayerKind::Group { .. } => None,
            LayerKind::Audio { .. } => None,
            LayerKind::Shape { shape, .. } => match shape {
                Shape::Rect { rect, .. } => Some(*rect),
                Shape::Circle { circle } => {
                    let r = circle[2];
                    Some(
                        [
                            circle[0].minus(r),
                            circle[1].minus(r),
                            num(TWO).times(r),
                            num(TWO).times(r),
                        ],
                    )
                },
                Shape::Path { path } => bounds(path.elements()),
            },
            LayerKind::Video { size, .. } => {
                // Its own size until a frame says otherwise, so a layer has a box before the
                // host has decoded anything.
                let video = match self.first_play(root, path) {
                    Some(i) => self.sounding[i].playing.clone(),
                    None => self.media_name(root, path),
                };
                if let Some(info) = self.videos.get(video.as_str()) {
                    return Some(box_of(*size, [info.width, info.height]));
                }
                match self.images.get(frame_key(root, path.as_slice()).as_str()) {
                    Some(frame) => Some(
                        box_of(
                            *size,
                            [
                                Num::from_u64(frame.width as u64),
                                Num::from_u64(frame.height as u64),
                            ],
                        ),
                    ),
                    None => None,
                }
            },
            LayerKind::Image { image, size, sheet, .. } => {
                if let Some(data) = self.images.get(image.as_str()) {
                    let natural: [Num; 2] = match *sheet {
                        Some(sheet) => [
                            Num::from_u64(sheet.cell[0] as u64),
                            Num::from_u64(sheet.cell[1] as u64),
                        ],
                        None => [
                            Num::from_u64(data.width as u64),
                            Num::from_u64(data.height as u64),
                        ],
                    };
                    return Some(box_of(*size, natural));
                }
                match self.vectors.get(image.as_str()) {
                    Some(data) => Some(box_of(*size, [data.width, data.height])),
                    None => None,
                }
            },
            LayerKind::Digits { size, .. } => Some(box_of(Some(*size), *size)),
            LayerKind::Text { size, align, .. } => {
                if let Some(size) = *size {
                    return Some(box_of(Some(size), size));
                }
                let text = self.text(root, layer, path, Property::Text);
                let font = self.text(root, layer, path, Property::Font);
                match self.text_draw(font.as_str(), text.as_str(), None, *align) {
                    Some(TextDraw::Bitmap(raster)) => Some(box_of(None, raster.container)),
                    Some(TextDraw::Glyphs { container, .. }) => Some(box_of(None, container)),
                    None => None,
                }
            },
        }
    }

    fn hand_down(&self, root: Root, layer: &Layer, path: &Vec<usize>, from: Inherited) -> (r: Inherited)
        ensures
            r == self@.handed(root, path@, *layer, from),
    {
        let scale = self.number(root, layer, path, Property::Scale);
        let sx = scale.times(self.number(root, layer, path, Property::ScaleX));
        let sy = scale.times(self.number(root, layer, path, Property::ScaleY));
        // The anchor point, in the layer's scaled space: it lands on x/y and the layer turns
        // and scales around it.
        let pivot: [Num; 2] = match layer.anchor {
            Some(anchor) => match self.content_box(root, layer, path) {
                Some(b) => {
                    let (ax, ay) = anchor.offset(b[2], b[3], num(0), num(0));
                    [b[0].minus(ax).times(sx), b[1].minus(ay).times(sy)]
                },
                None => [num(0), num(0)],
            },
            None => [num(0), num(0)],
        };
        let local = Transform::translate(
            self.number(root, layer, path, Property::X),
            self.number(root, layer, path, Property::Y),
        ).after(Transform::rotate(self.number(root, layer, path, Property::Rotation))).after(
            Transform::translate(pivot[0].neg(), pivot[1].neg()),
        ).after(Transform::scale(sx, sy));
        Inherited {
            transform: from.transform.after(local),
            opacity: from.opacity.times(self.number(root, layer, path, Property::Opacity)).clamp(
                num(0),
                num(ONE),
            ),
            overflow: from.overflow || layer.overflow,
        }
    }

    fn push_video(
        &self,
        out: &mut Vec<ResolvedLayer>,
        placed: &Placed<'_>,
        root: Root,
        path: &Vec<usize>,
        size: Option<[Num; 2]>,
    )
        ensures
            items_of(final(out)@) == items_of(old(out)@) + self@.video_items(
                root,
                path@,
                placed@,
                size,
            ),
    {
        let ghost before = items_of(out@);
        assert(before + Seq::<Item>::empty() =~= before);
        // The frame the host last handed over for whatever is playing. Nothing playing draws
        // nothing, so what is behind shows through when a clip ends.
        if let Some(i) = self.first_play(root, path) {
            let key = frame_key(root, path.as_slice());
            if let Some(frame) = self.images.get(key.as_str()) {
                let natural: [Num; 2] = match self.videos.get(self.sounding[i].playing.as_str()) {
                    Some(info) => [info.width, info.height],
                    None => [
                        Num::from_u64(frame.width as u64),
                        Num::from_u64(frame.height as u64),
                    ],
                };
                let extent: [Num; 2] = match size {
                    Some(size) => size,
                    None => natural,
                };
                let shape = ResolvedShape::Image {
                    image: key,
                    source: None,
                    x: placed.origin[0],
                    y: placed.origin[1],
                    width: extent[0].times(placed.scale),
                    height: extent[1].times(placed.scale),
                    tile: None,
                };
                put(out, placed, shape, [255, 255, 255, 255]);
                assert(items_of(out@) =~= before + self@.video_items(root, path@, placed@, size));
            }
        }
    }

    fn push_image(
        &self,
        out: &mut Vec<ResolvedLayer>,
        placed: &Placed<'_>,
        root: Root,
        layer: &Layer,
        path: &Vec<usize>,
        image: &str,
        size: Option<[Num; 2]>,
        sheet: Option<Sheet>,
        repeat: Option<Tile>,
    )
        ensures
            items_of(final(out)@) == items_of(old(out)@) + self@.image_items(
                root,
                path@,
                *layer,
                placed@,
                image@,
                size,
                sheet,
                repeat,
            ),
    {
        let ghost before = items_of(out@);
        assert(before + Seq::<Item>::empty() =~= before);
        // A binding only ever feeds the tint a color it could parse.
        let tint: [u8; 4] = match parse_color(
            self.text(root, layer, path, Property::Tint).as_str(),
        ) {
            Some(tint) => tint,
            None => [255, 255, 255, 255],
        };
        if let Some(data) = self.images.get(image) {
            let shape = image_shape(
                placed,
                image,
                data.width,
                data.height,
                size,
                sheet,
                self.number(root, layer, path, Property::Frame),
                repeat,
                self.number(root, layer, path, Property::TileX),
                self.number(root, layer, path, Property::TileY),
            );
            put(out, placed, shape, tint);
            assert(items_of(out@) =~= before + self@.image_items(
                root,
                path@,
                *layer,
                placed@,
                image@,
                size,
                sheet,
                repeat,
            ));
        } else if let Some(data) = self.vectors.get(image) {
            let extent: [Num; 2] = match size {
                Some(size) => size,
                None => [data.width, data.height],
            };
            let s = placed.scale;
            match repeat {
                None => {
                    put_vector(
                        out,
                        placed,
                        data,
                        placed.origin[0],
                        placed.origin[1],
                        extent[0].over(data.width).times(s),
                        extent[1].over(data.height).times(s),
                        false,
                        tint,
                    );
                },
                Some(tile) => {
                    let start = [
                        self.number(root, layer, path, Property::TileX),
                        self.number(root, layer, path, Property::TileY),
                    ];
                    tile_vector(out, placed, data, extent, tile, start, tint);
                },
            }
        }
    }

    fn snap(&self, own: &Inherited) -> (r: bool)
        ensures
            r == self@.snaps(*own),
    {
        let output = self.effective_output();
        let rgb = match output.mode {
            Some(mode) => mode == OutputMode::Rgb,
            None => true,
        };
        let perfect = match output.scaling {
            Some(scaling) => scaling == Scaling::PixelPerfect,
            None => false,
        };
        (!rgb || perfect) && own.transform.plain().is_some()
    }

    fn push_leaf(
        &self,
        out: &mut Vec<ResolvedLayer>,
        root: Root,
        layer: &Layer,
        path: &Vec<usize>,
        own: Inherited,
    ) -> (r: Result<(), Error>)
        ensures
            match (r, self@.leaf_items(root, path@, *layer, own)) {
                (Ok(()), Ok(items)) => items_of(final(out)@) == items_of(old(out)@) + items,
                (Err(e), Err(problem)) => e@ == problem,
                _ => false,
            },
    {
        proof {
            reveal(State::leaf_items);
        }
        assert(items_of(out@) + Seq::<Item>::empty() =~= items_of(out@));
        let placed = own.place(layer);
        match &layer.kind {
            LayerKind::Group { .. } => Ok(()),
            // Heard, not seen.
            LayerKind::Audio { .. } => Ok(()),
            LayerKind::Shape { shape, fill, stroke } => push_shape(
                out,
                &placed,
                shape,
                fill,
                stroke,
            ),
            LayerKind::Video { size, .. } => {
                self.push_video(out, &placed, root, path, *size);
                Ok(())
            },
            LayerKind::Image { image, size, sheet, repeat, .. } => {
                self.push_image(
                    out,
                    &placed,
                    root,
                    layer,
                    path,
                    image.as_str(),
                    *size,
                    *sheet,
                    *repeat,
                );
                Ok(())
            },
            LayerKind::Digits { digits, size, justify, display, .. } => {
                let text = self.text(root, layer, path, Property::Text);
                match display {
                    DigitDisplay::Segments { .. } => push_segments(
                        out,
                        &placed,
                        display,
                        text.as_str(),
                        *size,
                        *digits,
                        *justify,
                        self.snap(&own),
                    ),
                    DigitDisplay::Reel(reel) => {
                        let positions = self.reel_positions(root, path, reel);
                        self.push_reel(
                            out,
                            &placed,
                            reel,
                            text.as_str(),
                            *size,
                            *digits as usize,
                            *justify,
                            positions,
                        );
                        Ok(())
                    },
                }
            },
            LayerKind::Text { size, align, .. } => {
                let text = self.text(root, layer, path, Property::Text);
                let font = self.text(root, layer, path, Property::Font);
                self.push_text(out, &placed, font.as_str(), text.as_str(), *size, *align);
                Ok(())
            },
        }
    }

    /// Resolve `layers` under `from`, what the tree above them passes down.
    fn walk(
        &self,
        root: Root,
        layers: &[Layer],
        path: &mut Vec<usize>,
        from: Inherited,
        out: &mut Vec<ResolvedLayer>,
    ) -> (r: Result<(), Error>)
        ensures
            match (r, self@.walked(root, layers@, old(path)@, from)) {
                (Ok(()), Ok(items)) => {
                    &&& final(path)@ == old(path)@
                    &&& items_of(final(out)@) == items_of(old(out)@) + items
                },
                (Err(e), Err(problem)) => e@ == problem,
                _ => false,
            },
        decreases layers@,
    {
        let ghost before = items_of(out@);
        let ghost prefix = path@;
        let mut i: usize = 0;
        let ghost mut done = Seq::<Item>::empty();
        assert(layers@.take(0) =~= Seq::<Layer>::empty());
        assert(before + done =~= before);
        while i < layers.len()
            invariant
                i <= layers.len(),
                path@ == prefix,
                prefix == old(path)@,
                self@.walked(root, layers@.take(i as int), prefix, from) == Ok::<
                    Seq<Item>,
                    Problem,
                >(done),
                items_of(out@) == before + done,
            decreases layers.len() - i,
        {
            let layer = &layers[i];
            path.push(i);
            let ghost want = self@.walked_layer(root, *layer, path@, from);
            proof {
                let upto = layers@.take(i as int + 1);
                assert(upto.drop_last() =~= layers@.take(i as int));
                assert(upto.last() == *layer);
            }
            if let Err(e) = self.walk_layer(root, layer, path, from, out) {
                proof {
                    self.lemma_walk_stops(root, layers@, prefix, from, i as int);
                }
                return Err(e);
            }
            proof {
                assert(items_of(out@) =~= before + (done + want->Ok_0));
                done = done + want->Ok_0;
            }
            path.pop();
            assert(path@ =~= prefix);
            i = i + 1;
        }
        assert(layers@.take(i as int) =~= layers@);
        Ok(())
    }

    fn walk_layer(
        &self,
        root: Root,
        layer: &Layer,
        path: &mut Vec<usize>,
        from: Inherited,
        out: &mut Vec<ResolvedLayer>,
    ) -> (r: Result<(), Error>)
        ensures
            match (r, self@.walked_layer(root, *layer, old(path)@, from)) {
                (Ok(()), Ok(items)) => {
                    &&& final(path)@ == old(path)@
                    &&& items_of(final(out)@) == items_of(old(out)@) + items
                },
                (Err(e), Err(problem)) => e@ == problem,
                _ => false,
            },
        decreases layer,
    {
        let ghost here = items_of(out@);
        assert(here + Seq::<Item>::empty() =~= here);
        if !self.is_visible(root, layer, path) {
            return Ok(());
        }
        // A group that may bleed lets its whole subtree bleed.
        let own = self.hand_down(root, layer, path, from);
        match &layer.kind {
            LayerKind::Group { children, clip, .. } => {
                self.open_group(out, layer, clip, &own);
                let ghost opened = items_of(out@);
                if let Err(e) = self.walk(root, children.as_slice(), path, own, out) {
                    return Err(e);
                }
                let ghost items = self@.walked(root, children@, path@, own)->Ok_0;
                self.close_group(out, layer, clip, &own);
                assert(items_of(out@) =~= here + (opening(own, *layer, *clip) + items + closing(
                    own,
                    *layer,
                    *clip,
                )));
                Ok(())
            },
            _ => self.push_leaf(out, root, layer, path, own),
        }
    }

    fn open_group(
        &self,
        out: &mut Vec<ResolvedLayer>,
        layer: &Layer,
        clip: &Option<Shape>,
        own: &Inherited,
    )
        ensures
            items_of(final(out)@) == items_of(old(out)@) + opening(*own, *layer, *clip),
    {
        let ghost here = items_of(out@);
        let placed = own.place(layer);
        if layer.blend != Blend::Normal {
            mark(out, &placed, ResolvedShape::BlendBegin { blend: layer.blend });
        }
        if let Some(shape) = clip {
            let inside = resolve_shape(
                shape,
                placed.origin[0],
                placed.origin[1],
                placed.scale,
                None,
            );
            mark(out, &placed, ResolvedShape::ClipBegin { shape: Box::new(inside) });
        }
        assert(items_of(out@) =~= here + opening(*own, *layer, *clip));
    }

    fn close_group(
        &self,
        out: &mut Vec<ResolvedLayer>,
        layer: &Layer,
        clip: &Option<Shape>,
        own: &Inherited,
    )
        ensures
            items_of(final(out)@) == items_of(old(out)@) + closing(*own, *layer, *clip),
    {
        let ghost here = items_of(out@);
        let placed = own.place(layer);
        if clip.is_some() {
            mark(out, &placed, ResolvedShape::ClipEnd);
        }
        if layer.blend != Blend::Normal {
            mark(out, &placed, ResolvedShape::BlendEnd);
        }
        assert(items_of(out@) =~= here + closing(*own, *layer, *clip));
    }

    /// A walk that fails at a layer fails the same way with more layers behind it.
    proof fn lemma_walk_stops(
        &self,
        root: Root,
        layers: Seq<Layer>,
        prefix: Seq<usize>,
        from: Inherited,
        i: int,
    )
        requires
            0 <= i < layers.len() <= usize::MAX,
            self@.walked(root, layers.take(i), prefix, from) is Ok,
            self@.walked_layer(root, layers[i], prefix.push(i as usize), from) is Err,
        ensures
            self@.walked(root, layers, prefix, from) == Err::<Seq<Item>, Problem>(
                self@.walked_layer(root, layers[i], prefix.push(i as usize), from)->Err_0,
            ),
        decreases layers.len() - i,
    {
        let upto = layers.take(i + 1);
        assert(upto.drop_last() =~= layers.take(i));
        assert(upto.last() == layers[i]);
        self.lemma_walk_still_stops(root, layers, prefix, from, i + 1);
        assert(layers.take(layers.len() as int) =~= layers);
    }

    proof fn lemma_walk_still_stops(
        &self,
        root: Root,
        layers: Seq<Layer>,
        prefix: Seq<usize>,
        from: Inherited,
        i: int,
    )
        requires
            0 <= i <= layers.len(),
            self@.walked(root, layers.take(i), prefix, from) is Err,
        ensures
            self@.walked(root, layers, prefix, from) == self@.walked(
                root,
                layers.take(i),
                prefix,
                from,
            ),
        decreases layers.len() - i,
    {
        if i < layers.len() {
            assert(layers.take(i + 1).drop_last() =~= layers.take(i));
            self.lemma_walk_still_stops(root, layers, prefix, from, i + 1);
        } else {
            assert(layers.take(i) =~= layers);
        }
    }

    /// Resolve the show into a flat draw list: visible layers in paint order with absolute
    /// position and effective opacity. Clipped groups bracket their children with
    /// [`ResolvedShape::ClipBegin`] and [`ResolvedShape::ClipEnd`].
    ///
    /// Property precedence, strongest first: running timeline, binding, base value from the
    /// show description.
    ///
    /// Bitmaps of text carry a revision: a text that was drawn before keeps the one it has, until
    /// a font or the show is replaced or it was not drawn for long, and takes the next number
    /// otherwise.
    pub fn resolved_layers(&mut self) -> (r: Result<Vec<ResolvedLayer>, Error>)
        ensures
            final(self)@ == old(self)@.once_drawn(),
            match (r, old(self)@.resolved()) {
                (Ok(list), Ok(items)) => items_of(list@) == items,
                (Err(e), Err(problem)) => e@ == problem,
                _ => false,
            },
    {
        match self.walk_show() {
            Ok(list) => {
                let (list, revision): (Vec<ResolvedLayer>, u64) = number_bitmaps(
                    list,
                    &mut self.rasters,
                    self.revision,
                );
                self.revision = revision;
                Ok(list)
            },
            Err(e) => Err(e),
        }
    }

    /// The draw list, its bitmaps not numbered yet.
    fn walk_show(&self) -> (r: Result<Vec<ResolvedLayer>, Error>)
        ensures
            match (r, self@.draw_list()) {
                (Ok(list), Ok(items)) => items_of(list@) == items,
                (Err(e), Err(problem)) => e@ == problem,
                _ => false,
            },
    {
        let show = match &self.show {
            Some(show) => show,
            None => {
                return Err(Error::NoShow);
            },
        };
        let mut out: Vec<ResolvedLayer> = Vec::new();
        let mut path: Vec<usize> = Vec::new();
        assert(items_of(out@) =~= Seq::<Item>::empty());
        let top = Inherited::top();
        if let Err(e) = self.walk(Root::Show, show.layers.as_slice(), &mut path, top, &mut out) {
            return Err(e);
        }
        let ghost own = self@.walked(Root::Show, show.layers@, Seq::empty(), top)->Ok_0;
        assert(items_of(out@) =~= own);
        if let Some(scene) = self.active_scene {
            if let Some(layers) = root_layers(show, Root::Scene(scene)) {
                if let Err(e) = self.walk(Root::Scene(scene), layers, &mut path, top, &mut out) {
                    return Err(e);
                }
            }
        }
        Ok(out)
    }
}

/// What a layer hands down is as opaque as a share can say, from 0 to 1, unless its opacity is
/// no number.
pub proof fn lemma_opacity_in_range(
    state: State,
    root: Root,
    path: Seq<usize>,
    layer: Layer,
    from: Inherited,
)
    requires
        !product_of(from.opacity, state.number(root, path, layer, Property::Opacity)).nan(),
    ensures
        at_most(num(0), state.handed(root, path, layer, from).opacity),
        at_most(state.handed(root, path, layer, from).opacity, num(ONE)),
{
    assert(at_most(num(0), num(ONE))) by {
        reveal(less);
    }
    lemma_clamped(
        product_of(from.opacity, state.number(root, path, layer, Property::Opacity)),
        num(0),
        num(ONE),
    );
}

/// A hidden layer adds nothing to the draw list, and neither does anything in it.
pub proof fn lemma_hidden_adds_nothing(
    state: State,
    root: Root,
    layer: Layer,
    path: Seq<usize>,
    from: Inherited,
    chain: Num,
)
    requires
        !state.visible(root, path, layer),
    ensures
        state.walked_layer(root, layer, path, from) == Ok::<Seq<Item>, Problem>(Seq::empty()),
        state.heard_layer(root, layer, path, chain) == Seq::<crate::hear::Heard>::empty(),
        state.watched_layer(root, layer, path) == Seq::<crate::hear::Watched>::empty(),
{
}

} // verus!
