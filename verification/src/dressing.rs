//! What is put round a shape or a text: gradients, strokes, shadows, and the boxes things are
//! fitted into.

use crate::draw::{fitted, ink_color, stroke_width, vector_items, Spot, Typeset};
use crate::exact::{
    is_at, is_whole, lemma_compare, lemma_compare_at, lemma_difference_at, lemma_finer,
    lemma_from_int_at, lemma_product_at, lemma_quotient_at, lemma_rem_at, lemma_small_whole,
    lemma_sum_at,
};
use crate::follow::rolled;
use crate::frame::{centered, fit_scale};
use crate::geometry::lemma_placed_at;
use crate::listing::{holds_all, lemma_holds_joined};
use crate::model::{Align, Gradient, Layer, LayerKind, Reel, ReelCells, Scaling, Shape, Tile};
use crate::names::lookup;
use crate::num::{
    equal, from_int, lemma_size_zero, max_of, min_of, num, one_unit, opposite_of, product_of,
    quotient_of, rem_euclid_of, sum_of, Num,
};
use crate::order::{counts, lemma_rounded_within};
use crate::paint::{area_of, Area};
use crate::placing::at_fine;
use crate::rows::lemma_glyph_moved;
use crate::shape::{ramp_of, Drawn, ResolvedGradientKind};
use crate::state::{Change, State, Vector};
use crate::tree::Root;
use crate::walk::{first_tile, tile_row, tile_rows, tiled_vector, tiling_of, Tiling};
use crate::waves::TWO;
use vstd::arithmetic::power2::{lemma2_to64, lemma_pow2_adds, lemma_pow2_pos, pow2};
use vstd::prelude::*;

verus! {

/// A gradient goes where the shape that it fills goes: its points are moved and scaled as points
/// of the shape are, and how far it reaches is scaled alike.
pub proof fn lemma_gradient_placed(
    gradient: Gradient,
    x: Num,
    y: Num,
    scale: Num,
    a: int,
    e: int,
    f: int,
    i: int,
    j: int,
    k: int,
    l: int,
)
    requires
        ramp_of(gradient, x, y, scale) is Ok,
        is_at(scale, a, 1054) && 0 < a < 0x1000_0000,
        is_at(x, e, 1044) && -0x2000_0000_0000 < e < 0x2000_0000_0000,
        is_at(y, f, 1044) && -0x2000_0000_0000 < f < 0x2000_0000_0000,
        match gradient {
            Gradient::Linear { from, to, .. } => at_fine(from[0], i) && at_fine(from[1], j)
                && at_fine(to[0], k) && at_fine(to[1], l),
            Gradient::Radial { center, radius, .. } => at_fine(center[0], i) && at_fine(
                center[1],
                j,
            ) && at_fine(radius, k),
        },
    ensures
        match (gradient, ramp_of(gradient, x, y, scale)->Ok_0.kind) {
            (Gradient::Linear { .. }, ResolvedGradientKind::Linear { from, to }) => {
                &&& is_at(from[0], i * a + e, 1044) && is_at(from[1], j * a + f, 1044)
                &&& is_at(to[0], k * a + e, 1044) && is_at(to[1], l * a + f, 1044)
            },
            (Gradient::Radial { .. }, ResolvedGradientKind::Radial { center, radius }) => {
                &&& is_at(center[0], i * a + e, 1044) && is_at(center[1], j * a + f, 1044)
                &&& is_at(radius, k * a, 1044)
            },
            _ => false,
        },
{
    match gradient {
        Gradient::Linear { from, to, .. } => {
            lemma_placed_at(from[0], scale, x, i, a, e);
            lemma_placed_at(from[1], scale, y, j, a, f);
            lemma_placed_at(to[0], scale, x, k, a, e);
            lemma_placed_at(to[1], scale, y, l, a, f);
        },
        Gradient::Radial { center, radius, .. } => {
            lemma_placed_at(center[0], scale, x, i, a, e);
            lemma_placed_at(center[1], scale, y, j, a, f);
            lemma_placed_at(radius, scale, x, k, a, e);
        },
    }
}

/// A stroke is as wide as it is scaled; scaled differently along the two axes, it is as wide as
/// the mean of the two makes it.
pub proof fn lemma_stroke_width(width: Num, sx: Num, sy: Num, even: bool, w: int, a: int, b: int)
    requires
        at_fine(width, w) && at_fine(sx, a) && at_fine(sy, b),
        even ==> a == b,
    ensures
        is_at(stroke_width(width, sx, sy, even), w * (a + b), 1053),
{
    lemma_small_whole();
    lemma2_to64();
    assert(-0x2000_0000 < w * (a + b) < 0x2000_0000 && -0x1000_0000 < w * a < 0x1000_0000)
        by (nonlinear_arith)
        requires
            -0x4000 < w < 0x4000,
            -0x4000 < a < 0x4000,
            -0x4000 < b < 0x4000,
    ;
    lemma_product_at(width, sx, w, a, 1064, 1064);
    lemma_sum_at(sx, sy, a, b, 1064);
    let both = product_of(width, sum_of(sx, sy));
    lemma_product_at(width, sum_of(sx, sy), w, a + b, 1064, 1064);
    lemma_pow2_adds(1, 1053);
    let (p, n) = (pow2(1053) as int, w * (a + b));
    assert(n * (2 * p) == (n * 2) * p) by (nonlinear_arith);
    assert(is_at(both, n * 2, 1053));
    lemma_quotient_at(both, num(TWO), n, 2, 1053, 1074);
    if even {
        assert((w * a) * (2 * p) == (w * (a + b)) * p) by (nonlinear_arith)
            requires
                a == b,
        ;
    }
}

/// The shadow of a text lies behind it: the same glyphs at the same size, moved by the shadow's
/// offset, across and down, and in its color.
#[verifier::rlimit(40)]
pub proof fn lemma_shadow_behind(
    state: State,
    spot: Spot,
    style_name: Seq<char>,
    text: Seq<char>,
    size: Option<[Num; 2]>,
    align: Align,
    k: int,
    i: int,
    j: int,
    a: int,
    e: int,
    f: int,
    p: int,
    q: int,
)
    requires
        state.style(style_name) matches Some(style) && style.shadow matches Some(shadow) && at_fine(
            shadow.offset[0],
            p,
        ) && at_fine(shadow.offset[1], q),
        state.text_draw(style_name, text, size, align) matches Some(Typeset::Glyphs { glyphs, .. })
            && 0 <= k < glyphs.len() && at_fine(glyphs[k].x, i) && at_fine(glyphs[k].y, j),
        at_fine(spot.scale, a),
        is_at(spot.origin[0], e, 1054) && -0x1_0000_0000 < e < 0x1_0000_0000,
        is_at(spot.origin[1], f, 1054) && -0x1_0000_0000 < f < 0x1_0000_0000,
    ensures
        ({
            let items = state.text_items(spot, style_name, text, size, align);
            let style = state.style(style_name)->0;
            &&& items.len() == 2
            &&& items[0].color == ink_color(style.shadow->0.color@)
            &&& items[1].color == ink_color(style.color@)
            &&& items[0].shape matches Drawn::GlyphRun { glyphs: behind, size: one, .. }
                && items[1].shape matches Drawn::GlyphRun { glyphs: own, size: other, .. } && {
                &&& one == other && behind.len() == own.len()
                &&& behind[k].id == own[k].id
                &&& is_at(own[k].x, e + i * a, 1054) && is_at(own[k].y, f + j * a, 1054)
                &&& is_at(behind[k].x, e + i * a + p * a, 1054)
                &&& is_at(behind[k].y, f + j * a + q * a, 1054)
            }
        }),
{
    reveal(State::text_items);
    let style = state.style(style_name)->0;
    let shadow = style.shadow->0;
    let glyphs = state.text_draw(style_name, text, size, align)->0->Glyphs_glyphs;
    lemma_small_whole();
    let zero = num(0);
    assert(is_at(zero, 0, 1054));
    lemma_glyph_moved(glyphs, spot, zero, zero, k, i, j, a, e, f, 0, 0);
    let (dx, dy) = (product_of(shadow.offset[0], spot.scale), product_of(shadow.offset[1], spot.scale));
    assert(-0x1000_0000 < p * a < 0x1000_0000 && -0x1000_0000 < q * a < 0x1000_0000)
        by (nonlinear_arith)
        requires
            -0x4000 < p < 0x4000,
            -0x4000 < q < 0x4000,
            -0x4000 < a < 0x4000,
    ;
    lemma_product_at(shadow.offset[0], spot.scale, p, a, 1064, 1064);
    lemma_product_at(shadow.offset[1], spot.scale, q, a, 1064, 1064);
    lemma_glyph_moved(glyphs, spot, dx, dy, k, i, j, a, e, f, p * a, q * a);
}

/// Artwork fitted into a box keeps its shape, fills the box one way, and stands in the middle the
/// other way: what is left over lies half before it and half behind it.
#[verifier::rlimit(40)]
pub proof fn lemma_fitted(
    width: Num,
    height: Num,
    size: [Num; 2],
    w: int,
    h: int,
    q: int,
    l: int,
    t: int,
)
    requires
        is_whole(width, w) && 0 < w < 0x1000,
        is_whole(height, h) && 0 < h < 0x1000,
        0 < q < 0x4000,
        0 <= l < 0x4000 && 0 <= t < 0x4000,
        l == 0 || t == 0,
        is_at(size[0], w * q + 2 * l, 1064),
        is_at(size[1], h * q + 2 * t, 1064),
    ensures
        ({
            let (fit, left, top) = fitted(width, height, size);
            is_at(fit, q, 1064) && is_at(left, l, 1064) && is_at(top, t, 1064)
        }),
{
    assert(0 < w * q < 0x400_0000 && 0 < h * q < 0x400_0000) by (nonlinear_arith)
        requires
            0 < w < 0x1000,
            0 < h < 0x1000,
            0 < q < 0x4000,
    ;
    lemma_enough(size[0], width, w, q, 2 * l);
    lemma_enough(size[1], height, h, q, 2 * t);
    let (across, down) = (quotient_of(size[0], width), quotient_of(size[1], height));
    let fit = min_of(across, down);
    lemma_compare(down, across);
    assert(is_at(fit, q, 1064));
    lemma_left_over(size[0], width, fit, w, q, l);
    lemma_left_over(size[1], height, fit, h, q, t);
}

/// A length that holds another so often, and something over, holds it at least so often.
proof fn lemma_enough(x: Num, y: Num, w: int, q: int, over: int)
    requires
        is_at(x, w * q + over, 1064),
        is_whole(y, w) && 0 < w < 0x1000,
        0 < q < 0x4000,
        0 <= over < 0x8000,
        0 < w * q < 0x400_0000,
    ensures
        counts(quotient_of(x, y)),
        quotient_of(x, y).units() >= q * pow2(1064),
        over == 0 ==> is_at(quotient_of(x, y), q, 1064),
{
    reveal(quotient_of);
    lemma_pow2_pos(1064);
    lemma_pow2_pos(1074);
    let (p, u) = (pow2(1064) as int, one_unit() as int);
    let m = w * q + over;
    assert(m * p > 0 && w * u > 0) by (nonlinear_arith)
        requires
            m > 0,
            w > 0,
            p > 0,
            u > 0,
    ;
    lemma_size_zero(y);
    let n = x.size() * one_unit();
    let d = y.size();
    assert((q * p) * d <= n <= (m * p) * d) by (nonlinear_arith)
        requires
            n == (m * p) * u,
            d == w * u,
            m == w * q + over,
            over >= 0,
            w >= 1,
            p > 0,
            u > 0,
            m > 0,
    ;
    lemma_rounded_within(n, d, q as nat, m as nat, 1064);
    if over == 0 {
        assert(n == (q * p) * d) by (nonlinear_arith)
            requires
                n == (m * p) * u,
                d == w * u,
                m == w * q,
        ;
        lemma_rounded_within(n, d, q as nat, q as nat, 1064);
    }
}

proof fn lemma_left_over(x: Num, y: Num, fit: Num, w: int, q: int, l: int)
    requires
        is_at(x, w * q + 2 * l, 1064),
        is_whole(y, w),
        is_at(fit, q, 1064),
        0 < w * q < 0x400_0000,
        0 <= l < 0x4000,
    ensures
        is_at(quotient_of(sum_of(x, opposite_of(product_of(y, fit))), num(TWO)), l, 1064),
{
    lemma_small_whole();
    lemma2_to64();
    lemma_product_at(y, fit, w, q, 1074, 1064);
    lemma_difference_at(x, product_of(y, fit), w * q + 2 * l, w * q, 1064);
    let d = sum_of(x, opposite_of(product_of(y, fit)));
    assert(is_at(d, l * 2, 1064));
    lemma_quotient_at(d, num(TWO), l, 2, 1064, 1074);
}

/// Tiles stand a tile apart, in step with where the pattern starts, and the first one is the one
/// that the edge goes through, or starts at.
#[verifier::rlimit(40)]
pub proof fn lemma_tiles(
    edge: Num,
    length: Num,
    one: Num,
    natural: Num,
    offset: Num,
    scale: Num,
    i: int,
    e: int,
    step: int,
    start: int,
) -> (first: int)
    requires
        is_at(edge, e, 1054) && -0x1_0000_0000 < e < 0x1_0000_0000,
        is_at(product_of(one, scale), step, 1054) && 0 < step < 0x1000_0000,
        is_at(product_of(offset, scale), start, 1054) && -0x1000_0000 < start < 0x1000_0000,
        0 <= i <= 4096,
    ensures
        is_at(tiling_of(edge, length, one, natural, offset, scale).place(i), e + first + i * step, 1054),
        -step < first <= 0,
        (start - first) % step == 0,
{
    lemma_small_whole();
    let zero = num(0);
    assert(is_at(zero, 0, 1054));
    let (o, s) = (product_of(offset, scale), product_of(one, scale));
    lemma_rem_at(o, s, start, step, 1054);
    let part = rem_euclid_of(o, s);
    let r = start % step;
    lemma_compare_at(zero, part, 0, r, 1054);
    lemma_difference_at(part, s, r, step, 1054);
    let first = if 0 < r {
        r - step
    } else {
        0
    };
    assert(is_at(first_tile(o, s), first, 1054));
    lemma_from_int_at(i);
    assert(0 <= i * step <= 0x100_0000_0000) by (nonlinear_arith)
        requires
            0 <= i <= 4096,
            0 < step < 0x1000_0000,
    ;
    lemma_product_at(from_int(i), s, i, step, 1074, 1054);
    lemma_sum_at(edge, first_tile(o, s), e, first, 1054);
    lemma_sum_at(sum_of(edge, first_tile(o, s)), product_of(from_int(i), s), e + first, i * step, 1054);
    assert((start - first) % step == 0) by {
        vstd::arithmetic::div_mod::lemma_fundamental_div_mod(start, step);
        let k = start / step;
        let m = if 0 < r {
            k + 1
        } else {
            k
        };
        assert(start - first == step * m) by (nonlinear_arith)
            requires
                start == step * k + r,
                m == (if 0 < r {
                    k + 1
                } else {
                    k
                }),
                first == (if 0 < r {
                    r - step
                } else {
                    0
                }),
                r >= 0,
        ;
        assert(step * m == m * step) by (nonlinear_arith);
        vstd::arithmetic::div_mod::lemma_fundamental_div_mod_converse(start - first, step, m, 0);
    }
    first
}

/// A circle's box reaches its radius to every side of its middle.
pub proof fn lemma_circle_box(
    state: State,
    root: Root,
    path: Seq<usize>,
    layer: Layer,
    circle: [Num; 3],
    x: int,
    y: int,
    r: int,
)
    requires
        layer.kind matches LayerKind::Shape { shape, .. } && shape == (Shape::Circle { circle }),
        at_fine(circle[0], x) && at_fine(circle[1], y) && at_fine(circle[2], r),
    ensures
        state.content_box(root, path, layer) matches Some(b) && is_at(b[0], x - r, 1064) && is_at(
            b[1],
            y - r,
            1064,
        ) && is_at(b[2], 2 * r, 1064) && is_at(b[3], 2 * r, 1064),
{
    reveal(State::content_box);
    lemma_small_whole();
    lemma_difference_at(circle[0], circle[2], x, r, 1064);
    lemma_difference_at(circle[1], circle[2], y, r, 1064);
    lemma_product_at(num(TWO), circle[2], 2, r, 1074, 1064);
}

/// The cells of a row set off one behind the other, the last one first, each later by the stagger
/// and from where it has got to; the cells that nothing new is wanted of go on as they were.
#[verifier::rlimit(40)]
pub proof fn lemma_row_staggered(
    reel: Reel,
    records: Seq<Change>,
    wanted: Seq<Option<Num>>,
    time: Num,
    spin: bool,
    i: int,
    t: int,
    stagger: int,
)
    requires
        0 <= i < wanted.len() <= records.len(),
        wanted.len() < 0x1000,
        is_at(time, t, 1054) && -0x1_0000_0000 < t < 0x1_0000_0000,
        is_at(reel.stagger, stagger, 1054) && 0 <= stagger < 0x1000_0000,
    ensures
        ({
            let all = rolled(reel, records, wanted, time, spin, wanted.len());
            let was = records[i];
            let reached = reel.rolling().value(
                was.start,
                was.target,
                sum_of(time, opposite_of(was.started)),
            );
            &&& all.len() == records.len()
            &&& match wanted[i] {
                None => all[i] == was,
                Some(place) => if !spin && equal(
                    rem_euclid_of(was.target, reel.ring_size()),
                    place,
                ) {
                    all[i] == was
                } else {
                    &&& all[i].start == reached
                    &&& all[i].target == reel.landing(reached, place)
                    &&& is_at(all[i].started, t + (wanted.len() - 1 - i) * stagger, 1054)
                },
            }
        }),
{
    lemma_small_whole();
    let zero = num(0);
    assert(is_at(zero, 0, 1054));
    lemma_rolled_each(reel, records, wanted, time, spin, wanted.len(), i);
    lemma_compare_at(reel.stagger, zero, stagger, 0, 1054);
    lemma_compare_at(zero, reel.stagger, 0, stagger, 1054);
    let pause = max_of(reel.stagger, zero);
    let k = wanted.len() - 1 - i;
    lemma_from_int_at(k);
    assert(is_at(pause, stagger, 1054));
    assert(0 <= k * stagger < 0x100_0000_0000) by (nonlinear_arith)
        requires
            0 <= k < 0x1000,
            0 <= stagger < 0x1000_0000,
    ;
    lemma_product_at(from_int(k), pause, k, stagger, 1074, 1054);
    lemma_sum_at(time, product_of(from_int(k), pause), t, k * stagger, 1054);
}

/// A cell of a row is set off by what is wanted of it alone.
proof fn lemma_rolled_each(
    reel: Reel,
    records: Seq<Change>,
    wanted: Seq<Option<Num>>,
    time: Num,
    spin: bool,
    n: nat,
    i: int,
)
    requires
        0 <= i < wanted.len() <= records.len(),
        n <= wanted.len(),
    ensures
        ({
            let all = rolled(reel, records, wanted, time, spin, n);
            let was = records[i];
            &&& all.len() == records.len()
            &&& i >= n ==> all[i] == was
            &&& i < n ==> match wanted[i] {
                None => all[i] == was,
                Some(place) => if !spin && equal(
                    rem_euclid_of(was.target, reel.ring_size()),
                    place,
                ) {
                    all[i] == was
                } else {
                    let reached = reel.rolling().value(
                        was.start,
                        was.target,
                        sum_of(time, opposite_of(was.started)),
                    );
                    let delay = product_of(
                        from_int(wanted.len() - 1 - i),
                        max_of(reel.stagger, num(0)),
                    );
                    all[i].start == reached && all[i].target == reel.landing(reached, place)
                        && all[i].started == sum_of(time, delay)
                },
            }
        }),
    decreases n,
{
    if n > 0 {
        lemma_rolled_each(reel, records, wanted, time, spin, (n - 1) as nat, i);
        lemma_rolled_each(reel, records, wanted, time, spin, (n - 1) as nat, n - 1);
    }
}

/// A smooth frame keeps its shape, fills the surface one way, and stands in the middle the other
/// way.
#[verifier::rlimit(40)]
pub proof fn lemma_smooth_fit(show: [u32; 2], target: [u32; 2], q: int, l: int, t: int)
    requires
        0 < show[0] < 0x1000 && 0 < show[1] < 0x1000,
        0 < q < 0x4000,
        0 <= l < 0x4000 && 0 <= t < 0x4000,
        l == 0 || t == 0,
        1024 * target[0] == show[0] * q + 2 * l,
        1024 * target[1] == show[1] * q + 2 * t,
    ensures
        ({
            let scale = fit_scale(show, target, Scaling::Smooth);
            &&& is_at(scale, q, 1064)
            &&& is_at(centered(show[0], target[0], scale, Scaling::Smooth), l, 1064)
            &&& is_at(centered(show[1], target[1], scale, Scaling::Smooth), t, 1064)
        }),
{
    let (w, h) = (from_int(show[0] as int), from_int(show[1] as int));
    let (x, y) = (from_int(target[0] as int), from_int(target[1] as int));
    lemma_from_int_at(show[0] as int);
    lemma_from_int_at(show[1] as int);
    lemma_from_int_at(target[0] as int);
    lemma_from_int_at(target[1] as int);
    lemma2_to64();
    lemma_finer(x, target[0] as int, 1074, 1064);
    lemma_finer(y, target[1] as int, 1074, 1064);
    assert(target[0] * pow2(10) == 1024 * target[0] && target[1] * pow2(10) == 1024 * target[1])
        by (nonlinear_arith)
        requires
            pow2(10) == 1024,
    ;
    lemma_fitted(w, h, [x, y], show[0] as int, show[1] as int, q, l, t);
}

/// The region of a rect reaches from its corner as far as its sides are long, along each axis.
pub proof fn lemma_rect_area(shape: Drawn, x: int, y: int, w: int, h: int)
    requires
        shape matches Drawn::Rect { x: left, y: top, width, height } && is_at(left, x, 1044)
            && is_at(top, y, 1044) && is_at(width, w, 1044) && is_at(height, h, 1044),
        -0x2000_0000_0000 < x < 0x2000_0000_0000 && -0x2000_0000_0000 < y < 0x2000_0000_0000,
        -0x2000_0000_0000 < w < 0x2000_0000_0000 && -0x2000_0000_0000 < h < 0x2000_0000_0000,
    ensures
        area_of(shape) matches Area::Rect { x0, y0, x1, y1 } && is_at(x0, x, 1044) && is_at(
            y0,
            y,
            1044,
        ) && is_at(x1, x + w, 1044) && is_at(y1, y + h, 1044),
{
    if let Drawn::Rect { x: left, y: top, width, height } = shape {
        lemma_sum_at(left, width, x, w, 1044);
        lemma_sum_at(top, height, y, h, 1044);
    }
}

/// A picture on a reel is drawn fitted into its symbol's box, and scaled with the box.
#[verifier::rlimit(40)]
pub proof fn lemma_picture_fitted(
    state: State,
    spot: Spot,
    cells: ReelCells,
    index: int,
    size: [Num; 2],
    q: int,
    l: int,
    t: int,
    a: int,
    e: int,
    f: int,
)
    requires
        cells is Images,
        0 <= index < cells.names().len(),
        lookup(state.images, cells.names()[index]@) matches Some(data) && {
            &&& 0 < data.width < 0x1000 && 0 < data.height < 0x1000
            &&& is_at(size[0], data.width * q + 2 * l, 1064)
            &&& is_at(size[1], data.height * q + 2 * t, 1064)
        },
        0 < q < 0x4000,
        0 <= l < 0x4000 && 0 <= t < 0x4000,
        l == 0 || t == 0,
        at_fine(spot.scale, a),
        is_at(spot.origin[0], e, 1054) && -0x1_0000_0000 < e < 0x1_0000_0000,
        is_at(spot.origin[1], f, 1054) && -0x1_0000_0000 < f < 0x1_0000_0000,
    ensures
        ({
            let items = state.artwork_items(spot, cells, index, size);
            let data = lookup(state.images, cells.names()[index]@)->0;
            &&& items.len() == 1
            &&& items[0].shape matches Drawn::Image { image, x, y, width, height, .. } && {
                &&& image == cells.names()[index]@
                &&& is_at(x, e + l * a, 1054) && is_at(y, f + t * a, 1054)
                &&& is_at(width, (data.width * q) * a, 1054)
                &&& is_at(height, (data.height * q) * a, 1054)
            }
        }),
{
    let data = lookup(state.images, cells.names()[index]@)->0;
    let (w, h) = (data.width as int, data.height as int);
    lemma_from_int_at(w);
    lemma_from_int_at(h);
    let (width, height) = (from_int(w), from_int(h));
    lemma_fitted(width, height, size, w, h, q, l, t);
    let (fit, left, top) = fitted(width, height, size);
    assert(0 < w * q < 0x400_0000 && 0 < h * q < 0x400_0000) by (nonlinear_arith)
        requires
            0 < w < 0x1000,
            0 < h < 0x1000,
            0 < q < 0x4000,
    ;
    let (p, r) = (w * q, h * q);
    assert(-0x100_0000_0000 < p * a < 0x100_0000_0000 && -0x100_0000_0000 < r * a
        < 0x100_0000_0000 && -0x1000_0000 < l * a < 0x1000_0000 && -0x1000_0000 < t * a
        < 0x1000_0000) by (nonlinear_arith)
        requires
            0 < p < 0x400_0000,
            0 < r < 0x400_0000,
            0 <= l < 0x4000,
            0 <= t < 0x4000,
            -0x4000 < a < 0x4000,
    ;
    lemma_product_at(width, fit, w, q, 1074, 1064);
    lemma_product_at(height, fit, h, q, 1074, 1064);
    lemma_product_at(product_of(width, fit), spot.scale, p, a, 1064, 1064);
    lemma_product_at(product_of(height, fit), spot.scale, r, a, 1064, 1064);
    lemma_product_at(left, spot.scale, l, a, 1064, 1064);
    lemma_product_at(top, spot.scale, t, a, 1064, 1064);
    lemma_sum_at(spot.origin[0], product_of(left, spot.scale), e, l * a, 1054);
    lemma_sum_at(spot.origin[1], product_of(top, spot.scale), f, t * a, 1054);
}

/// Tiled artwork is drawn at every tile, across by the tiling of its width and down by that of
/// its height.
#[verifier::rlimit(40)]
pub proof fn lemma_tiled(
    spot: Spot,
    data: Vector,
    extent: [Num; 2],
    tile: Tile,
    start: [Num; 2],
    tint: [u8; 4],
    i: int,
    j: int,
)
    requires
        ({
            let one = match tile.size {
                Some(size) => size,
                None => [data.width, data.height],
            };
            let (x, y, s) = (spot.origin[0], spot.origin[1], spot.scale);
            let across = tiling_of(x, extent[0], one[0], data.width, start[0], s);
            let down = tiling_of(y, extent[1], one[1], data.height, start[1], s);
            0 <= i < across.count && 0 <= j < down.count
        }),
    ensures
        ({
            let one = match tile.size {
                Some(size) => size,
                None => [data.width, data.height],
            };
            let (x, y, s) = (spot.origin[0], spot.origin[1], spot.scale);
            let across = tiling_of(x, extent[0], one[0], data.width, start[0], s);
            let down = tiling_of(y, extent[1], one[1], data.height, start[1], s);
            holds_all(
                tiled_vector(spot, data, extent, tile, start, tint),
                vector_items(
                    spot,
                    data,
                    across.place(i),
                    down.place(j),
                    across.scale,
                    down.scale,
                    false,
                    tint,
                ),
            )
        }),
{
    let one = match tile.size {
        Some(size) => size,
        None => [data.width, data.height],
    };
    let (x, y, s) = (spot.origin[0], spot.origin[1], spot.scale);
    let across = tiling_of(x, extent[0], one[0], data.width, start[0], s);
    let down = tiling_of(y, extent[1], one[1], data.height, start[1], s);
    let part = vector_items(
        spot,
        data,
        across.place(i),
        down.place(j),
        across.scale,
        down.scale,
        false,
        tint,
    );
    lemma_tile_in_rows(spot, data, across, down, tint, i, j, down.count as nat);
    let all = tiled_vector(spot, data, extent, tile, start, tint);
    let rows = tile_rows(spot, data, across, down, tint, down.count as nat);
    let (first, last) = (all.take(1), all.skip(all.len() - 1));
    lemma_holds_joined(first, rows, part);
    lemma_holds_joined(first + rows, last, part);
    assert(all =~= first + rows + last);
}

proof fn lemma_tile_in_row(
    spot: Spot,
    data: Vector,
    across: Tiling,
    y: Num,
    sy: Num,
    tint: [u8; 4],
    i: int,
    n: nat,
)
    requires
        0 <= i < n,
    ensures
        holds_all(
            tile_row(spot, data, across, y, sy, tint, n),
            vector_items(spot, data, across.place(i), y, across.scale, sy, false, tint),
        ),
    decreases n,
{
    let part = vector_items(spot, data, across.place(i), y, across.scale, sy, false, tint);
    let before = tile_row(spot, data, across, y, sy, tint, (n - 1) as nat);
    let last = vector_items(spot, data, across.place(n - 1), y, across.scale, sy, false, tint);
    if i < n - 1 {
        lemma_tile_in_row(spot, data, across, y, sy, tint, i, (n - 1) as nat);
    }
    lemma_holds_joined(before, last, part);
}

proof fn lemma_tile_in_rows(
    spot: Spot,
    data: Vector,
    across: Tiling,
    down: Tiling,
    tint: [u8; 4],
    i: int,
    j: int,
    n: nat,
)
    requires
        0 <= i < across.count,
        0 <= j < n,
    ensures
        holds_all(
            tile_rows(spot, data, across, down, tint, n),
            vector_items(
                spot,
                data,
                across.place(i),
                down.place(j),
                across.scale,
                down.scale,
                false,
                tint,
            ),
        ),
    decreases n,
{
    let part = vector_items(
        spot,
        data,
        across.place(i),
        down.place(j),
        across.scale,
        down.scale,
        false,
        tint,
    );
    let before = tile_rows(spot, data, across, down, tint, (n - 1) as nat);
    let count = across.count as nat;
    let last = tile_row(spot, data, across, down.place(n - 1), down.scale, tint, count);
    if j < n - 1 {
        lemma_tile_in_rows(spot, data, across, down, tint, i, j, (n - 1) as nat);
    } else {
        lemma_tile_in_row(spot, data, across, down.place(j), down.scale, tint, i, count);
    }
    lemma_holds_joined(before, last, part);
}

} // verus!
