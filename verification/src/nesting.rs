//! Clips and blends of a draw list open and close in order.

use crate::draw::Spot;
use crate::lru::Cached;
use crate::model::{Blend, DigitDisplay, Layer, LayerKind, Reel, Tile};
use crate::names::lookup;
use crate::num::Num;
use crate::paint::{
    canvas_clip, framed, item_orders, painted, shape_orders, Framed, Order,
};
use crate::shape::{Drawn, Item, Lettered};
use crate::state::{State, Vector};
use crate::tree::{rooted, Root};
use crate::uploads::numbered;
use crate::walk::{
    closing, digit_items, digits_items, halo_items, opening, ring_items, segment_items, tile_row,
    tile_rows, tiled_vector, tiling_of, Digit, Inherited, Tiling, GLOW_STEPS,
};
use vstd::prelude::*;

verus! {

/// Something a draw list has opened.
pub ghost enum Opened {
    Clip,
    Blend,
}

/// What is open behind an item, where it closes what was opened last.
pub open spec fn behind(shape: Drawn, open: Seq<Opened>) -> Option<Seq<Opened>> {
    match shape {
        Drawn::ClipBegin { .. } => Some(open.push(Opened::Clip)),
        Drawn::BlendBegin { .. } => Some(open.push(Opened::Blend)),
        Drawn::ClipEnd => if open.len() > 0 && open.last() == Opened::Clip {
            Some(open.drop_last())
        } else {
            None
        },
        Drawn::BlendEnd => if open.len() > 0 && open.last() == Opened::Blend {
            Some(open.drop_last())
        } else {
            None
        },
        _ => Some(open),
    }
}

/// What is open behind a draw list; nothing where it closes what is not open.
pub open spec fn left_open(items: Seq<Item>, open: Seq<Opened>) -> Option<Seq<Opened>>
    decreases items.len(),
{
    if items.len() == 0 {
        Some(open)
    } else {
        match behind(items[0].shape, open) {
            Some(now) => left_open(items.drop_first(), now),
            None => None,
        }
    }
}

/// A draw list closes exactly what it opens, innermost first.
pub open spec fn nests(items: Seq<Item>) -> bool {
    forall|open: Seq<Opened>| #[trigger] left_open(items, open) == Some(open)
}

/// No item of a list opens or closes anything.
pub open spec fn unmarked(items: Seq<Item>) -> bool {
    forall|i: int| 0 <= i < items.len() ==> !marks((#[trigger] items[i]).shape)
}

pub open spec fn marks(shape: Drawn) -> bool {
    shape is ClipBegin || shape is ClipEnd || shape is BlendBegin || shape is BlendEnd
}

proof fn lemma_left_open_joined(a: Seq<Item>, b: Seq<Item>, open: Seq<Opened>)
    ensures
        left_open(a + b, open) == (match left_open(a, open) {
            Some(now) => left_open(b, now),
            None => None,
        }),
    decreases a.len(),
{
    if a.len() == 0 {
        assert(a + b =~= b);
    } else {
        assert((a + b).drop_first() =~= a.drop_first() + b);
        assert((a + b)[0] == a[0]);
        match behind(a[0].shape, open) {
            Some(now) => {
                lemma_left_open_joined(a.drop_first(), b, now);
            },
            None => {},
        }
    }
}

proof fn lemma_unmarked_nests(items: Seq<Item>)
    requires
        unmarked(items),
    ensures
        nests(items),
    decreases items.len(),
{
    if items.len() > 0 {
        let rest = items.drop_first();
        assert forall|i: int| 0 <= i < rest.len() implies !marks((#[trigger] rest[i]).shape) by {
            assert(rest[i] == items[i + 1]);
        }
        lemma_unmarked_nests(rest);
        assert(!marks(items[0].shape));
        assert forall|open: Seq<Opened>| #[trigger] left_open(items, open) == Some(open) by {
            assert(left_open(rest, open) == Some(open));
        }
    }
}

proof fn lemma_nests_joined(a: Seq<Item>, b: Seq<Item>)
    requires
        nests(a),
        nests(b),
    ensures
        nests(a + b),
{
    assert forall|open: Seq<Opened>| #[trigger] left_open(a + b, open) == Some(open) by {
        lemma_left_open_joined(a, b, open);
        assert(left_open(a, open) == Some(open));
        assert(left_open(b, open) == Some(open));
    }
}

/// What nests still does between an opening and its closing.
proof fn lemma_nests_within(begin: Item, items: Seq<Item>, end: Item)
    requires
        nests(items),
        begin.shape is ClipBegin && end.shape is ClipEnd || begin.shape is BlendBegin
            && end.shape is BlendEnd,
    ensures
        nests(seq![begin] + items + seq![end]),
{
    let all = seq![begin] + items + seq![end];
    assert forall|open: Seq<Opened>| #[trigger] left_open(all, open) == Some(open) by {
        reveal_with_fuel(left_open, 2);
        let now = behind(begin.shape, open)->0;
        lemma_left_open_joined(seq![begin] + items, seq![end], open);
        lemma_left_open_joined(seq![begin], items, open);
        assert(seq![begin].drop_first() =~= Seq::<Item>::empty());
        assert(left_open(seq![begin], open) == Some(now));
        assert(left_open(items, now) == Some(now));
        assert(seq![end].drop_first() =~= Seq::<Item>::empty());
        assert(now.drop_last() =~= open);
        assert(left_open(seq![end], now) == Some(open));
    }
}

proof fn lemma_text_unmarked(
    state: State,
    spot: Spot,
    style: Seq<char>,
    text: Seq<char>,
    size: Option<[Num; 2]>,
    align: crate::model::Align,
)
    ensures
        unmarked(state.text_items(spot, style, text, size, align)),
{
    reveal(State::text_items);
}

proof fn lemma_window_unmarked(
    state: State,
    spot: Spot,
    reel: Reel,
    size: [Num; 2],
    position: Num,
    centring: Num,
    n: nat,
)
    ensures
        unmarked(state.window_items(spot, reel, size, position, centring, n)),
    decreases n,
{
    if n > 0 {
        let k = (n - 1) as nat;
        lemma_window_unmarked(state, spot, reel, size, position, centring, k);
        reveal(State::text_items);
        assert(unmarked(state.symbol_items(spot, reel, size, position, centring, k)));
    }
}

proof fn lemma_row_nests(
    state: State,
    spot: Spot,
    reel: Reel,
    letters: Seq<Option<char>>,
    size: [Num; 2],
    positions: Seq<Num>,
    centring: Num,
    n: nat,
)
    ensures
        nests(state.row_items(spot, reel, letters, size, positions, centring, n)),
    decreases n,
{
    if n == 0 || n > letters.len() {
        lemma_unmarked_nests(Seq::empty());
    } else {
        let k = (n - 1) as nat;
        lemma_row_nests(state, spot, reel, letters, size, positions, centring, k);
        let before = state.row_items(spot, reel, letters, size, positions, centring, k);
        let all = state.row_items(spot, reel, letters, size, positions, centring, n);
        if letters[n - 1] is Some && reel.charset@.contains(letters[n - 1]->0) {
            let position = if n - 1 < positions.len() {
                positions[n - 1]
            } else {
                crate::num::num(0)
            };
            let x = crate::num::sum_of(
                spot.origin[0],
                crate::num::product_of(
                    crate::num::from_int(n - 1),
                    crate::num::product_of(size[0], spot.scale),
                ),
            );
            let here = spot.at(x, spot.origin[1]);
            let cell = state.cell_items(here, reel, size, position, centring);
            assert(all == before + cell);
            lemma_cell_nests(state, here, reel, size, position, centring);
            lemma_nests_joined(before, cell);
        }
    }
}

proof fn lemma_cell_nests(
    state: State,
    spot: Spot,
    reel: Reel,
    size: [Num; 2],
    position: Num,
    centring: Num,
)
    ensures
        nests(state.cell_items(spot, reel, size, position, centring)),
{
    let count = crate::draw::window_of(reel) + 1;
    let inner = state.window_items(spot, reel, size, position, centring, count);
    lemma_window_unmarked(state, spot, reel, size, position, centring, count);
    lemma_unmarked_nests(inner);
    let cell = state.cell_items(spot, reel, size, position, centring);
    assert(cell =~= seq![cell[0]] + inner + seq![cell.last()]);
    lemma_nests_within(cell[0], inner, cell.last());
}

proof fn lemma_rings_unmarked(
    spot: Spot,
    glow: crate::model::Glow,
    d: Digit,
    lit: [u8; 4],
    masks: Seq<u16>,
    size: [Num; 2],
    digits: u32,
    step: nat,
)
    ensures
        unmarked(ring_items(spot, glow, d, lit, masks, size[0], size[1], digits, step)),
    decreases GLOW_STEPS + 1 - step,
{
    if step != 0 && step <= GLOW_STEPS {
        lemma_rings_unmarked(spot, glow, d, lit, masks, size, digits, step + 1);
    }
}

proof fn lemma_halo_nests(
    spot: Spot,
    glow: crate::model::Glow,
    d: Digit,
    lit: [u8; 4],
    masks: Seq<u16>,
    size: [Num; 2],
    digits: u32,
)
    ensures
        nests(halo_items(spot, glow, d, lit, masks, size[0], size[1], digits)),
{
    let rings = ring_items(spot, glow, d, lit, masks, size[0], size[1], digits, 1);
    lemma_rings_unmarked(spot, glow, d, lit, masks, size, digits, 1);
    lemma_unmarked_nests(rings);
    let all = halo_items(spot, glow, d, lit, masks, size[0], size[1], digits);
    assert(all =~= seq![all[0]] + rings + seq![all.last()]);
    lemma_nests_within(all[0], rings, all.last());
}

proof fn lemma_digits_unmarked(
    spot: Spot,
    d: Digit,
    lit: Seq<u16>,
    width: Num,
    height: Num,
    digits: u32,
    n: nat,
)
    ensures
        unmarked(digits_items(spot, d, lit, width, height, digits, n)),
    decreases n,
{
    if n != 0 && n <= lit.len() {
        lemma_digits_unmarked(spot, d, lit, width, height, digits, (n - 1) as nat);
        let cell = crate::walk::digit_cell(spot, width, height, digits, n - 1);
        assert(unmarked(digit_items(spot, d, lit[n - 1], cell)));
    }
}

proof fn lemma_tile_row_unmarked(
    spot: Spot,
    data: Vector,
    across: Tiling,
    y: Num,
    sy: Num,
    tint: [u8; 4],
    n: nat,
)
    ensures
        unmarked(tile_row(spot, data, across, y, sy, tint, n)),
    decreases n,
{
    if n > 0 {
        lemma_tile_row_unmarked(spot, data, across, y, sy, tint, (n - 1) as nat);
    }
}

proof fn lemma_tile_rows_unmarked(
    spot: Spot,
    data: Vector,
    across: Tiling,
    down: Tiling,
    tint: [u8; 4],
    n: nat,
)
    ensures
        unmarked(tile_rows(spot, data, across, down, tint, n)),
    decreases n,
{
    if n > 0 {
        lemma_tile_rows_unmarked(spot, data, across, down, tint, (n - 1) as nat);
        lemma_tile_row_unmarked(
            spot,
            data,
            across,
            down.place(n - 1),
            down.scale,
            tint,
            across.count as nat,
        );
    }
}

proof fn lemma_tiled_nests(
    spot: Spot,
    data: Vector,
    extent: [Num; 2],
    tile: Tile,
    start: [Num; 2],
    tint: [u8; 4],
)
    ensures
        nests(tiled_vector(spot, data, extent, tile, start, tint)),
{
    let all = tiled_vector(spot, data, extent, tile, start, tint);
    let one = match tile.size {
        Some(size) => size,
        None => [data.width, data.height],
    };
    let s = spot.scale;
    let across = tiling_of(spot.origin[0], extent[0], one[0], data.width, start[0], s);
    let down = tiling_of(spot.origin[1], extent[1], one[1], data.height, start[1], s);
    let inner = tile_rows(spot, data, across, down, tint, down.count as nat);
    lemma_tile_rows_unmarked(spot, data, across, down, tint, down.count as nat);
    lemma_unmarked_nests(inner);
    assert(all =~= seq![all[0]] + inner + seq![all.last()]);
    lemma_nests_within(all[0], inner, all.last());
}

proof fn lemma_leaf_nests(state: State, root: Root, path: Seq<usize>, layer: Layer, own: Inherited)
    ensures
        state.leaf_items(root, path, layer, own) matches Ok(items) ==> nests(items),
{
    reveal(State::leaf_items);
    if let Ok(items) = state.leaf_items(root, path, layer, own) {
        let spot = own.spot(layer);
        match layer.kind {
            LayerKind::Shape { shape, fill, stroke } => {
                assert(unmarked(items));
                lemma_unmarked_nests(items);
            },
            LayerKind::Digits { digits, size, justify, display, .. } => {
                let text = state.text(root, path, layer, crate::model::Property::Text);
                match display {
                    DigitDisplay::Segments { style, fill, unlit, slant, thickness, glow } => {
                        lemma_segments_nest(
                            spot,
                            display,
                            text,
                            size,
                            digits,
                            justify,
                            state.snaps(own),
                        );
                    },
                    DigitDisplay::Reel(reel) => {
                        reveal(State::reel_items);
                        if reel.charset@.len() == 0 || digits == 0 {
                            lemma_unmarked_nests(items);
                        } else {
                            let centring = match (reel.cells, reel.font) {
                                (None, Some(font)) => crate::num::product_of(
                                    state.ink_centring(font@, reel.charset@),
                                    spot.scale,
                                ),
                                _ => crate::num::num(0),
                            };
                            let letters = crate::cells::celled(text, digits as nat, justify);
                            lemma_row_nests(
                                state,
                                spot,
                                reel,
                                letters,
                                crate::draw::symbol_box(reel, size[0], size[1], digits as nat),
                                state.reel_positions(root, path, reel),
                                centring,
                                letters.len(),
                            );
                        }
                    },
                }
            },
            LayerKind::Text { size, align, .. } => {
                lemma_text_unmarked(
                    state,
                    spot,
                    state.text(root, path, layer, crate::model::Property::Font),
                    state.text(root, path, layer, crate::model::Property::Text),
                    size,
                    align,
                );
                lemma_unmarked_nests(items);
            },
            LayerKind::Image { image, size, repeat, .. } => {
                match (
                    lookup(state.images, image@),
                    lookup(state.vectors, image@),
                    repeat,
                ) {
                    (None, Some(data), Some(tile)) => {
                        let extent = match size {
                            Some(size) => size,
                            None => [data.width, data.height],
                        };
                        let start = [
                            state.number(root, path, layer, crate::model::Property::TileX),
                            state.number(root, path, layer, crate::model::Property::TileY),
                        ];
                        let tint = state.tint_of(root, path, layer);
                        lemma_tiled_nests(spot, data, extent, tile, start, tint);
                    },
                    _ => {
                        assert(unmarked(items));
                        lemma_unmarked_nests(items);
                    },
                }
            },
            _ => {
                assert(unmarked(items));
                lemma_unmarked_nests(items);
            },
        }
    }
}

proof fn lemma_segments_nest(
    spot: Spot,
    display: DigitDisplay,
    text: Seq<char>,
    size: [Num; 2],
    digits: u32,
    justify: crate::model::Justify,
    snap: bool,
)
    ensures
        segment_items(spot, display, text, size[0], size[1], digits, justify, snap) matches Ok(
            items,
        ) ==> nests(items),
{
    reveal(segment_items);
    if let Ok(items) = segment_items(
        spot,
        display,
        text,
        size[0],
        size[1],
        digits,
        justify,
        snap,
    ) {
        lemma_unmarked_nests(Seq::empty());
        if let DigitDisplay::Segments { style, fill, unlit, slant, thickness, glow } = display {
            let lit = crate::shape::color_or(fill@)->Ok_0;
            let d = Digit {
                style,
                lit: Some(lit),
                unlit: crate::walk::unlit_color(unlit)->Ok_0,
                snap,
                look: crate::segments::Look {
                    thickness: match thickness {
                        Some(t) => t,
                        None => crate::num::num(crate::segments::BAR),
                    },
                    slant,
                    grow: crate::num::num(0),
                },
            };
            let shown = crate::segments::fitted(
                crate::segments::dotted(style, text),
                digits as nat,
                justify,
            );
            let n = shown.len();
            let (w, h) = (size[0], size[1]);
            match glow {
                None => {
                    lemma_digits_unmarked(spot, d, shown, w, h, digits, n);
                    lemma_unmarked_nests(items);
                },
                Some(glow) => {
                    let dark = Digit { lit: None, ..d };
                    let bright = Digit { unlit: None, ..d };
                    let first = digits_items(spot, dark, shown, w, h, digits, n);
                    let halo = halo_items(spot, glow, d, lit, shown, w, h, digits);
                    let last = digits_items(spot, bright, shown, w, h, digits, n);
                    lemma_digits_unmarked(spot, dark, shown, w, h, digits, n);
                    lemma_digits_unmarked(spot, bright, shown, w, h, digits, n);
                    lemma_unmarked_nests(first);
                    lemma_unmarked_nests(last);
                    lemma_halo_nests(spot, glow, d, lit, shown, size, digits);
                    lemma_nests_joined(first, halo);
                    lemma_nests_joined(first + halo, last);
                },
            }
        }
    }
}

proof fn lemma_walk_nests(
    state: State,
    root: Root,
    layers: Seq<Layer>,
    prefix: Seq<usize>,
    from: Inherited,
)
    ensures
        state.walked(root, layers, prefix, from) matches Ok(items) ==> nests(items),
    decreases layers,
{
    if layers.len() == 0 {
        lemma_unmarked_nests(Seq::empty());
    } else {
        let path = prefix.push((layers.len() - 1) as usize);
        lemma_walk_nests(state, root, layers.drop_last(), prefix, from);
        lemma_layer_nests(state, root, layers.last(), path, from);
        if let (Ok(a), Ok(b)) = (
            state.walked(root, layers.drop_last(), prefix, from),
            state.walked_layer(root, layers.last(), path, from),
        ) {
            lemma_nests_joined(a, b);
        }
    }
}

proof fn lemma_layer_nests(
    state: State,
    root: Root,
    layer: Layer,
    path: Seq<usize>,
    from: Inherited,
)
    ensures
        state.walked_layer(root, layer, path, from) matches Ok(items) ==> nests(items),
    decreases layer,
{
    if !state.visible(root, path, layer) {
        lemma_unmarked_nests(Seq::empty());
    } else {
        let own = state.handed(root, path, layer, from);
        match layer.kind {
            LayerKind::Group { children, clip, .. } => {
                lemma_walk_nests(state, root, children@, path, own);
                if let Ok(items) = state.walked(root, children@, path, own) {
                    let begin = opening(own, layer, clip);
                    let end = closing(own, layer, clip);
                    let all = begin + items + end;
                    let inner = if clip is Some {
                        let at = begin.len() - 1;
                        lemma_nests_within(begin[at], items, end[0]);
                        seq![begin[at]] + items + seq![end[0]]
                    } else {
                        items
                    };
                    if layer.blend != Blend::Normal {
                        lemma_nests_within(begin[0], inner, end.last());
                        assert(all =~= seq![begin[0]] + inner + seq![end.last()]);
                    } else {
                        assert(all =~= inner);
                    }
                }
            },
            _ => {
                lemma_leaf_nests(state, root, path, layer, own);
            },
        }
    }
}

/// A draw list closes every clip and every blend that it opens, innermost first, and nothing
/// else.
pub proof fn lemma_draw_list_nests(state: State)
    ensures
        state.resolved() matches Ok(items) ==> nests(items),
{
    if let Ok(items) = state.draw_list() {
        lemma_walk_list_nests(state);
        let list = numbered(items, state.rasters, state.revision).items;
        assert forall|open: Seq<Opened>| #[trigger] left_open(list, open) == Some(open) by {
            lemma_numbered_nests(items, state.rasters, state.revision, open);
        }
    }
}

/// Numbering bitmaps opens and closes nothing.
proof fn lemma_numbered_nests(
    items: Seq<Item>,
    known: Seq<Cached<Lettered, u64>>,
    revision: u64,
    open: Seq<Opened>,
)
    ensures
        left_open(numbered(items, known, revision).items, open) == left_open(items, open),
    decreases items.len(),
{
    let list = numbered(items, known, revision).items;
    if items.len() > 0 {
        let most = items.drop_last();
        let item = items.last();
        lemma_numbered_nests(most, known, revision, open);
        let done = numbered(most, known, revision).items;
        assert(items =~= most + seq![item]);
        assert(list =~= done + seq![list.last()]);
        lemma_left_open_joined(most, seq![item], open);
        lemma_left_open_joined(done, seq![list.last()], open);
        assert(seq![item].drop_first() =~= Seq::<Item>::empty());
        assert(seq![list.last()].drop_first() =~= Seq::<Item>::empty());
        reveal_with_fuel(left_open, 2);
    }
}

proof fn lemma_walk_list_nests(state: State)
    ensures
        state.draw_list() matches Ok(items) ==> nests(items),
{
    if let Some(show) = state.show {
        let top = Inherited::nothing();
        lemma_walk_nests(state, Root::Show, show.layers@, Seq::empty(), top);
        if let Some(scene) = state.active_scene {
            if let Some(layers) = rooted(show, Root::Scene(scene)) {
                lemma_walk_nests(state, Root::Scene(scene), layers, Seq::empty(), top);
                if let (Ok(a), Ok(b)) = (
                    state.walked(Root::Show, show.layers@, Seq::empty(), top),
                    state.walked(Root::Scene(scene), layers, Seq::empty(), top),
                ) {
                    lemma_nests_joined(a, b);
                }
            }
        }
    }
}

/// How deep some orders leave a renderer that stands at a depth; nothing where they pop what
/// was not pushed.
pub open spec fn depth_behind(orders: Seq<Order>, depth: nat) -> Option<nat>
    decreases orders.len(),
{
    if orders.len() == 0 {
        Some(depth)
    } else {
        match orders[0] {
            Order::Clip { .. } => depth_behind(orders.drop_first(), depth + 1),
            Order::Blend { .. } => depth_behind(orders.drop_first(), depth + 1),
            Order::Pop => if depth == 0 {
                None
            } else {
                depth_behind(orders.drop_first(), (depth - 1) as nat)
            },
            _ => depth_behind(orders.drop_first(), depth),
        }
    }
}

proof fn lemma_depth_joined(a: Seq<Order>, b: Seq<Order>, depth: nat)
    ensures
        depth_behind(a + b, depth) == (match depth_behind(a, depth) {
            Some(now) => depth_behind(b, now),
            None => None,
        }),
    decreases a.len(),
{
    if a.len() == 0 {
        assert(a + b =~= b);
    } else {
        assert((a + b).drop_first() =~= a.drop_first() + b);
        assert((a + b)[0] == a[0]);
        match a[0] {
            Order::Clip { .. } => {
                lemma_depth_joined(a.drop_first(), b, depth + 1);
            },
            Order::Blend { .. } => {
                lemma_depth_joined(a.drop_first(), b, depth + 1);
            },
            Order::Pop => {
                if depth > 0 {
                    lemma_depth_joined(a.drop_first(), b, (depth - 1) as nat);
                }
            },
            _ => {
                lemma_depth_joined(a.drop_first(), b, depth);
            },
        }
    }
}

proof fn lemma_one_order(order: Order, depth: nat)
    ensures
        depth_behind(seq![order], depth) == (match order {
            Order::Clip { .. } => Some(depth + 1),
            Order::Blend { .. } => Some(depth + 1),
            Order::Pop => if depth == 0 {
                None
            } else {
                Some((depth - 1) as nat)
            },
            _ => Some(depth),
        }),
{
    assert(seq![order].drop_first() =~= Seq::<Order>::empty());
    reveal_with_fuel(depth_behind, 2);
}

proof fn lemma_plain_orders(orders: Seq<Order>, depth: nat)
    requires
        forall|i: int|
            0 <= i < orders.len() ==> !((#[trigger] orders[i]) is Clip || orders[i] is Blend
                || orders[i] is Pop),
    ensures
        depth_behind(orders, depth) == Some(depth),
    decreases orders.len(),
{
    if orders.len() > 0 {
        let rest = orders.drop_first();
        assert forall|i: int| 0 <= i < rest.len() implies !((#[trigger] rest[i]) is Clip
            || rest[i] is Blend || rest[i] is Pop) by {
            assert(rest[i] == orders[i + 1]);
        }
        lemma_plain_orders(rest, depth);
        assert(!(orders[0] is Clip || orders[0] is Blend || orders[0] is Pop));
    }
}

proof fn lemma_shape_depth(item: Item, open: Seq<Opened>)
    requires
        behind(item.shape, open) is Some,
    ensures
        depth_behind(shape_orders(item), open.len()) == Some(behind(item.shape, open)->0.len()),
{
    let orders = shape_orders(item);
    if marks(item.shape) {
        assert(orders =~= seq![orders[0]]);
        lemma_one_order(orders[0], open.len());
    } else {
        lemma_plain_orders(orders, open.len());
    }
}

proof fn lemma_item_depth(item: Item, open: Seq<Opened>)
    requires
        behind(item.shape, open) is Some,
    ensures
        depth_behind(item_orders(item), open.len()) == Some(behind(item.shape, open)->0.len()),
{
    lemma_shape_depth(item, open);
    if item.blend != Blend::Normal {
        let start = seq![Order::Blend { blend: item.blend }];
        let own = shape_orders(item);
        lemma_depth_joined(start + own, seq![Order::Pop], open.len());
        lemma_depth_joined(start, own, open.len());
        lemma_one_order(start[0], open.len());
        assert(start =~= seq![start[0]]);
        let depth = open.len() + 1;
        if marks(item.shape) {
            assert(own =~= seq![own[0]]);
            lemma_one_order(own[0], depth);
        } else {
            lemma_plain_orders(own, depth);
        }
        let now = depth_behind(own, depth)->0;
        lemma_one_order(Order::Pop, now);
    }
}

proof fn lemma_painted_depth(items: Seq<Item>, open: Seq<Opened>)
    requires
        left_open(items, open) is Some,
    ensures
        depth_behind(painted(items), open.len()) == Some(left_open(items, open)->0.len()),
    decreases items.len(),
{
    if items.len() > 0 {
        let most = items.drop_last();
        let item = items.last();
        assert(items =~= most + seq![item]);
        lemma_left_open_joined(most, seq![item], open);
        let now = left_open(most, open)->0;
        assert(seq![item].drop_first() =~= Seq::<Item>::empty());
        reveal_with_fuel(left_open, 2);
        lemma_painted_depth(most, open);
        lemma_item_depth(item, now);
        lemma_depth_joined(painted(most), item_orders(item), open.len());
    }
}

/// The orders that paint a show leave a renderer at the depth it stood at, and never pop
/// anything they have not pushed.
pub proof fn lemma_picture_balanced(state: State)
    ensures
        state.picture() matches Ok(orders) ==> depth_behind(orders, 0) == Some(0nat),
{
    lemma_draw_list_nests(state);
    if let Ok(items) = state.resolved() {
        let none = Seq::<Opened>::empty();
        assert(left_open(items, none) == Some(none));
        lemma_painted_depth(items, none);
    }
}

proof fn lemma_framed_depth(items: Seq<Item>, size: [u32; 2], open: Seq<Opened>)
    requires
        left_open(items, open) is Some,
    ensures
        depth_behind(framed(items, size).orders, open.len()) == Some(
            left_open(items, open)->0.len() + if framed(items, size).inside {
                1nat
            } else {
                0nat
            },
        ),
    decreases items.len(),
{
    if items.len() > 0 {
        let most = items.drop_last();
        let item = items.last();
        assert(items =~= most + seq![item]);
        lemma_left_open_joined(most, seq![item], open);
        let now = left_open(most, open)->0;
        assert(seq![item].drop_first() =~= Seq::<Item>::empty());
        reveal_with_fuel(left_open, 2);
        lemma_framed_depth(most, size, open);
        lemma_item_depth(item, now);
        let f = framed(most, size);
        lemma_framed_closed(f, open.len(), now.len());
        let own = shape_orders(item);
        if item.overflow || marks(item.shape) {
            lemma_depth_joined(f.closed(), item_orders(item), open.len());
        } else {
            let clip = canvas_clip(size);
            assert(now == left_open(items, open)->0);
            if item.blend != Blend::Normal {
                let begin = seq![Order::Blend { blend: item.blend }, clip];
                let end = seq![Order::Pop, Order::Pop];
                let d = now.len();
                assert(begin =~= seq![begin[0]] + seq![clip]);
                lemma_depth_joined(seq![begin[0]], seq![clip], d);
                lemma_one_order(begin[0], d);
                lemma_one_order(clip, d + 1);
                lemma_plain_orders(own, d + 2);
                assert(end =~= seq![Order::Pop] + seq![Order::Pop]);
                lemma_depth_joined(seq![Order::Pop], seq![Order::Pop], d + 2);
                lemma_one_order(Order::Pop, d + 2);
                lemma_one_order(Order::Pop, d + 1);
                lemma_depth_joined(f.closed(), begin, open.len());
                lemma_depth_joined(f.closed() + begin, own, open.len());
                lemma_depth_joined(f.closed() + begin + own, end, open.len());
            } else {
                lemma_plain_orders(own, now.len() + 1);
                if f.inside {
                    lemma_depth_joined(f.orders, own, open.len());
                } else {
                    assert(f.orders.push(clip) =~= f.orders + seq![clip]);
                    lemma_depth_joined(f.orders, seq![clip], open.len());
                    lemma_one_order(clip, now.len());
                    lemma_depth_joined(f.orders.push(clip), own, open.len());
                }
            }
        }
    }
}

proof fn lemma_framed_closed(f: Framed, depth: nat, now: nat)
    requires
        depth_behind(f.orders, depth) == Some(now + if f.inside {
            1nat
        } else {
            0nat
        }),
    ensures
        depth_behind(f.closed(), depth) == Some(now),
{
    if f.inside {
        assert(f.closed() =~= f.orders + seq![Order::Pop]);
        lemma_depth_joined(f.orders, seq![Order::Pop], depth);
        lemma_one_order(Order::Pop, now + 1);
    }
}

/// The orders that paint a show on a larger surface leave a renderer at the depth it stood at,
/// and never pop anything they have not pushed.
pub proof fn lemma_presented_balanced(state: State)
    ensures
        state.presented() matches Ok(orders) ==> depth_behind(orders, 0) == Some(0nat),
{
    lemma_draw_list_nests(state);
    if let Ok(items) = state.resolved() {
        let none = Seq::<Opened>::empty();
        assert(left_open(items, none) == Some(none));
        let size = state.show->0.size;
        lemma_framed_depth(items, size, none);
        lemma_framed_closed(framed(items, size), 0, 0);
    }
}

proof fn lemma_no_overflow(items: Seq<Item>, size: [u32; 2])
    requires
        forall|i: int|
            0 <= i < items.len() ==> (#[trigger] items[i]).overflow || marks(items[i].shape),
    ensures
        framed(items, size) == (Framed { orders: painted(items), inside: false }),
    decreases items.len(),
{
    if items.len() > 0 {
        let most = items.drop_last();
        assert forall|i: int| 0 <= i < most.len() implies (#[trigger] most[i]).overflow || marks(
            most[i].shape,
        ) by {
            assert(most[i] == items[i]);
        }
        lemma_no_overflow(most, size);
    }
}

/// A show of which everything overflows is painted with no clip to the canvas at all.
pub proof fn lemma_all_overflows(state: State)
    requires
        state.resolved() matches Ok(items) ==> forall|i: int|
            0 <= i < items.len() ==> (#[trigger] items[i]).overflow || marks(items[i].shape),
    ensures
        state.presented() == state.picture(),
{
    if let Ok(items) = state.resolved() {
        lemma_no_overflow(items, state.show->0.size);
    }
}

} // verus!
