//! A bitmap of text holds the pixels of the text it is labelled with.

use crate::draw::Spot;
use crate::lru::Cached;
use crate::model::{Align, DigitDisplay, Glow, Justify, Layer, LayerKind, Property, Reel, Tile};
use crate::names::lookup;
use crate::num::{num, Num};
use crate::segments::{dotted, fitted, Look, BAR};
use crate::shape::{color_or, Drawn, Item, Lettered};
use crate::state::{State, Vector};
use crate::tree::{rooted, Root};
use crate::uploads::{lemma_drawing_numbers, numbered, shows};
use crate::walk::{
    closing, digits_items, halo_items, opening, ring_items, segment_items, tile_row, tile_rows,
    tiled_vector, tiling_of, unlit_color, Digit, Inherited, Tiling, GLOW_STEPS,
};
use vstd::prelude::*;

verus! {

/// An item is no bitmap, or one with the pixels of the text on its label.
pub open spec fn true_to(state: State, item: Item) -> bool {
    match item.shape {
        Drawn::Bitmap { label, content, .. } => match state.text_raster(
            label.style,
            label.text,
            label.size,
            label.align,
            label.shadow,
        ) {
            Some(raster) => content.columns == raster.width && content.rows == raster.height
                && content.pixels == raster.pixels,
            None => false,
        },
        _ => true,
    }
}

/// Every bitmap of a list has the pixels of the text on its label.
pub open spec fn faithful(state: State, items: Seq<Item>) -> bool {
    forall|i: int| 0 <= i < items.len() ==> true_to(state, #[trigger] items[i])
}

proof fn lemma_text_faithful(
    state: State,
    spot: Spot,
    style: Seq<char>,
    text: Seq<char>,
    size: Option<[Num; 2]>,
    align: Align,
)
    ensures
        faithful(state, state.text_items(spot, style, text, size, align)),
{
    reveal(State::text_items);
}

proof fn lemma_window_faithful(
    state: State,
    spot: Spot,
    reel: Reel,
    size: [Num; 2],
    position: Num,
    centring: Num,
    n: nat,
)
    ensures
        faithful(state, state.window_items(spot, reel, size, position, centring, n)),
    decreases n,
{
    if n > 0 {
        let k = (n - 1) as nat;
        lemma_window_faithful(state, spot, reel, size, position, centring, k);
        reveal(State::text_items);
        assert(faithful(state, state.symbol_items(spot, reel, size, position, centring, k)));
    }
}

proof fn lemma_row_faithful(
    state: State,
    spot: Spot,
    reel: Reel,
    letters: Seq<Option<char>>,
    size: [Num; 2],
    positions: Seq<Num>,
    centring: Num,
    n: nat,
)
    ensures
        faithful(state, state.row_items(spot, reel, letters, size, positions, centring, n)),
    decreases n,
{
    if n > 0 && n <= letters.len() {
        let k = (n - 1) as nat;
        lemma_row_faithful(state, spot, reel, letters, size, positions, centring, k);
        assert forall|here: Spot, position: Num| faithful(
            state,
            #[trigger] state.cell_items(here, reel, size, position, centring),
        ) by {
            let count = crate::draw::window_of(reel) + 1;
            lemma_window_faithful(state, here, reel, size, position, centring, count);
        }
    }
}

proof fn lemma_rings_faithful(
    state: State,
    spot: Spot,
    glow: Glow,
    d: Digit,
    lit: [u8; 4],
    masks: Seq<u16>,
    size: [Num; 2],
    digits: u32,
    step: nat,
)
    ensures
        faithful(state, ring_items(spot, glow, d, lit, masks, size[0], size[1], digits, step)),
    decreases GLOW_STEPS + 1 - step,
{
    if step != 0 && step <= GLOW_STEPS {
        lemma_rings_faithful(state, spot, glow, d, lit, masks, size, digits, step + 1);
    }
}

proof fn lemma_digits_faithful(
    state: State,
    spot: Spot,
    d: Digit,
    lit: Seq<u16>,
    size: [Num; 2],
    digits: u32,
    n: nat,
)
    ensures
        faithful(state, digits_items(spot, d, lit, size[0], size[1], digits, n)),
    decreases n,
{
    if n != 0 && n <= lit.len() {
        lemma_digits_faithful(state, spot, d, lit, size, digits, (n - 1) as nat);
    }
}

proof fn lemma_segments_faithful(
    state: State,
    spot: Spot,
    display: DigitDisplay,
    text: Seq<char>,
    size: [Num; 2],
    digits: u32,
    justify: Justify,
    snap: bool,
)
    ensures
        segment_items(spot, display, text, size[0], size[1], digits, justify, snap) matches Ok(
            items,
        ) ==> faithful(state, items),
{
    reveal(segment_items);
    if let DigitDisplay::Segments { style, fill, unlit, slant, thickness, glow } = display {
        if let (Ok(lit), Ok(unlit)) = (color_or(fill@), unlit_color(unlit)) {
            let d = Digit {
                style,
                lit: Some(lit),
                unlit,
                snap,
                look: Look {
                    thickness: match thickness {
                        Some(t) => t,
                        None => num(BAR),
                    },
                    slant,
                    grow: num(0),
                },
            };
            let shown = fitted(dotted(style, text), digits as nat, justify);
            let n = shown.len();
            lemma_digits_faithful(state, spot, d, shown, size, digits, n);
            lemma_digits_faithful(state, spot, Digit { lit: None, ..d }, shown, size, digits, n);
            lemma_digits_faithful(state, spot, Digit { unlit: None, ..d }, shown, size, digits, n);
            if let Some(glow) = glow {
                lemma_rings_faithful(state, spot, glow, d, lit, shown, size, digits, 1);
                assert(faithful(
                    state,
                    halo_items(spot, glow, d, lit, shown, size[0], size[1], digits),
                ));
            }
        }
    }
}

proof fn lemma_tile_row_faithful(
    state: State,
    spot: Spot,
    data: Vector,
    across: Tiling,
    y: Num,
    sy: Num,
    tint: [u8; 4],
    n: nat,
)
    ensures
        faithful(state, tile_row(spot, data, across, y, sy, tint, n)),
    decreases n,
{
    if n > 0 {
        lemma_tile_row_faithful(state, spot, data, across, y, sy, tint, (n - 1) as nat);
    }
}

proof fn lemma_tile_rows_faithful(
    state: State,
    spot: Spot,
    data: Vector,
    across: Tiling,
    down: Tiling,
    tint: [u8; 4],
    n: nat,
)
    ensures
        faithful(state, tile_rows(spot, data, across, down, tint, n)),
    decreases n,
{
    if n > 0 {
        lemma_tile_rows_faithful(state, spot, data, across, down, tint, (n - 1) as nat);
        lemma_tile_row_faithful(
            state,
            spot,
            data,
            across,
            down.place(n - 1),
            down.scale,
            tint,
            across.count as nat,
        );
    }
}

proof fn lemma_tiled_faithful(
    state: State,
    spot: Spot,
    data: Vector,
    extent: [Num; 2],
    tile: Tile,
    start: [Num; 2],
    tint: [u8; 4],
)
    ensures
        faithful(state, tiled_vector(spot, data, extent, tile, start, tint)),
{
    let one = match tile.size {
        Some(size) => size,
        None => [data.width, data.height],
    };
    let s = spot.scale;
    let across = tiling_of(spot.origin[0], extent[0], one[0], data.width, start[0], s);
    let down = tiling_of(spot.origin[1], extent[1], one[1], data.height, start[1], s);
    lemma_tile_rows_faithful(state, spot, data, across, down, tint, down.count as nat);
}

proof fn lemma_leaf_faithful(
    state: State,
    root: Root,
    path: Seq<usize>,
    layer: Layer,
    own: Inherited,
)
    ensures
        state.leaf_items(root, path, layer, own) matches Ok(items) ==> faithful(state, items),
{
    reveal(State::leaf_items);
    if let Ok(items) = state.leaf_items(root, path, layer, own) {
        let spot = own.spot(layer);
        match layer.kind {
            LayerKind::Digits { digits, size, justify, display, .. } => {
                let text = state.text(root, path, layer, Property::Text);
                match display {
                    DigitDisplay::Segments { .. } => {
                        let snap = state.snaps(own);
                        lemma_segments_faithful(
                            state,
                            spot,
                            display,
                            text,
                            size,
                            digits,
                            justify,
                            snap,
                        );
                    },
                    DigitDisplay::Reel(reel) => {
                        reveal(State::reel_items);
                        let centring = match (reel.cells, reel.font) {
                            (None, Some(font)) => crate::num::product_of(
                                state.ink_centring(font@, reel.charset@),
                                spot.scale,
                            ),
                            _ => num(0),
                        };
                        let letters = crate::cells::celled(text, digits as nat, justify);
                        lemma_row_faithful(
                            state,
                            spot,
                            reel,
                            letters,
                            crate::draw::symbol_box(reel, size[0], size[1], digits as nat),
                            state.reel_positions(root, path, reel),
                            centring,
                            letters.len(),
                        );
                    },
                }
            },
            LayerKind::Text { size, align, .. } => {
                let font = state.text(root, path, layer, Property::Font);
                let text = state.text(root, path, layer, Property::Text);
                lemma_text_faithful(state, spot, font, text, size, align);
            },
            LayerKind::Image { image, size, repeat, .. } => {
                if let (None, Some(data), Some(tile)) = (
                    lookup(state.images, image@),
                    lookup(state.vectors, image@),
                    repeat,
                ) {
                    let extent = match size {
                        Some(size) => size,
                        None => [data.width, data.height],
                    };
                    let start = [
                        state.number(root, path, layer, Property::TileX),
                        state.number(root, path, layer, Property::TileY),
                    ];
                    let tint = state.tint_of(root, path, layer);
                    lemma_tiled_faithful(state, spot, data, extent, tile, start, tint);
                }
            },
            _ => {},
        }
    }
}

proof fn lemma_walk_faithful(
    state: State,
    root: Root,
    layers: Seq<Layer>,
    prefix: Seq<usize>,
    from: Inherited,
)
    ensures
        state.walked(root, layers, prefix, from) matches Ok(items) ==> faithful(state, items),
    decreases layers,
{
    if layers.len() > 0 {
        let path = prefix.push((layers.len() - 1) as usize);
        lemma_walk_faithful(state, root, layers.drop_last(), prefix, from);
        lemma_layer_faithful(state, root, layers.last(), path, from);
    }
}

proof fn lemma_layer_faithful(
    state: State,
    root: Root,
    layer: Layer,
    path: Seq<usize>,
    from: Inherited,
)
    ensures
        state.walked_layer(root, layer, path, from) matches Ok(items) ==> faithful(state, items),
    decreases layer,
{
    if state.visible(root, path, layer) {
        let own = state.handed(root, path, layer, from);
        match layer.kind {
            LayerKind::Group { children, clip, .. } => {
                lemma_walk_faithful(state, root, children@, path, own);
                assert(faithful(state, opening(own, layer, clip)));
                assert(faithful(state, closing(own, layer, clip)));
            },
            _ => {
                lemma_leaf_faithful(state, root, path, layer, own);
            },
        }
    }
}

proof fn lemma_numbered_faithful(
    state: State,
    items: Seq<Item>,
    known: Seq<Cached<Lettered, u64>>,
    revision: u64,
)
    requires
        faithful(state, items),
    ensures
        faithful(state, numbered(items, known, revision).items),
    decreases items.len(),
{
    if items.len() > 0 {
        let most = items.drop_last();
        assert forall|i: int| 0 <= i < most.len() implies true_to(state, #[trigger] most[i]) by {
            assert(most[i] == items[i]);
        }
        lemma_numbered_faithful(state, most, known, revision);
        assert(true_to(state, items[items.len() - 1]));
    }
}

/// Every bitmap of a draw list has the pixels of the text on its label.
pub proof fn lemma_labels_true(state: State)
    ensures
        state.resolved() matches Ok(items) ==> faithful(state, items),
{
    if let Ok(items) = state.draw_list() {
        let show = state.show->0;
        let top = Inherited::nothing();
        lemma_walk_faithful(state, Root::Show, show.layers@, Seq::empty(), top);
        if let Some(scene) = state.active_scene {
            if let Some(layers) = rooted(show, Root::Scene(scene)) {
                lemma_walk_faithful(state, Root::Scene(scene), layers, Seq::empty(), top);
            }
        }
        assert(faithful(state, items));
        lemma_numbered_faithful(state, items, state.rasters, state.revision);
    }
}

/// The pixels of a bitmap.
pub open spec fn pixels_of(item: Item) -> Option<(u32, u32, Seq<u8>)> {
    match item.shape {
        Drawn::Bitmap { content, .. } => Some((content.columns, content.rows, content.pixels)),
        _ => None,
    }
}

/// A text has the same pixels whenever it is drawn, as long as neither the show nor a bitmap
/// font is replaced. (Replacing one of them forgets the numbers of texts.)
pub proof fn lemma_text_keeps_pixels(
    a: State,
    b: State,
    i: int,
    j: int,
    label: Lettered,
    x: u64,
    y: u64,
)
    requires
        a.show == b.show && a.fonts == b.fonts,
        a.resolved() matches Ok(list) && 0 <= i < list.len() && shows(list[i], label, x),
        b.resolved() matches Ok(list) && 0 <= j < list.len() && shows(list[j], label, y),
    ensures
        pixels_of(a.resolved()->Ok_0[i]) == pixels_of(b.resolved()->Ok_0[j]),
{
    lemma_labels_true(a);
    lemma_labels_true(b);
    assert(true_to(a, a.resolved()->Ok_0[i]));
    assert(true_to(b, b.resolved()->Ok_0[j]));
}

/// The revision of a bitmap identifies its content: two bitmaps of a draw list with one revision
/// have the same pixels.
pub proof fn lemma_revision_identifies(
    s: State,
    first: u64,
    i: int,
    j: int,
    a: Lettered,
    b: Lettered,
    x: u64,
)
    requires
        s.numbered_from(first),
        s.draw_list() matches Ok(items) ==> s.revision + items.len() <= u64::MAX,
        s.resolved() matches Ok(list) && 0 <= i < list.len() && 0 <= j < list.len() && shows(
            list[i],
            a,
            x,
        ) && shows(list[j], b, x),
    ensures
        a == b,
        pixels_of(s.resolved()->Ok_0[i]) == pixels_of(s.resolved()->Ok_0[j]),
{
    lemma_drawing_numbers(s, first);
    lemma_text_keeps_pixels(s, s, i, j, a, x, x);
}

} // verus!
