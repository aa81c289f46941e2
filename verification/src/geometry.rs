//! Where shapes, images and frames come to lie.

use crate::arith::{lemma_small_sizes, lemma_zero, lemma_zero_rounds};
use crate::exact::{
    is_at, is_whole, lemma_compare, lemma_compare_at, lemma_difference_at, lemma_finer,
    lemma_from_int_at, lemma_product_at, lemma_quotient_at, lemma_small_whole, lemma_sum_at,
};
use crate::frame::{cell_bytes, centered, fit_scale, packed};
use crate::hear::frame_name;
use crate::model::{Align, Layer, Scaling, Shape, Sheet, Tile};
use crate::names::lookup;
use crate::num::{
    at_most, floor_of, from_int, lemma_size_zero, less, min_of, num, one_unit, opposite_of,
    product_of, quotient_of, rounded, sum_of, to_u64_of, whole, Num, HIDDEN,
};
use crate::order::{counts, lemma_rounded_within};
use crate::path::PathElement;
use crate::placing::{anchor_of, at_fine, straight};
use crate::raster::pixel;
use crate::rows::lemma_fine_whole;
use crate::shape::{cell_of, placed_path, shape_drawn, Drawn, Transform};
use crate::state::{ImageData, State};
use crate::tree::Root;
use crate::walk::{image_drawn, Inherited};
use crate::waves::{ONE, TWO};
use vstd::arithmetic::div_mod::{lemma_fundamental_div_mod, lemma_fundamental_div_mod_converse};
use vstd::arithmetic::power2::{
    lemma2_to64, lemma2_to64_rest, lemma_pow2_adds, lemma_pow2_pos, pow2,
};
use vstd::prelude::*;

verus! {

/// A place that turns nothing and scales both axes alike: a scale, and where it moves to.
pub open spec fn even_place(own: Inherited, a: int, e: int, f: int) -> bool {
    &&& straight(own.transform, a, a, e, f, 1054, 1044)
    &&& 0 < a < 0x1000_0000
    &&& -0x2000_0000_0000 < e < 0x2000_0000_0000
    &&& -0x2000_0000_0000 < f < 0x2000_0000_0000
}

/// Such a place is baked into what is drawn there.
proof fn lemma_spot_of(own: Inherited, layer: Layer, a: int, e: int, f: int)
    requires
        even_place(own, a, e, f),
    ensures
        ({
            let spot = own.spot(layer);
            &&& is_at(spot.scale, a, 1054)
            &&& is_at(spot.origin[0], e, 1044)
            &&& is_at(spot.origin[1], f, 1044)
            &&& spot.transform == Transform::unmoved()
        }),
{
    let m = own.transform.0;
    let zero = num(0);
    lemma_small_whole();
    assert(is_at(zero, 0, 1054));
    lemma_compare_at(m[0], m[3], a, a, 1054);
    lemma_compare_at(zero, m[0], 0, a, 1054);
    lemma_zero(m[1]);
    lemma_zero(m[2]);
}

/// A point drawn at such a place.
pub(crate) proof fn lemma_placed_at(p: Num, scale: Num, off: Num, i: int, a: int, e: int)
    requires
        at_fine(p, i),
        is_at(scale, a, 1054) && 0 < a < 0x1000_0000,
        is_at(off, e, 1044) && -0x2000_0000_0000 < e < 0x2000_0000_0000,
    ensures
        is_at(sum_of(product_of(p, scale), off), i * a + e, 1044),
        is_at(product_of(p, scale), i * a, 1044),
{
    assert(-0x400_0000_0000 < i * a < 0x400_0000_0000) by (nonlinear_arith)
        requires
            -0x4000 < i < 0x4000,
            0 < a < 0x1000_0000,
    ;
    lemma_product_at(p, scale, i, a, 1064, 1054);
    lemma_sum_at(product_of(p, scale), off, i * a, e, 1044);
}

/// A plain rect is drawn where its place takes it: its corner moved and scaled, its sides scaled,
/// each by what belongs to its axis.
#[verifier::rlimit(40)]
pub proof fn lemma_rect_drawn(
    own: Inherited,
    layer: Layer,
    rect: [Num; 4],
    a: int,
    e: int,
    f: int,
    x: int,
    y: int,
    w: int,
    h: int,
)
    requires
        even_place(own, a, e, f),
        at_fine(rect[0], x) && at_fine(rect[1], y) && at_fine(rect[2], w) && at_fine(rect[3], h),
    ensures
        ({
            let spot = own.spot(layer);
            let shape = Shape::Rect { rect, radius: None };
            shape_drawn(shape, spot.origin[0], spot.origin[1], spot.scale, None) matches Drawn::Rect {
                x: left,
                y: top,
                width,
                height,
            } && is_at(left, x * a + e, 1044) && is_at(top, y * a + f, 1044) && is_at(
                width,
                w * a,
                1044,
            ) && is_at(height, h * a, 1044)
        }),
{
    lemma_spot_of(own, layer, a, e, f);
    let spot = own.spot(layer);
    lemma_placed_at(rect[0], spot.scale, spot.origin[0], x, a, e);
    lemma_placed_at(rect[1], spot.scale, spot.origin[1], y, a, f);
    lemma_placed_at(rect[2], spot.scale, spot.origin[0], w, a, e);
    lemma_placed_at(rect[3], spot.scale, spot.origin[0], h, a, e);
    let zero = num(0);
    assert(at_most(Shape::corner(rect, None), zero)) by {
        let first = min_of(zero, quotient_of(crate::num::abs_of(rect[2]), num(TWO)));
        lemma_small_whole();
        lemma_compare(zero, zero);
        reveal(less);
        reveal(crate::num::equal);
    }
}

/// A circle is drawn where its place takes it: its middle moved and scaled, its radius scaled.
pub proof fn lemma_circle_drawn(
    own: Inherited,
    layer: Layer,
    circle: [Num; 3],
    a: int,
    e: int,
    f: int,
    x: int,
    y: int,
    r: int,
)
    requires
        even_place(own, a, e, f),
        at_fine(circle[0], x) && at_fine(circle[1], y) && at_fine(circle[2], r),
    ensures
        ({
            let spot = own.spot(layer);
            let shape = Shape::Circle { circle };
            shape_drawn(shape, spot.origin[0], spot.origin[1], spot.scale, None) matches Drawn::Circle {
                cx,
                cy,
                radius,
            } && is_at(cx, x * a + e, 1044) && is_at(cy, y * a + f, 1044) && is_at(
                radius,
                r * a,
                1044,
            )
        }),
{
    lemma_spot_of(own, layer, a, e, f);
    let spot = own.spot(layer);
    lemma_placed_at(circle[0], spot.scale, spot.origin[0], x, a, e);
    lemma_placed_at(circle[1], spot.scale, spot.origin[1], y, a, f);
    lemma_placed_at(circle[2], spot.scale, spot.origin[0], r, a, e);
}

/// A path is drawn where its place takes it: step by step, each point of each step moved and
/// scaled, along each axis by what belongs to it.
pub proof fn lemma_path_drawn(
    elements: Seq<PathElement>,
    x: Num,
    y: Num,
    sx: Num,
    sy: Num,
    k: int,
    c: int,
    i: int,
    j: int,
    a: int,
    d: int,
    e: int,
    f: int,
)
    requires
        0 <= k < elements.len(),
        0 <= c < elements[k].corners().len(),
        at_fine(elements[k].corners()[c][0], i),
        at_fine(elements[k].corners()[c][1], j),
        is_at(sx, a, 1054) && 0 < a < 0x1000_0000,
        is_at(sy, d, 1054) && 0 < d < 0x1000_0000,
        is_at(x, e, 1044) && -0x2000_0000_0000 < e < 0x2000_0000_0000,
        is_at(y, f, 1044) && -0x2000_0000_0000 < f < 0x2000_0000_0000,
    ensures
        ({
            let all = placed_path(elements, x, y, sx, sy);
            let p = all[k].corners()[c];
            &&& all.len() == elements.len()
            &&& all[k].corners().len() == elements[k].corners().len()
            &&& is_at(p[0], i * a + e, 1044)
            &&& is_at(p[1], j * d + f, 1044)
        }),
{
    let p = elements[k].corners()[c];
    lemma_placed_at(p[0], sx, x, i, a, e);
    lemma_placed_at(p[1], sy, y, j, d, f);
    let all = placed_path(elements, x, y, sx, sy);
    assert(all[k] == elements[k].placed(x, y, sx, sy));
    let q = elements[k].placed(x, y, sx, sy);
    assert(q.corners()[c] == crate::path::placed(p, x, y, sx, sy));
}

/// The size in pixels of an image, or of one cell of its sheet: none has less than one.
pub open spec fn own_size(columns: u32, rows: u32, sheet: Option<Sheet>) -> (u32, u32) {
    match sheet {
        Some(sheet) => (
            if sheet.cell[0] > 1 {
                sheet.cell[0]
            } else {
                1
            },
            if sheet.cell[1] > 1 {
                sheet.cell[1]
            } else {
                1
            },
        ),
        None => (columns, rows),
    }
}

/// An image fills the size it is given, or else its own size in pixels, or that of one cell of its
/// sheet, scaled: across by its width, down by its height. Tiled, one tile is as large as it says, or as the image is, and the
/// pattern starts where it says.
#[verifier::rlimit(40)]
pub proof fn lemma_image_drawn(
    own: Inherited,
    layer: Layer,
    image: Seq<char>,
    columns: u32,
    rows: u32,
    size: Option<[Num; 2]>,
    sheet: Option<Sheet>,
    repeat: Option<Tile>,
    tile_x: Num,
    tile_y: Num,
    frame: Num,
    a: int,
    e: int,
    f: int,
    w: int,
    h: int,
    tw: int,
    th: int,
    tx: int,
    ty: int,
)
    requires
        even_place(own, a, e, f),
        match size {
            Some(size) => at_fine(size[0], w) && at_fine(size[1], h),
            None => {
                let own = own_size(columns, rows, sheet);
                own.0 < 16 && own.1 < 16 && w == 1024 * own.0 && h == 1024 * own.1
            },
        },
        repeat matches Some(tile) ==> at_fine(tile_x, tx) && at_fine(tile_y, ty) && match tile.size {
            Some(one) => at_fine(one[0], tw) && at_fine(one[1], th),
            None => {
                let own = own_size(columns, rows, sheet);
                own.0 < 16 && own.1 < 16 && tw == 1024 * own.0 && th == 1024 * own.1
            },
        },
    ensures
        ({
            let spot = own.spot(layer);
            image_drawn(
                spot,
                image,
                columns,
                rows,
                size,
                sheet,
                frame,
                repeat,
                tile_x,
                tile_y,
            ) matches Drawn::Image { image: name, source, x, y, width, height, tile } && {
                &&& name == image && (source is Some) == (sheet is Some)
                &&& is_at(x, e, 1044) && is_at(y, f, 1044)
                &&& is_at(width, w * a, 1044) && is_at(height, h * a, 1044)
                &&& (tile is Some) == (repeat is Some)
                &&& tile matches Some(t) ==> is_at(t.width, tw * a, 1044) && is_at(
                    t.height,
                    th * a,
                    1044,
                ) && is_at(t.offset[0], tx * a, 1044) && is_at(t.offset[1], ty * a, 1044)
            }
        }),
{
    lemma_spot_of(own, layer, a, e, f);
    let spot = own.spot(layer);
    let s = spot.scale;
    let (columns, rows) = own_size(columns, rows, sheet);
    let (nx, ny) = (from_int(columns as int), from_int(rows as int));
    lemma2_to64();
    if columns < 16 && rows < 16 {
        lemma_from_int_at(columns as int);
        lemma_from_int_at(rows as int);
        lemma_finer(nx, columns as int, 1074, 1064);
        lemma_finer(ny, rows as int, 1074, 1064);
        assert(columns * pow2(10) == 1024 * columns && rows * pow2(10) == 1024 * rows)
            by (nonlinear_arith)
            requires
                pow2(10) == 1024,
        ;
        lemma_placed_at(nx, s, spot.origin[0], 1024 * columns, a, e);
        lemma_placed_at(ny, s, spot.origin[0], 1024 * rows, a, e);
    }
    if let Some(size) = size {
        lemma_placed_at(size[0], s, spot.origin[0], w, a, e);
        lemma_placed_at(size[1], s, spot.origin[0], h, a, e);
    }
    if let Some(tile) = repeat {
        lemma_placed_at(tile_x, s, spot.origin[0], tx, a, e);
        lemma_placed_at(tile_y, s, spot.origin[0], ty, a, e);
        if let Some(one) = tile.size {
            lemma_placed_at(one[0], s, spot.origin[0], tw, a, e);
            lemma_placed_at(one[1], s, spot.origin[0], th, a, e);
        }
    }
}

/// A clip's frame fills the size its layer gives it, or else the size of the clip, and where that
/// is not known its own, scaled.
pub proof fn lemma_video_drawn(
    s: State,
    root: Root,
    path: Seq<usize>,
    own: Inherited,
    layer: Layer,
    size: Option<[Num; 2]>,
    a: int,
    e: int,
    f: int,
    w: int,
    h: int,
)
    requires
        even_place(own, a, e, f),
        s.first_play(root, path) is Some,
        lookup(s.images, frame_name(root, path)) is Some,
        match (size, lookup(s.videos, s.first_play(root, path)->0.playing)) {
            (Some(size), _) => at_fine(size[0], w) && at_fine(size[1], h),
            (None, Some(info)) => at_fine(info.width, w) && at_fine(info.height, h),
            (None, None) => {
                let frame = lookup(s.images, frame_name(root, path))->0;
                &&& frame.width < 16 && frame.height < 16
                &&& w == 1024 * frame.width && h == 1024 * frame.height
            },
        },
    ensures
        ({
            let items = s.video_items(root, path, own.spot(layer), size);
            &&& items.len() == 1
            &&& items[0].shape matches Drawn::Image { image, x, y, width, height, .. } && image
                == frame_name(root, path) && is_at(x, e, 1044) && is_at(y, f, 1044) && is_at(
                width,
                w * a,
                1044,
            ) && is_at(height, h * a, 1044)
        }),
{
    lemma_spot_of(own, layer, a, e, f);
    let spot = own.spot(layer);
    let frame = lookup(s.images, frame_name(root, path))->0;
    let natural = match lookup(s.videos, s.first_play(root, path)->0.playing) {
        Some(info) => [info.width, info.height],
        None => [from_int(frame.width as int), from_int(frame.height as int)],
    };
    let extent = match size {
        Some(size) => size,
        None => natural,
    };
    if frame.width < 16 && frame.height < 16 {
        lemma_fine_whole(frame.width as int);
        lemma_fine_whole(frame.height as int);
    }
    lemma_placed_at(extent[0], spot.scale, spot.origin[0], w, a, e);
    lemma_placed_at(extent[1], spot.scale, spot.origin[0], h, a, e);
}

/// A whole part of a number that is not below nothing.
pub(crate) proof fn lemma_whole_part(x: Num, k: int)
    requires
        x.finite(),
        0 <= k < HIDDEN,
        k * one_unit() <= x.units() < (k + 1) * one_unit(),
    ensures
        is_whole(floor_of(x), k),
        to_u64_of(floor_of(x)) == k,
{
    reveal(floor_of);
    reveal(to_u64_of);
    lemma_pow2_pos(1074);
    let u = one_unit() as int;
    let s = x.size() as int;
    assert((k + 1) * u == k * u + u && 0 <= k * u) by (nonlinear_arith)
        requires
            k >= 0,
            u > 0,
    ;
    let n = (k * u) as nat;
    if x.negative() {
        assert(s == 0);
        assert(k == 0) by (nonlinear_arith)
            requires
                k * u <= 0,
                k >= 0,
                u > 0,
        ;
        lemma_fundamental_div_mod_converse(u - 1, u, 0, u - 1);
        assert(((s + u - 1) as nat / one_unit()) * one_unit() == 0);
        lemma_zero_rounds(true, 1);
        lemma_size_zero(floor_of(x));
    } else {
        lemma_fundamental_div_mod_converse(s, u, k, s - k * u);
        lemma_rounded_within(n, 1, k as nat, k as nat, 1074);
        let f = floor_of(x);
        assert((s / u) * u == n);
        assert(f.size() == k * u);
        lemma_fundamental_div_mod_converse(k * u, u, k, 0);
        assert(whole(f) == k);
    }
}

/// Cells of a sheet are counted along its rows: the cell of a frame is so many cells across and
/// down that counting row by row comes to the frame, rounded down. It has the size of a cell.
#[verifier::rlimit(40)]
pub proof fn lemma_sheet_cell(sheet: Sheet, width: u32, height: u32, frame: Num, k: int)
    requires
        sheet.cell[0] > 0 && sheet.cell[1] > 0 && sheet.columns > 0,
        sheet.columns * sheet.cell[0] <= width,
        sheet.cell[1] <= height,
        counts(frame),
        k * one_unit() <= frame.units() < (k + 1) * one_unit(),
        0 <= k < sheet.columns * (height as int / sheet.cell[1] as int),
        k < HIDDEN,
    ensures
        ({
            let r = cell_of(sheet, width, height, frame);
            let (cw, ch) = (sheet.cell[0] as int, sheet.cell[1] as int);
            &&& r[2] == cw && r[3] == ch
            &&& r[0] as int % cw == 0 && r[1] as int % ch == 0
            &&& (r[0] as int / cw) < sheet.columns
            &&& (r[1] as int / ch) * sheet.columns + r[0] as int / cw == k
        }),
{
    let (cw, ch) = (sheet.cell[0] as int, sheet.cell[1] as int);
    let columns = sheet.columns as int;
    let (w, h) = (width as int, height as int);
    lemma_fundamental_div_mod(w, cw);
    lemma_fundamental_div_mod(h, ch);
    assert(columns <= w / cw) by (nonlinear_arith)
        requires
            columns * cw <= w,
            w == cw * (w / cw) + w % cw,
            0 <= w % cw < cw,
            cw > 0,
    ;
    let rows = h / ch;
    assert(rows >= 1) by (nonlinear_arith)
        requires
            ch <= h,
            rows == h / ch,
            ch > 0,
    ;
    assert(columns * rows < 0x1_0000_0000_0000_0000) by (nonlinear_arith)
        requires
            0 < columns < 0x1_0000_0000,
            0 < rows < 0x1_0000_0000,
    ;
    let zero = num(0);
    lemma_small_whole();
    lemma_small_sizes();
    lemma_pow2_pos(1074);
    // The frame asked for.
    lemma_compare(zero, frame);
    lemma_size_zero(zero);
    let u = one_unit() as int;
    lemma_whole_part(frame, k);
    lemma_fundamental_div_mod(k, columns);
    let (i, j) = (k % columns, k / columns);
    assert(0 <= i < columns && 0 <= j < rows) by (nonlinear_arith)
        requires
            i == k % columns,
            j == k / columns,
            0 <= k < columns * rows,
            columns > 0,
    ;
    assert(0 <= i * cw < w) by (nonlinear_arith)
        requires
            0 <= i < columns,
            columns * cw <= w,
            cw > 0,
    ;
    assert(0 <= j * ch < h) by (nonlinear_arith)
        requires
            0 <= j < rows,
            h == ch * rows + h % ch,
            h % ch >= 0,
            ch > 0,
    ;
    lemma_fundamental_div_mod_converse(i * cw, cw, i, 0);
    lemma_fundamental_div_mod_converse(j * ch, ch, j, 0);
    assert(k == 0 ==> i == 0 && j == 0) by (nonlinear_arith)
        requires
            i == k % columns,
            j == k / columns,
            columns > 0,
    ;
    assert(j * columns == columns * j) by (nonlinear_arith);
    assert(k > 0 ==> k * u >= u) by (nonlinear_arith)
        requires
            u > 0,
    ;
}

/// Where content sits in a box: at the near edge, in the middle, or at the far one.
pub proof fn lemma_aligned(
    align: Align,
    width: Num,
    height: Num,
    container_w: Num,
    container_h: Num,
    w: int,
    h: int,
    x: int,
    y: int,
)
    requires
        at_fine(width, w) && at_fine(height, h),
        at_fine(container_w, w + 2 * x) && at_fine(container_h, h + 2 * y),
    ensures
        is_at(
            Align::start(align.left(), align.right(), width, container_w),
            anchor_of(align).0 * x,
            1064,
        ),
        is_at(
            Align::start(align.top(), align.bottom(), height, container_h),
            anchor_of(align).1 * y,
            1064,
        ),
{
    lemma_aligned_side(align.left(), align.right(), width, container_w, w, x);
    lemma_aligned_side(align.top(), align.bottom(), height, container_h, h, y);
    assert(anchor_of(align).0 == halves(align.left(), align.right()));
    assert(anchor_of(align).1 == halves(align.top(), align.bottom()));
}

spec fn halves(near: bool, far: bool) -> int {
    if near {
        0
    } else if far {
        2
    } else {
        1
    }
}

proof fn lemma_aligned_side(near: bool, far: bool, item: Num, container: Num, w: int, x: int)
    requires
        at_fine(item, w),
        at_fine(container, w + 2 * x),
    ensures
        is_at(Align::start(near, far, item, container), halves(near, far) * x, 1064),
{
    lemma_small_whole();
    lemma2_to64();
    lemma_difference_at(container, item, w + 2 * x, w, 1064);
    let d = sum_of(container, opposite_of(item));
    lemma_pow2_adds(1, 1063);
    let p = pow2(1063) as int;
    assert((2 * x) * (2 * p) == (2 * (2 * x)) * p) by (nonlinear_arith);
    assert((2 * x) * p == x * (2 * p)) by (nonlinear_arith);
    assert(is_at(d, 2 * (2 * x), 1063));
    lemma_quotient_at(d, num(TWO), 2 * x, 2, 1063, 1074);
    assert(0 * x == 0 && 1 * x == x && 0 * pow2(1064) == 0) by (nonlinear_arith);
}

/// A quotient of whole numbers, rounded down, is their whole quotient.
#[verifier::rlimit(40)]
proof fn lemma_whole_quotient(t: u32, s: u32)
    requires
        s > 0,
    ensures
        ({
            let q = quotient_of(from_int(t as int), from_int(s as int));
            let k = t as int / s as int;
            &&& counts(q)
            &&& k * one_unit() <= q.units() < (k + 1) * one_unit()
            &&& t as int % s as int == 0 ==> is_whole(q, k)
        }),
{
    lemma_from_int_at(t as int);
    lemma_from_int_at(s as int);
    lemma_pow2_pos(1074);
    lemma2_to64();
    lemma2_to64_rest();
    let (x, y) = (from_int(t as int), from_int(s as int));
    let u = one_unit() as int;
    let (a, b) = (t as int, s as int);
    let k = a / b;
    lemma_fundamental_div_mod(a, b);
    assert(!x.negative() && !y.negative()) by {
        reveal(from_int);
        reveal(rounded);
    }
    assert(b * u > 0) by (nonlinear_arith)
        requires
            b > 0,
            u > 0,
    ;
    lemma_size_zero(y);
    let n = x.size() * one_unit();
    let d = y.size();
    assert(quotient_of(x, y) == rounded(false, n, d)) by {
        reveal(quotient_of);
    }
    // Fine enough a grid to tell the quotient from the next whole number.
    let e: nat = if k < 0x10_0000 {
        32
    } else {
        12
    };
    let p = pow2(e) as int;
    assert(b <= p) by {
        if k >= 0x10_0000 {
            assert(b < 0x1000) by (nonlinear_arith)
                requires
                    a >= b * k,
                    a < 0x1_0000_0000,
                    k >= 0x10_0000,
                    b > 0,
            ;
        }
    }
    let t2 = (1074 - e) as nat;
    lemma_pow2_adds(e, t2);
    lemma_pow2_pos(t2);
    let v = pow2(t2) as int;
    let lo = k * p;
    let hi = (k + 1) * p - 1;
    assert(a <= b * k + b - 1);
    assert((lo * v) * d <= n <= (hi * v) * d) by (nonlinear_arith)
        requires
            n == (a * u) * u,
            d == b * u,
            u == p * v,
            lo == k * p,
            hi == (k + 1) * p - 1,
            b * k <= a <= b * k + b - 1,
            0 < b <= p,
            v > 0,
            p > 0,
            k >= 0,
    ;
    assert(0 <= lo <= hi && hi < 0x20_0000_0000_0000) by (nonlinear_arith)
        requires
            lo == k * p,
            hi == (k + 1) * p - 1,
            p > 0,
            0 <= k,
            k < 0x10_0000 && p == 0x1_0000_0000 || k < 0x1_0000_0000 && p == 0x1000,
    ;
    lemma_rounded_within(n, d, lo as nat, hi as nat, t2);
    let q = quotient_of(x, y);
    assert(lo * v == k * u && (hi + 1) * v == (k + 1) * u) by (nonlinear_arith)
        requires
            lo == k * p,
            hi + 1 == (k + 1) * p,
            u == p * v,
    ;
    assert(hi * v < (hi + 1) * v) by (nonlinear_arith)
        requires
            v > 0,
    ;
    if a % b == 0 {
        assert(n == (k * pow2(1074)) * d) by (nonlinear_arith)
            requires
                n == (a * u) * u,
                d == b * u,
                a == b * k,
                u == pow2(1074),
        ;
        lemma_rounded_within(n, d, k as nat, k as nat, 1074);
    }
}

/// A pixel-perfect frame is as many times its own size as fits into the surface both ways, and no
/// more; it stands in the middle, on whole pixels. For every surface at least the frame's size.
#[verifier::rlimit(40)]
pub proof fn lemma_pixel_perfect_fits(show: [u32; 2], target: [u32; 2]) -> (k: int)
    requires
        0 < show[0] <= target[0],
        0 < show[1] <= target[1],
    ensures
        is_whole(fit_scale(show, target, Scaling::PixelPerfect), k),
        k >= 1,
        k * show[0] <= target[0] && k * show[1] <= target[1],
        (k + 1) * show[0] > target[0] || (k + 1) * show[1] > target[1],
        is_whole(
            centered(
                show[0],
                target[0],
                fit_scale(show, target, Scaling::PixelPerfect),
                Scaling::PixelPerfect,
            ),
            (target[0] - k * show[0]) / 2,
        ),
        is_whole(
            centered(
                show[1],
                target[1],
                fit_scale(show, target, Scaling::PixelPerfect),
                Scaling::PixelPerfect,
            ),
            (target[1] - k * show[1]) / 2,
        ),
{
    let (w, h, tw, th) = (show[0], show[1], target[0], target[1]);
    lemma_whole_quotient(tw, w);
    lemma_whole_quotient(th, h);
    lemma_small_whole();
    lemma_small_sizes();
    lemma_pow2_pos(1074);
    let (p, q) = (
        quotient_of(from_int(tw as int), from_int(w as int)),
        quotient_of(from_int(th as int), from_int(h as int)),
    );
    let (a, b) = (tw as int / w as int, th as int / h as int);
    lemma_fundamental_div_mod(tw as int, w as int);
    lemma_fundamental_div_mod(th as int, h as int);
    let u = one_unit() as int;
    lemma_compare(q, p);
    let scale = min_of(p, q);
    let k = if a <= b {
        a
    } else {
        b
    };
    // The smaller one has the smaller whole part.
    assert(k * u <= scale.units() < (k + 1) * u) by {
        if a < b {
            assert((a + 1) * u <= b * u) by (nonlinear_arith)
                requires
                    a + 1 <= b,
                    u > 0,
            ;
        } else if b < a {
            assert((b + 1) * u <= a * u) by (nonlinear_arith)
                requires
                    b + 1 <= a,
                    u > 0,
            ;
        }
    }
    assert(a >= 1 && b >= 1) by (nonlinear_arith)
        requires
            a == tw as int / w as int,
            b == th as int / h as int,
            0 < w <= tw,
            0 < h <= th,
    ;
    assert(k * u >= u) by (nonlinear_arith)
        requires
            k >= 1,
            u > 0,
    ;
    lemma_compare(num(ONE), scale);
    assert(a <= tw && b <= th) by (nonlinear_arith)
        requires
            a == tw as int / w as int,
            b == th as int / h as int,
            w >= 1,
            h >= 1,
            tw >= 0,
            th >= 0,
    ;
    lemma_whole_part(scale, k);
    let s = fit_scale(show, target, Scaling::PixelPerfect);
    assert(k * w <= tw && k * h <= th) by (nonlinear_arith)
        requires
            tw == w * a + tw as int % w as int,
            th == h * b + th as int % h as int,
            tw as int % w as int >= 0,
            th as int % h as int >= 0,
            k <= a,
            k <= b,
            w > 0,
            h > 0,
    ;
    assert((k + 1) * w > tw || (k + 1) * h > th) by {
        if k == a {
            assert((a + 1) * w > tw) by (nonlinear_arith)
                requires
                    tw == w * a + tw as int % w as int,
                    (tw as int % w as int) < w,
            ;
        } else {
            assert((b + 1) * h > th) by (nonlinear_arith)
                requires
                    th == h * b + th as int % h as int,
                    (th as int % h as int) < h,
            ;
        }
    }
    lemma_middle(w, tw, s, k);
    lemma_middle(h, th, s, k);
    k
}

#[verifier::rlimit(40)]
proof fn lemma_middle(w: u32, tw: u32, scale: Num, k: int)
    requires
        is_whole(scale, k),
        0 <= k && k * w <= tw,
    ensures
        is_whole(centered(w, tw, scale, Scaling::PixelPerfect), (tw - k * w) / 2),
{
    lemma_from_int_at(w as int);
    lemma_from_int_at(tw as int);
    lemma_small_whole();
    lemma2_to64();
    lemma_pow2_pos(1074);
    lemma_pow2_pos(1073);
    assert(w * k == k * w) by (nonlinear_arith);
    assert(0 <= k * w) by (nonlinear_arith)
        requires
            k >= 0,
            w >= 0,
    ;
    let x = from_int(tw as int);
    let y = product_of(from_int(w as int), scale);
    lemma_product_at(from_int(w as int), scale, w as int, k, 1074, 1074);
    lemma_difference_at(x, y, tw as int, w * k, 1074);
    let d = sum_of(x, opposite_of(y));
    let m = tw - k * w;
    lemma_finer(d, m, 1074, 1073);
    lemma_quotient_at(d, num(TWO), m, 2, 1073, 1074);
    let r = quotient_of(d, num(TWO));
    lemma_pow2_adds(1, 1073);
    let (u, v) = (one_unit() as int, pow2(1073) as int);
    let j = m / 2;
    assert(j * u <= m * v < (j + 1) * u) by (nonlinear_arith)
        requires
            u == 2 * v,
            v > 0,
            2 * j <= m < 2 * j + 2,
    ;
    lemma_whole_part(r, j);
}

/// A cell cut out of an image has the image's pixels, each where it stood from the cell's corner.
pub proof fn lemma_cut_pixels(
    data: ImageData,
    x: u32,
    y: u32,
    w: u32,
    h: u32,
    i: int,
    j: int,
    c: int,
)
    requires
        0 <= i < w,
        0 <= j < h,
        0 <= c < 4,
    ensures
        cell_bytes(data, x, y, w, (w * h) as nat)[4 * (j * w + i) + c] == pixel(
            data.width,
            data.height,
            data.pixels@,
            x + i,
            y + j,
        )[c],
{
    let k = j * w + i;
    assert(0 <= k < w * h) by (nonlinear_arith)
        requires
            k == j * w + i,
            0 <= i < w,
            0 <= j < h,
    ;
    lemma_fundamental_div_mod_converse(k, w as int, j, i);
    lemma_fundamental_div_mod_converse(4 * k + c, 4, k, c);
}

/// A frame without its padding has every byte of every row, in its place.
pub proof fn lemma_packed_bytes(mapped: Seq<u8>, row: int, stride: int, height: int, x: int, y: int)
    requires
        0 <= x < row <= stride,
        0 <= y < height,
    ensures
        packed(mapped, row, stride, (height * row) as nat)[y * row + x] == mapped[y * stride + x],
{
    let k = y * row + x;
    assert(0 <= k < height * row) by (nonlinear_arith)
        requires
            k == y * row + x,
            0 <= x < row,
            0 <= y < height,
    ;
    lemma_fundamental_div_mod_converse(k, row, y, x);
}

} // verus!
