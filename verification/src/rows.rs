//! Where the cells of a row, the symbols of a reel and the glyphs of a text come to stand.

use crate::cells::celled;
use crate::draw::{first_seen, middle_of, moved_glyphs, raster_item, symbol_box, window_of, Spot};
use crate::exact::{
    is_at, is_whole, lemma_difference_at, lemma_finer, lemma_from_int_at, lemma_product_at,
    lemma_quotient_at, lemma_rem_at, lemma_same_size, lemma_small_whole, lemma_sum_at,
};
use crate::geometry::lemma_aligned;
use crate::model::{Align, Justify, Reel};
use crate::num::{
    floor_of, from_int, num, one_unit, opposite_of, product_of, quotient_of, rem_euclid_of, sum_of,
    to_u64_of, whole, Num, HIDDEN,
};
use crate::order::lemma_rounded_within;
use crate::outline::{OutlineFace, PlacedGlyph};
use crate::placing::{anchor_of, at_fine};
use crate::raster::Raster;
use crate::shape::{Drawn, Lettered};
use crate::state::State;
use crate::walk::digit_cell;
use crate::waves::{ONE, TWO};
use vstd::arithmetic::div_mod::{lemma_fundamental_div_mod, lemma_fundamental_div_mod_converse};
use vstd::arithmetic::power2::{lemma2_to64, lemma_pow2_adds, lemma_pow2_pos, pow2};
use vstd::prelude::*;

verus! {

/// A number in parts of 1024, rounded down.
#[verifier::rlimit(40)]
pub(crate) proof fn lemma_floor_at(x: Num, a: int)
    requires
        is_at(x, a, 1064),
        -HIDDEN < a < HIDDEN,
    ensures
        is_whole(floor_of(x), a / 1024),
{
    reveal(floor_of);
    lemma_pow2_pos(1064);
    lemma2_to64();
    lemma_pow2_adds(10, 1064);
    let (p, u) = (pow2(1064) as int, one_unit() as int);
    let k = a / 1024;
    let s = x.size() as int;
    assert((a >= 0) == (a * p >= 0) && (a > 0) == (a * p > 0)) by (nonlinear_arith)
        requires
            p > 0,
    ;
    if x.negative() {
        let m = -k;
        let over = s + u - 1 - m * u;
        assert(0 <= over < u && 0 <= m * u) by (nonlinear_arith)
            requires
                over == s + u - 1 - m * u,
                s == -(a * p),
                u == 1024 * p,
                p > 0,
                m == -k,
                m >= 0,
                1024 * k <= a < 1024 * k + 1024,
        ;
        lemma_fundamental_div_mod_converse(s + u - 1, u, m, over);
        let n = (m * u) as nat;
        assert((s + u - 1) / u * u == n);
        lemma_rounded_within(n, 1, m as nat, m as nat, 1074);
        lemma_same_size(true, n, 1);
        assert(m * u == -(k * u)) by (nonlinear_arith)
            requires
                m == -k,
        ;
    } else {
        let over = s - k * u;
        assert(0 <= over < u && 0 <= k * u) by (nonlinear_arith)
            requires
                over == s - k * u,
                s == a * p,
                u == 1024 * p,
                p > 0,
                k >= 0,
                1024 * k <= a < 1024 * k + 1024,
        ;
        lemma_fundamental_div_mod_converse(s, u, k, over);
        lemma_rounded_within((k * u) as nat, 1, k as nat, k as nat, 1074);
    }
}

/// The symbols of a reel stand in line behind the window: the symbol `at` of the ring lies as far
/// from the middle of the window as it is from the position, and the first one looked at is the
/// one that the window's near edge goes through or touches. The ring goes round.
#[verifier::rlimit(40)]
pub proof fn lemma_symbol_seen(
    state: State,
    spot: Spot,
    reel: Reel,
    size: [Num; 2],
    position: Num,
    centring: Num,
    k: nat,
    p: int,
    h: int,
    a: int,
    e: int,
    c: int,
) -> (r: (int, Num))
    requires
        window_of(reel) <= 16 && k <= 32,
        0 < reel.charset@.len() < 0x1_0000,
        is_at(position, p, 1064) && -0x1000_0000 < p < 0x1000_0000,
        at_fine(size[1], h) && at_fine(spot.scale, a),
        is_at(spot.origin[1], e, 1044) && -0x2000_0000_0000 < e < 0x2000_0000_0000,
        is_at(centring, c, 1044) && -0x2000_0000_0000 < c < 0x2000_0000_0000,
    ensures
        ({
            let (at, y) = r;
            let slide = 1024 * at - p + 512 * (window_of(reel) - 1);
            let here = spot.at(spot.origin[0], y);
            let on = at % reel.charset@.len() as int;
            &&& 1024 * k - 1024 < slide <= 1024 * k
            &&& is_at(y, e + slide * (h * a) + c, 1044)
            &&& state.symbol_items(spot, reel, size, position, centring, k) == match (
                reel.cells,
                reel.font,
            ) {
                (Some(cells), _) => state.artwork_items(here, cells, on, size),
                (None, Some(font)) => state.text_items(
                    here,
                    font@,
                    seq![reel.charset@[on]],
                    Some(size),
                    Align::Center,
                ),
                (None, None) => Seq::empty(),
            }
        }),
{
    lemma_small_whole();
    lemma2_to64();
    let w = window_of(reel) as int;
    // The middle of the window, and the first symbol.
    lemma_from_int_at(w);
    let less_one = sum_of(from_int(w), opposite_of(num(ONE)));
    lemma_difference_at(from_int(w), num(ONE), w, 1, 1074);
    let middle = middle_of(reel);
    lemma_pow2_adds(1, 1073);
    assert((w - 1) * (2 * pow2(1073)) == ((w - 1) * 2) * pow2(1073)) by (nonlinear_arith);
    assert(is_at(less_one, (w - 1) * 2, 1073));
    lemma_quotient_at(less_one, num(TWO), w - 1, 2, 1073, 1074);
    lemma_finer(middle, w - 1, 1073, 1064);
    assert(pow2(9) == 512);
    assert((w - 1) * pow2(9) == 512 * (w - 1)) by (nonlinear_arith)
        requires
            pow2(9) == 512,
    ;
    let m = 512 * (w - 1);
    let seen = sum_of(position, opposite_of(middle));
    lemma_difference_at(position, middle, p, m, 1064);
    lemma_floor_at(seen, p - m);
    let first = first_seen(reel, position);
    let f = (p - m) / 1024;
    // This one.
    lemma_from_int_at(k as int);
    lemma_sum_at(first, from_int(k as int), f, k as int, 1074);
    let number = sum_of(first, from_int(k as int));
    let at = f + k;
    lemma_finer(number, at, 1074, 1064);
    assert(at * pow2(10) == 1024 * at) by (nonlinear_arith)
        requires
            pow2(10) == 1024,
    ;
    lemma_difference_at(number, position, 1024 * at, p, 1064);
    let gap = sum_of(number, opposite_of(position));
    lemma_sum_at(gap, middle, 1024 * at - p, m, 1064);
    let slide = sum_of(gap, middle);
    let d = 1024 * at - p + m;
    // Where it is drawn.
    let down = product_of(size[1], spot.scale);
    assert(-0x1000_0000 < h * a < 0x1000_0000) by (nonlinear_arith)
        requires
            -0x4000 < h < 0x4000,
            -0x4000 < a < 0x4000,
    ;
    lemma_product_at(size[1], spot.scale, h, a, 1064, 1064);
    let far = h * a;
    assert(-0x1_0000_0000_0000 < d * far < 0x1_0000_0000_0000) by (nonlinear_arith)
        requires
            -0x8400 <= d <= 0x8400,
            -0x1000_0000 < far < 0x1000_0000,
    ;
    lemma_product_at(slide, down, d, far, 1064, 1054);
    let moved = product_of(slide, down);
    lemma_sum_at(spot.origin[1], moved, e, d * far, 1044);
    lemma_sum_at(sum_of(spot.origin[1], moved), centring, e + d * far, c, 1044);
    let y = sum_of(sum_of(spot.origin[1], moved), centring);
    // Which one it is.
    let n = reel.charset@.len() as int;
    lemma_from_int_at(n);
    lemma_rem_at(number, from_int(n), at, n, 1074);
    let rest = rem_euclid_of(number, from_int(n));
    lemma_fundamental_div_mod(at, n);
    lemma_whole_number(rest, at % n);
    (at, y)
}

/// A whole number, truncated to itself.
proof fn lemma_whole_number(x: Num, k: int)
    requires
        is_whole(x, k),
        0 <= k < HIDDEN,
    ensures
        to_u64_of(x) == k,
{
    reveal(to_u64_of);
    lemma_pow2_pos(1074);
    let u = one_unit() as int;
    assert(0 <= k * u && (k * u == 0 ==> k == 0)) by (nonlinear_arith)
        requires
            k >= 0,
            u > 0,
    ;
    lemma_fundamental_div_mod_converse(k * u, u, k, 0);
    assert(!x.negative() ==> whole(x) == k);
}

/// The cells of a reel row share its width among them and its height among the symbols of a
/// window; the cells stand side by side, each showing its own position through a window as high
/// as all its symbols.
#[verifier::rlimit(40)]
pub proof fn lemma_reel_cells(
    state: State,
    spot: Spot,
    reel: Reel,
    letters: Seq<Option<char>>,
    width: Num,
    height: Num,
    count: nat,
    positions: Seq<Num>,
    centring: Num,
    i: int,
    w: int,
    h: int,
    a: int,
    e: int,
) -> (x: Num)
    requires
        0 < count < 64,
        0 <= i < letters.len() <= count,
        letters[i] is Some && reel.charset@.contains(letters[i]->0),
        i < positions.len(),
        window_of(reel) <= 16,
        is_at(width, w * count, 1064) && -0x4000 < w < 0x4000,
        is_at(height, h * window_of(reel), 1064) && -0x4000 < h < 0x4000,
        at_fine(spot.scale, a),
        is_at(spot.origin[0], e, 1054) && -0x1_0000_0000 < e < 0x1_0000_0000,
    ensures
        ({
            let size = symbol_box(reel, width, height, count);
            let row = |n: nat|
                state.row_items(spot, reel, letters, size, positions, centring, n);
            let here = spot.at(x, spot.origin[1]);
            let added = state.cell_items(here, reel, size, positions[i], centring);
            &&& is_at(size[0], w, 1064) && is_at(size[1], h, 1064)
            &&& is_at(x, e + i * (w * a), 1054)
            &&& row((i + 1) as nat) == row(i as nat) + added
            &&& added.first().shape matches Drawn::ClipBegin { shape }
                && *shape matches Drawn::Rect { x: left, y: top, width: wide, height: high }
                && left == x && top == spot.origin[1] && is_at(wide, w * a, 1054) && is_at(
                high,
                (h * a) * window_of(reel),
                1054,
            )
        }),
{
    let size = symbol_box(reel, width, height, count);
    let many = window_of(reel) as int;
    lemma_from_int_at(count as int);
    lemma_from_int_at(many);
    lemma_from_int_at(i);
    lemma_quotient_at(width, from_int(count as int), w, count as int, 1064, 1074);
    lemma_quotient_at(height, from_int(many), h, many, 1064, 1074);
    assert(-0x1000_0000 < w * a < 0x1000_0000 && -0x1000_0000 < h * a < 0x1000_0000)
        by (nonlinear_arith)
        requires
            -0x4000 < w < 0x4000,
            -0x4000 < h < 0x4000,
            -0x4000 < a < 0x4000,
    ;
    let wide = product_of(size[0], spot.scale);
    let tall = product_of(size[1], spot.scale);
    lemma_product_at(size[0], spot.scale, w, a, 1064, 1064);
    lemma_product_at(size[1], spot.scale, h, a, 1064, 1064);
    let (p, q) = (w * a, h * a);
    assert(-0x100_0000_0000 < i * p < 0x100_0000_0000 && -0x100_0000_0000 < q * many
        < 0x100_0000_0000) by (nonlinear_arith)
        requires
            -0x1000_0000 < p < 0x1000_0000,
            -0x1000_0000 < q < 0x1000_0000,
            0 <= i < 64,
            0 <= many <= 16,
    ;
    lemma_product_at(from_int(i), wide, i, p, 1074, 1054);
    lemma_product_at(tall, from_int(many), q, many, 1054, 1074);
    lemma_sum_at(spot.origin[0], product_of(from_int(i), wide), e, i * p, 1054);
    let x = sum_of(spot.origin[0], product_of(from_int(i), wide));
    x
}

/// The digits of a segment row share its width and stand side by side, each as high as the row.
pub proof fn lemma_digit_cell(
    spot: Spot,
    width: Num,
    height: Num,
    digits: u32,
    i: int,
    w: int,
    h: int,
    a: int,
    e: int,
)
    requires
        0 < digits < 64,
        0 <= i < digits,
        is_at(product_of(width, spot.scale), w * digits, 1054) && -0x1000_0000 < w < 0x1000_0000,
        at_fine(height, h) && at_fine(spot.scale, a),
        is_at(spot.origin[0], e, 1054) && -0x1_0000_0000 < e < 0x1_0000_0000,
    ensures
        ({
            let cell = digit_cell(spot, width, height, digits, i);
            &&& is_at(cell[0], e + i * w, 1054)
            &&& cell[1] == spot.origin[1]
            &&& is_at(cell[2], w, 1054)
            &&& is_at(cell[3], h * a, 1054)
        }),
{
    lemma_from_int_at(digits as int);
    lemma_from_int_at(i);
    let all = product_of(width, spot.scale);
    lemma_quotient_at(all, from_int(digits as int), w, digits as int, 1054, 1074);
    let one = quotient_of(all, from_int(digits as int));
    assert(-0x100_0000_0000 < i * w < 0x100_0000_0000) by (nonlinear_arith)
        requires
            -0x1000_0000 < w < 0x1000_0000,
            0 <= i < 64,
    ;
    assert(-0x1000_0000 < h * a < 0x1000_0000) by (nonlinear_arith)
        requires
            -0x4000 < h < 0x4000,
            -0x4000 < a < 0x4000,
    ;
    lemma_product_at(from_int(i), one, i, w, 1074, 1054);
    lemma_product_at(height, spot.scale, h, a, 1064, 1064);
    lemma_sum_at(spot.origin[0], product_of(from_int(i), one), e, i * w, 1054);
}

/// The measures of a face in use, each a whole part of 1024.
pub open spec fn even_face(face: OutlineFace, ascent: int, descent: int, leading: int) -> bool {
    at_fine(face.ascent, ascent) && at_fine(face.descent, descent) && at_fine(face.leading, leading)
}

/// A glyph stands behind the one before it by what that one takes up, on the same baseline.
pub proof fn lemma_glyphs_in_line(
    face: OutlineFace,
    line: Seq<u32>,
    x: Num,
    y: Num,
    n: nat,
    i: int,
    p: int,
    a: int,
    e: int,
)
    requires
        0 <= i < n <= line.len(),
        is_at(face.pen(line, i as nat), p, 1064) && -0x1000_0000 < p < 0x1000_0000,
        at_fine(face.glyph_of(line[i]).advance, a),
        is_at(x, e, 1064) && -0x1000_0000 < e < 0x1000_0000,
    ensures
        ({
            let all = face.line_glyphs(line, x, y, n);
            &&& all.len() == n
            &&& all[i].id == line[i]
            &&& all[i].y == y
            &&& is_at(all[i].x, e + p, 1064)
            &&& is_at(face.pen(line, (i + 1) as nat), p + a, 1064)
            &&& i + 1 < n ==> is_at(all[i + 1].x, e + p + a, 1064)
            &&& is_whole(face.pen(line, 0), 0)
        }),
    decreases n,
{
    lemma_small_whole();
    let after = face.pen(line, (i + 1) as nat);
    lemma_sum_at(face.pen(line, i as nat), face.glyph_of(line[i]).advance, p, a, 1064);
    lemma_sum_at(x, face.pen(line, i as nat), e, p, 1064);
    lemma_sum_at(x, after, e, p + a, 1064);
    lemma_line_glyphs(face, line, x, y, n);
}

proof fn lemma_line_glyphs(face: OutlineFace, line: Seq<u32>, x: Num, y: Num, n: nat)
    requires
        n <= line.len(),
    ensures
        face.line_glyphs(line, x, y, n).len() == n,
        forall|i: int|
            0 <= i < n ==> #[trigger] face.line_glyphs(line, x, y, n)[i] == (PlacedGlyph {
                id: line[i],
                x: sum_of(x, face.pen(line, i as nat)),
                y,
            }),
    decreases n,
{
    if n > 0 {
        lemma_line_glyphs(face, line, x, y, (n - 1) as nat);
    }
}

/// The baselines of a text lie a line height apart, which is what the face reaches up and down
/// and leaves between; the first lies its ascent below the top of the block. One line stands
/// where the alignment puts the whole block; of several, each is aligned by itself.
#[verifier::rlimit(40)]
pub proof fn lemma_lines_placed(
    face: OutlineFace,
    lines: Seq<Seq<u32>>,
    size: [Num; 2],
    align: Align,
    i: int,
    up: int,
    down: int,
    gap: int,
    w: int,
    h: int,
    x: int,
    y: int,
)
    requires
        0 <= i < lines.len() < 16,
        even_face(face, up, down, gap),
        at_fine(
            if lines.len() > 1 && !align.left() {
                face.pen(lines[i], lines[i].len())
            } else {
                face.block(lines, false).0
            },
            w,
        ),
        h == (up - down + gap) * lines.len(),
        -0x4000 < h < 0x4000,
        at_fine(size[0], w + 2 * x) && at_fine(size[1], h + 2 * y),
    ensures
        ({
            let (left, base) = face.line_start(lines, false, Some(size), align, i);
            &&& is_at(left, anchor_of(align).0 * x, 1064)
            &&& is_at(base, anchor_of(align).1 * y + i * (up - down + gap) + up, 1064)
        }),
{
    let high = up - down + gap;
    lemma_difference_at(face.ascent, face.descent, up, down, 1064);
    lemma_sum_at(
        sum_of(face.ascent, opposite_of(face.descent)),
        face.leading,
        up - down,
        gap,
        1064,
    );
    let n = lines.len() as int;
    lemma_from_int_at(n);
    lemma_from_int_at(i);
    assert(-0x10_0000 < i * high < 0x10_0000) by (nonlinear_arith)
        requires
            0 <= i < 16,
            -0xC000 < high < 0xC000,
    ;
    assert(high * n == h && high * i == i * high) by (nonlinear_arith)
        requires
            h == high * n,
    ;
    lemma_product_at(face.line_height(), from_int(n), high, n, 1064, 1074);
    lemma_product_at(face.line_height(), from_int(i), high, i, 1064, 1074);
    let wide = if lines.len() > 1 && !align.left() {
        face.pen(lines[i], lines[i].len())
    } else {
        face.block(lines, false).0
    };
    let tall = face.block(lines, false).1;
    lemma_aligned(align, wide, tall, size[0], size[1], w, h, x, y);
    let top = Align::start(align.top(), align.bottom(), tall, size[1]);
    let at = anchor_of(align).1 * y;
    assert(-0x1_0000 < at < 0x1_0000) by (nonlinear_arith)
        requires
            at == anchor_of(align).1 * y,
            0 <= anchor_of(align).1 <= 2,
            -0x4000 < y < 0x4000,
    ;
    lemma_sum_at(top, product_of(face.line_height(), from_int(i)), at, i * high, 1064);
    lemma_sum_at(
        sum_of(top, product_of(face.line_height(), from_int(i))),
        face.ascent,
        at + i * high,
        up,
        1064,
    );
}

/// The glyphs of a run keep their order on the canvas, each moved and scaled along each axis by
/// what belongs to it.
pub proof fn lemma_glyph_moved(
    glyphs: Seq<PlacedGlyph>,
    spot: Spot,
    dx: Num,
    dy: Num,
    k: int,
    i: int,
    j: int,
    a: int,
    e: int,
    f: int,
    p: int,
    q: int,
)
    requires
        0 <= k < glyphs.len(),
        at_fine(glyphs[k].x, i) && at_fine(glyphs[k].y, j) && at_fine(spot.scale, a),
        is_at(spot.origin[0], e, 1054) && -0x1_0000_0000 < e < 0x1_0000_0000,
        is_at(spot.origin[1], f, 1054) && -0x1_0000_0000 < f < 0x1_0000_0000,
        is_at(dx, p, 1054) && -0x1_0000_0000 < p < 0x1_0000_0000,
        is_at(dy, q, 1054) && -0x1_0000_0000 < q < 0x1_0000_0000,
    ensures
        ({
            let all = moved_glyphs(glyphs, spot, dx, dy);
            &&& all.len() == glyphs.len()
            &&& all[k].id == glyphs[k].id
            &&& is_at(all[k].x, e + i * a + p, 1054)
            &&& is_at(all[k].y, f + j * a + q, 1054)
        }),
{
    lemma_moved(glyphs[k].x, spot.scale, spot.origin[0], dx, i, a, e, p);
    lemma_moved(glyphs[k].y, spot.scale, spot.origin[1], dy, j, a, f, q);
}

proof fn lemma_moved(x: Num, scale: Num, origin: Num, d: Num, i: int, a: int, e: int, p: int)
    requires
        at_fine(x, i) && at_fine(scale, a),
        is_at(origin, e, 1054) && -0x1_0000_0000 < e < 0x1_0000_0000,
        is_at(d, p, 1054) && -0x1_0000_0000 < p < 0x1_0000_0000,
    ensures
        is_at(sum_of(sum_of(origin, product_of(x, scale)), d), e + i * a + p, 1054),
        is_at(product_of(x, scale), i * a, 1054),
{
    assert(-0x1000_0000 < i * a < 0x1000_0000) by (nonlinear_arith)
        requires
            -0x4000 < i < 0x4000,
            -0x4000 < a < 0x4000,
    ;
    lemma_product_at(x, scale, i, a, 1064, 1064);
    lemma_sum_at(origin, product_of(x, scale), e, i * a, 1054);
    lemma_sum_at(sum_of(origin, product_of(x, scale)), d, e + i * a, p, 1054);
}

/// A rasterized text lies where its place takes its corner, as large as its pixels are scaled.
#[verifier::rlimit(40)]
pub proof fn lemma_raster_placed(
    spot: Spot,
    label: Lettered,
    raster: Raster,
    dx: Num,
    dy: Num,
    alpha: Num,
    a: int,
    e: int,
    f: int,
    p: int,
    q: int,
)
    requires
        -16 < raster.left < 16 && -16 < raster.top < 16,
        raster.width < 16 && raster.height < 16,
        at_fine(spot.scale, a),
        is_at(spot.origin[0], e, 1054) && -0x1_0000_0000 < e < 0x1_0000_0000,
        is_at(spot.origin[1], f, 1054) && -0x1_0000_0000 < f < 0x1_0000_0000,
        is_at(dx, p, 1054) && -0x1_0000_0000 < p < 0x1_0000_0000,
        is_at(dy, q, 1054) && -0x1_0000_0000 < q < 0x1_0000_0000,
    ensures
        raster_item(spot, label, raster, dx, dy, alpha).shape matches Drawn::Bitmap {
            x,
            y,
            width,
            height,
            content,
            ..
        } && {
            &&& is_at(x, e + (1024 * raster.left) * a + p, 1054)
            &&& is_at(y, f + (1024 * raster.top) * a + q, 1054)
            &&& is_at(width, (1024 * raster.width) * a, 1054)
            &&& is_at(height, (1024 * raster.height) * a, 1054)
            &&& content.columns == raster.width && content.rows == raster.height
            &&& content.pixels == raster.pixels
        },
{
    lemma_fine_whole(raster.left);
    lemma_fine_whole(raster.top);
    lemma_fine_whole(raster.width as int);
    lemma_fine_whole(raster.height as int);
    let (s, x, y) = (spot.scale, spot.origin[0], spot.origin[1]);
    lemma_moved(from_int(raster.left), s, x, dx, 1024 * raster.left, a, e, p);
    lemma_moved(from_int(raster.top), s, y, dy, 1024 * raster.top, a, f, q);
    lemma_moved(from_int(raster.width as int), s, x, dx, 1024 * raster.width, a, e, p);
    lemma_moved(from_int(raster.height as int), s, y, dy, 1024 * raster.height, a, f, q);
}

pub(crate) proof fn lemma_fine_whole(n: int)
    requires
        -16 < n < 16,
    ensures
        at_fine(from_int(n), 1024 * n),
{
    lemma_from_int_at(n);
    lemma2_to64();
    lemma_finer(from_int(n), n, 1074, 1064);
    assert(n * pow2(10) == 1024 * n) by (nonlinear_arith)
        requires
            pow2(10) == 1024,
    ;
}

/// A text in a row of cells is read from the near end: from the left its first character stands in
/// the first cell, from the right its last in the last, and so on inwards. Cells past its other
/// end are empty.
pub proof fn lemma_justified(text: Seq<char>, count: nat, justify: Justify, i: int)
    requires
        0 <= i < count,
    ensures
        ({
            let cells = celled(text, count, justify);
            &&& cells.len() == count
            &&& justify != Justify::Right ==> cells[i] == (if i < text.len() {
                Some(text[i])
            } else {
                None
            })
            &&& justify == Justify::Right ==> cells[count - 1 - i] == (if i < text.len() {
                Some(text[text.len() - 1 - i])
            } else {
                None
            })
        }),
{
}

/// The same of the lit segments of a row of digits; digits that have none are dark.
pub proof fn lemma_digits_justified(masks: Seq<u16>, digits: nat, justify: Justify, i: int)
    requires
        0 <= i < digits,
    ensures
        ({
            let row = crate::segments::fitted(masks, digits, justify);
            &&& row.len() == digits
            &&& justify != Justify::Right ==> row[i] == (if i < masks.len() {
                masks[i]
            } else {
                0
            })
            &&& justify == Justify::Right ==> row[digits - 1 - i] == (if i < masks.len() {
                masks[masks.len() - 1 - i]
            } else {
                0
            })
        }),
{
}

} // verus!
