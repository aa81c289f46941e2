//! Where the segments of a digit lie, how they lean, and how far they glow.

use crate::exact::{
    is_at, is_whole, lemma_compare_at, lemma_difference_at, lemma_finer, lemma_from_int_at,
    lemma_opposite_at, lemma_product_at, lemma_quotient_at, lemma_small_whole, lemma_sum_at,
};
use crate::model::{Glow, SegmentStyle};
use crate::num::{
    equal, from_int, lemma_size_zero, max_of, num, one_unit, opposite_of, product_of, quotient_of,
    sum_of, Num, HIDDEN,
};
use crate::order::lemma_rounded_within;
use crate::placing::at_fine;
use crate::segments::{bar_of, dot_of, frame_of, leaned, lines, Frame, Line, Look, EPSILON, POINTED};
use crate::walk::{glow_reach, GLOW_STEPS};
use crate::waves::{double_root, is_root, lemma_root_exists, lemma_root_unique, root, sqrt_of, TWO};
use vstd::arithmetic::power2::{
    lemma2_to64, lemma2_to64_rest, lemma_pow2_adds, lemma_pow2_pos, pow2,
};
use vstd::prelude::*;

verus! {

/// A number in parts of 2048.
#[verifier::opaque]
pub open spec fn at_half(x: Num, k: int) -> bool {
    is_at(x, k, 1063)
}

/// Half of a number, on a grid twice as fine.
proof fn lemma_half(x: Num, a: int, t: nat)
    requires
        is_at(x, a, t),
        1 <= t <= 2000,
        -HIDDEN < a < HIDDEN,
    ensures
        is_at(x, 2 * a, (t - 1) as nat),
        is_at(quotient_of(x, num(TWO)), a, (t - 1) as nat),
{
    lemma_small_whole();
    lemma2_to64();
    let s = (t - 1) as nat;
    lemma_finer(x, a, t, s);
    assert(a * pow2(1) == a * 2);
    lemma_quotient_at(x, num(TWO), a, 2, s, 1074);
}

/// The centerlines of a cell lie the padding inside its edges, on both sides alike, and half way
/// between them.
#[verifier::rlimit(40)]
pub proof fn lemma_frame(cell: [Num; 4], look: Look, x: int, y: int, w: int, h: int, pad: int)
    requires
        at_fine(cell[0], x) && at_fine(cell[1], y) && at_fine(cell[2], w) && at_fine(cell[3], h),
        at_fine(frame_of(cell, false, look).pad, pad),
    ensures
        ({
            let f = frame_of(cell, false, look);
            &&& is_at(f.x0, x + pad, 1064) && is_at(f.x1, x + w - pad, 1064)
            &&& is_at(f.y0, y + pad, 1064) && is_at(f.y1, y + h - pad, 1064)
            &&& is_at(f.xm, 2 * x + w, 1063) && is_at(f.ym, 2 * y + h, 1063)
        }),
{
    let f = frame_of(cell, false, look);
    lemma_sum_at(cell[0], f.pad, x, pad, 1064);
    lemma_sum_at(cell[1], f.pad, y, pad, 1064);
    lemma_sum_at(cell[0], cell[2], x, w, 1064);
    lemma_sum_at(cell[1], cell[3], y, h, 1064);
    lemma_difference_at(sum_of(cell[0], cell[2]), f.pad, x + w, pad, 1064);
    lemma_difference_at(sum_of(cell[1], cell[3]), f.pad, y + h, pad, 1064);
    lemma_half(cell[0], x, 1064);
    lemma_half(cell[1], y, 1064);
    lemma_half(cell[2], w, 1064);
    lemma_half(cell[3], h, 1064);
    lemma_sum_at(cell[0], quotient_of(cell[2], num(TWO)), 2 * x, w, 1063);
    lemma_sum_at(cell[1], quotient_of(cell[3], num(TWO)), 2 * y, h, 1063);
}

/// The six outer segments go round the cell: top, down the right in two, bottom, and the left in
/// two, each beginning or ending where the one before it does. What is inside goes through the
/// middle, or across it.
#[verifier::rlimit(40)]
pub proof fn lemma_segments_join(style: SegmentStyle, f: Frame)
    ensures
        ({
            let l = lines(style, f);
            let middle = [f.xm, f.ym];
            &&& l.len() == (if style == SegmentStyle::Alpha14 {
                14int
            } else {
                7
            })
            &&& l[0].to == l[1].from && l[1].to == l[2].from && l[2].to == l[3].to
            &&& l[3].from == l[4].to && l[4].from == l[5].to && l[5].from == l[0].from
            &&& l[0].from == [f.x0, f.y0] && l[2].to == [f.x1, f.y1]
            &&& l[1].to[1] == f.ym && l[5].to[1] == f.ym
            &&& l[6].from == l[4].from
            &&& style == SegmentStyle::Numeric7 ==> l[6].to == l[2].from
            &&& style == SegmentStyle::Alpha14 ==> {
                &&& l[6].to == middle && l[10].from == middle && l[10].to == l[2].from
                &&& l[7].to == middle && l[7].from == l[0].from
                &&& l[9].to == middle && l[9].from == l[0].to
                &&& l[11].from == middle && l[11].to == l[3].to
                &&& l[13].from == middle && l[13].to == l[3].from
                &&& l[8].to == middle && l[8].from == [f.xm, f.y0]
                &&& l[12].from == middle && l[12].to == [f.xm, f.y1]
            }
        }),
{
}

/// The root of a square is what was squared.
proof fn lemma_root_of_square(x: Num, a: int)
    requires
        is_at(x, a * a, 1054),
        0 < a < 0x10_0000,
    ensures
        is_at(sqrt_of(x), a, 1064),
{
    reveal(sqrt_of);
    lemma_pow2_pos(1054);
    lemma_pow2_pos(1064);
    lemma_pow2_pos(1074);
    lemma_pow2_adds(1054, 1074);
    lemma_pow2_adds(1064, 1064);
    let (v, p, u) = (pow2(1054) as int, pow2(1064) as int, one_unit() as int);
    assert((a * a) * v > 0) by (nonlinear_arith)
        requires
            a > 0,
            v > 0,
    ;
    lemma_size_zero(x);
    let n = x.size() * one_unit();
    let r = (a * p) as nat;
    assert(a * p > 0) by (nonlinear_arith)
        requires
            a > 0,
            p > 0,
    ;
    assert(r * r == n && is_root(r, n)) by (nonlinear_arith)
        requires
            n == ((a * a) * v) * u,
            r == a * p,
            p * p == v * u,
            r > 0,
    ;
    lemma_root_exists(n);
    lemma_root_unique(root(n), r, n);
    assert(double_root(n) == 2 * r);
    lemma_rounded_within(2 * r, 2, a as nat, a as nat, 1064);
}

proof fn lemma_long_enough(d: Num, a: int)
    requires
        is_at(d, a, 1064),
        a > 0,
    ensures
        max_of(d, num(EPSILON)) == d,
{
    let e = num(EPSILON);
    lemma2_to64();
    lemma2_to64_rest();
    lemma_pow2_pos(1022);
    lemma_pow2_adds(52, 970);
    lemma_pow2_adds(42, 1022);
    assert(e.step() == 970 && e.mantissa() == HIDDEN);
    let p = pow2(1064) as int;
    assert(a * p >= p) by (nonlinear_arith)
        requires
            a >= 1,
            p > 0,
    ;
    crate::exact::lemma_compare(d, e);
}

/// A line along one axis has that direction, of length one.
#[verifier::rlimit(40)]
proof fn lemma_direction(dx: Num, dy: Num, a: int)
    requires
        is_at(dx, a, 1064) && 0 < a < 0x10_0000,
        is_at(dy, 0, 1064),
    ensures
        ({
            let squares = sum_of(product_of(dx, dx), product_of(dy, dy));
            let other = sum_of(product_of(dy, dy), product_of(dx, dx));
            let one = max_of(sqrt_of(squares), num(EPSILON));
            let two = max_of(sqrt_of(other), num(EPSILON));
            &&& is_whole(quotient_of(dx, one), 1) && is_whole(quotient_of(dx, two), 1)
            &&& is_whole(quotient_of(dy, one), 0) && is_whole(quotient_of(dy, two), 0)
        }),
{
    assert(0 < a * a < 0x100_0000_0000) by (nonlinear_arith)
        requires
            0 < a < 0x10_0000,
    ;
    lemma_product_at(dx, dx, a, a, 1064, 1064);
    lemma_product_at(dy, dy, 0, 0, 1064, 1064);
    lemma_sum_at(product_of(dx, dx), product_of(dy, dy), a * a, 0, 1054);
    lemma_sum_at(product_of(dy, dy), product_of(dx, dx), 0, a * a, 1054);
    let squares = sum_of(product_of(dx, dx), product_of(dy, dy));
    let other = sum_of(product_of(dy, dy), product_of(dx, dx));
    lemma_root_of_square(squares, a);
    lemma_root_of_square(other, a);
    lemma_long_enough(sqrt_of(squares), a);
    lemma_long_enough(sqrt_of(other), a);
    assert(1 * a == a && 0 * a == 0);
    lemma_quotient_at(dx, sqrt_of(squares), 1, a, 1064, 1064);
    lemma_quotient_at(dx, sqrt_of(other), 1, a, 1064, 1064);
    lemma_quotient_at(dy, sqrt_of(squares), 0, a, 1064, 1064);
    lemma_quotient_at(dy, sqrt_of(other), 0, a, 1064, 1064);
}

/// Where the corners of a bar are along one axis: one end of it, the other, how far its points
/// reach beyond them, and how far its sides are off to the one side and the other.
pub open spec fn ends_at(b: Seq<[Num; 2]>, k: int, near: int, far: int, tip: int, side: int) -> bool {
    &&& at_half(b[0][k], near - tip) && at_half(b[3][k], far + tip)
    &&& at_half(b[1][k], near + side) && at_half(b[5][k], near - side)
    &&& at_half(b[2][k], far + side) && at_half(b[4][k], far - side)
}

/// A level bar lies along its centerline, half its thickness above and below it, a gap short of
/// both its ends. On the pixel grid it ends flat, the gap half its thickness; else it ends in
/// points that reach half its thickness further.
pub proof fn lemma_level_bar(
    line: Line,
    thickness: Num,
    snap: bool,
    c: int,
    from: int,
    a: int,
    th: int,
    gap: int,
)
    requires
        0 < a < 0x4000,
        at_fine(thickness, th),
        at_fine(line.from[0], from) && at_fine(line.to[0], from + a),
        at_fine(line.from[1], c) && at_fine(line.to[1], c),
        snap ==> gap == th,
        !snap ==> is_at(product_of(thickness, num(POINTED)), gap, 1063),
        -0x1_0000 < gap < 0x1_0000,
    ensures
        bar_of(line, thickness, snap).len() == 6,
        ends_at(bar_of(line, thickness, snap), 0, 2 * from + gap, 2 * (from + a) - gap, if snap {
            0
        } else {
            th
        }, 0),
        ends_at(bar_of(line, thickness, snap), 1, 2 * c, 2 * c, 0, th),
{
    lemma_bar_way(line, thickness, true, c, from, a, th);
    lemma_bar_corners(line, thickness, snap);
    let u = way_of(line);
    let n = side_of(u, thickness);
    let (short, point) = ends(thickness, snap);
    let tip = if snap {
        0
    } else {
        th
    };
    assert(at_half(short, gap) && at_half(point, tip)) by {
        reveal(at_half);
        lemma_half(thickness, th, 1064);
        lemma_small_whole();
    }
    lemma_axis(line, u, n, short, point, 0, 1, from, from + a, gap, tip, 0);
    lemma_axis(line, u, n, short, point, 1, 0, c, c, gap, tip, th);
}

/// The same of an upright bar, which lies half its thickness to the left and right of its
/// centerline.
pub proof fn lemma_upright_bar(
    line: Line,
    thickness: Num,
    snap: bool,
    c: int,
    from: int,
    a: int,
    th: int,
    gap: int,
)
    requires
        0 < a < 0x4000,
        at_fine(thickness, th),
        at_fine(line.from[1], from) && at_fine(line.to[1], from + a),
        at_fine(line.from[0], c) && at_fine(line.to[0], c),
        snap ==> gap == th,
        !snap ==> is_at(product_of(thickness, num(POINTED)), gap, 1063),
        -0x1_0000 < gap < 0x1_0000,
    ensures
        bar_of(line, thickness, snap).len() == 6,
        ends_at(bar_of(line, thickness, snap), 1, 2 * from + gap, 2 * (from + a) - gap, if snap {
            0
        } else {
            th
        }, 0),
        ends_at(bar_of(line, thickness, snap), 0, 2 * c, 2 * c, 0, -th),
{
    lemma_bar_way(line, thickness, false, c, from, a, th);
    lemma_bar_corners(line, thickness, snap);
    let u = way_of(line);
    let n = side_of(u, thickness);
    let (short, point) = ends(thickness, snap);
    let tip = if snap {
        0
    } else {
        th
    };
    assert(at_half(short, gap) && at_half(point, tip)) by {
        reveal(at_half);
        lemma_half(thickness, th, 1064);
        lemma_small_whole();
    }
    lemma_axis(line, u, n, short, point, 1, 1, from, from + a, gap, tip, 0);
    lemma_axis(line, u, n, short, point, 0, 0, c, c, gap, tip, -th);
}

/// How far a bar stops short of the ends of its line, and how far its points reach again.
spec fn ends(thickness: Num, snap: bool) -> (Num, Num) {
    let half = quotient_of(thickness, num(TWO));
    if snap {
        (half, num(0))
    } else {
        (product_of(thickness, num(POINTED)), half)
    }
}

/// The corners of a bar, by its direction and what lies to its side.
spec fn corners_of(line: Line, u: [Num; 2], n: [Num; 2], gap: Num, tip: Num) -> Seq<[Num; 2]> {
    let ax = sum_of(line.from[0], product_of(u[0], gap));
    let ay = sum_of(line.from[1], product_of(u[1], gap));
    let bx = sum_of(line.to[0], opposite_of(product_of(u[0], gap)));
    let by = sum_of(line.to[1], opposite_of(product_of(u[1], gap)));
    seq![
        [
            sum_of(ax, opposite_of(product_of(u[0], tip))),
            sum_of(ay, opposite_of(product_of(u[1], tip))),
        ],
        [sum_of(ax, n[0]), sum_of(ay, n[1])],
        [sum_of(bx, n[0]), sum_of(by, n[1])],
        [sum_of(bx, product_of(u[0], tip)), sum_of(by, product_of(u[1], tip))],
        [sum_of(bx, opposite_of(n[0])), sum_of(by, opposite_of(n[1]))],
        [sum_of(ax, opposite_of(n[0])), sum_of(ay, opposite_of(n[1]))],
    ]
}

spec fn way_of(line: Line) -> [Num; 2] {
    let dx = sum_of(line.to[0], opposite_of(line.from[0]));
    let dy = sum_of(line.to[1], opposite_of(line.from[1]));
    let len = max_of(sqrt_of(sum_of(product_of(dx, dx), product_of(dy, dy))), num(EPSILON));
    [quotient_of(dx, len), quotient_of(dy, len)]
}

spec fn side_of(u: [Num; 2], thickness: Num) -> [Num; 2] {
    [
        quotient_of(product_of(opposite_of(u[1]), thickness), num(TWO)),
        quotient_of(product_of(u[0], thickness), num(TWO)),
    ]
}

proof fn lemma_bar_corners(line: Line, thickness: Num, snap: bool)
    requires
        equal(sum_of(line.to[0], opposite_of(line.from[0])), num(0)) || equal(
            sum_of(line.to[1], opposite_of(line.from[1])),
            num(0),
        ),
    ensures
        ({
            let u = way_of(line);
            let (gap, tip) = ends(thickness, snap);
            bar_of(line, thickness, snap) == corners_of(line, u, side_of(u, thickness), gap, tip)
        }),
{
    reveal(bar_of);
    let u = way_of(line);
    let (gap, tip) = ends(thickness, snap);
    assert(bar_of(line, thickness, snap) =~= corners_of(
        line,
        u,
        side_of(u, thickness),
        gap,
        tip,
    ));
}

/// The direction of a level or an upright line, and half a thickness to its side.
#[verifier::rlimit(40)]
proof fn lemma_bar_way(line: Line, thickness: Num, level: bool, c: int, from: int, a: int, th: int)
    requires
        0 < a < 0x4000,
        at_fine(thickness, th),
        runs_along(line, level, c, from, a),
    ensures
        ({
            let u = way_of(line);
            let n = side_of(u, thickness);
            let (i, j): (int, int) = if level {
                (1, 0)
            } else {
                (0, 1)
            };
            &&& is_whole(u[0], i) && is_whole(u[1], j)
            &&& at_half(n[0], if level {
                0
            } else {
                -th
            })
            &&& at_half(n[1], if level {
                th
            } else {
                0
            })
            &&& equal(sum_of(line.to[j], opposite_of(line.from[j])), num(0)) || equal(
                sum_of(line.to[i], opposite_of(line.from[i])),
                num(0),
            )
        }),
{
    reveal(at_half);
    lemma_small_whole();
    let (p, q) = (line.from, line.to);
    let (k, m): (int, int) = if level {
        (0, 1)
    } else {
        (1, 0)
    };
    let along = sum_of(q[k], opposite_of(p[k]));
    let across = sum_of(q[m], opposite_of(p[m]));
    assert(is_at(num(0), 0, 1064));
    lemma_difference_at(q[k], p[k], from + a, from, 1064);
    lemma_difference_at(q[m], p[m], c, c, 1064);
    lemma_compare_at(across, num(0), 0, 0, 1064);
    lemma_direction(along, across, a);
    let u = way_of(line);
    if level {
        lemma_sides(u[0], u[1], thickness, 1, 0, th);
    } else {
        lemma_sides(u[0], u[1], thickness, 0, 1, th);
    }
}

/// A line along one axis.
spec fn runs_along(line: Line, level: bool, c: int, from: int, a: int) -> bool {
    let (k, m): (int, int) = if level {
        (0, 1)
    } else {
        (1, 0)
    };
    &&& at_fine(line.from[k], from) && at_fine(line.to[k], from + a)
    &&& at_fine(line.from[m], c) && at_fine(line.to[m], c)
}

/// The corners of a bar along one of the axes: the one at place `k`.
#[verifier::rlimit(40)]
proof fn lemma_axis(
    line: Line,
    u: [Num; 2],
    n: [Num; 2],
    gap: Num,
    tip: Num,
    k: int,
    i: int,
    f: int,
    t: int,
    g: int,
    e: int,
    s: int,
)
    requires
        k == 0 || k == 1,
        at_fine(line.from[k], f) && at_fine(line.to[k], t),
        is_whole(u[k], i) && (i == 0 || i == 1),
        at_half(gap, g) && -0x1_0000 < g < 0x1_0000,
        at_half(tip, e) && -0x1_0000 < e < 0x1_0000,
        at_half(n[k], s) && -0x1_0000 < s < 0x1_0000,
    ensures
        i == 1 ==> ends_at(
            corners_of(line, u, n, gap, tip),
            k,
            2 * f + g,
            2 * t - g,
            e,
            s,
        ),
        i == 0 ==> ends_at(corners_of(line, u, n, gap, tip), k, 2 * f, 2 * t, 0, s),
{
    lemma_doubled(line.from[k], f);
    lemma_doubled(line.to[k], t);
    lemma_corners(line.from[k], u[k], gap, tip, n[k], 2 * f, i, g, e, s);
    lemma_corners(line.to[k], u[k], gap, tip, n[k], 2 * t, i, g, e, s);
}

proof fn lemma_doubled(x: Num, a: int)
    requires
        at_fine(x, a),
    ensures
        at_half(x, 2 * a),
{
    reveal(at_half);
    lemma_half(x, a, 1064);
}

/// Half a thickness to the side of a line.
proof fn lemma_sides(ux: Num, uy: Num, thickness: Num, i: int, j: int, th: int)
    requires
        is_whole(ux, i) && is_whole(uy, j),
        (i, j) == (1int, 0int) || (i, j) == (0int, 1int),
        at_fine(thickness, th),
    ensures
        is_at(
            quotient_of(product_of(opposite_of(uy), thickness), num(TWO)),
            if j == 1 {
                -th
            } else {
                0
            },
            1063,
        ),
        is_at(
            quotient_of(product_of(ux, thickness), num(TWO)),
            if i == 1 {
                th
            } else {
                0
            },
            1063,
        ),
{
    lemma_opposite_at(uy, j, 1074);
    let (a, b) = ((-j) * th, i * th);
    assert(a == (if j == 1 {
        -th
    } else {
        0
    }) && b == (if i == 1 {
        th
    } else {
        0
    })) by (nonlinear_arith)
        requires
            a == (-j) * th,
            b == i * th,
            (i == 1 && j == 0) || (i == 0 && j == 1),
    ;
    lemma_product_at(opposite_of(uy), thickness, -j, th, 1074, 1064);
    lemma_product_at(ux, thickness, i, th, 1074, 1064);
    lemma_half(product_of(opposite_of(uy), thickness), a, 1064);
    lemma_half(product_of(ux, thickness), b, 1064);
}

/// The corners at either end of a bar, along one axis.
proof fn lemma_corners(
    p: Num,
    u: Num,
    gap: Num,
    tip: Num,
    n: Num,
    a: int,
    i: int,
    g: int,
    t: int,
    s: int,
)
    requires
        at_half(p, a) && -0x1_0000 < a < 0x1_0000,
        is_whole(u, i) && (i == 0 || i == 1),
        at_half(gap, g) && -0x1_0000 < g < 0x1_0000,
        at_half(tip, t) && -0x1_0000 < t < 0x1_0000,
        at_half(n, s) && -0x1_0000 < s < 0x1_0000,
    ensures
        ({
            let near = sum_of(p, product_of(u, gap));
            let far = sum_of(p, opposite_of(product_of(u, gap)));
            let (g, t) = if i == 1 {
                (g, t)
            } else {
                (0, 0)
            };
            &&& at_half(sum_of(near, opposite_of(product_of(u, tip))), a + g - t)
            &&& at_half(sum_of(near, n), a + g + s)
            &&& at_half(sum_of(near, opposite_of(n)), a + g - s)
            &&& at_half(sum_of(far, product_of(u, tip)), a - g + t)
            &&& at_half(sum_of(far, n), a - g + s)
            &&& at_half(sum_of(far, opposite_of(n)), a - g - s)
        }),
{
    reveal(at_half);
    let (h, v) = (i * g, i * t);
    assert(h == (if i == 1 {
        g
    } else {
        0
    }) && v == (if i == 1 {
        t
    } else {
        0
    })) by (nonlinear_arith)
        requires
            h == i * g,
            v == i * t,
            i == 0 || i == 1,
    ;
    lemma_product_at(u, gap, i, g, 1074, 1063);
    lemma_product_at(u, tip, i, t, 1074, 1063);
    let (ug, ut) = (product_of(u, gap), product_of(u, tip));
    let near = sum_of(p, ug);
    let far = sum_of(p, opposite_of(ug));
    lemma_sum_at(p, ug, a, h, 1063);
    lemma_difference_at(p, ug, a, h, 1063);
    lemma_difference_at(near, ut, a + h, v, 1063);
    lemma_sum_at(near, n, a + h, s, 1063);
    lemma_difference_at(near, n, a + h, s, 1063);
    lemma_sum_at(far, ut, a - h, v, 1063);
    lemma_sum_at(far, n, a - h, s, 1063);
    lemma_difference_at(far, n, a - h, s, 1063);
}

/// A leaning digit is sheared about its baseline: a point keeps its height, and moves to the right
/// by its height above the baseline times the lean.
pub proof fn lemma_lean(
    points: Seq<[Num; 2]>,
    square: bool,
    baseline: Num,
    lean: Num,
    k: int,
    x: int,
    y: int,
    b: int,
    l: int,
)
    requires
        0 <= k < points.len(),
        is_at(points[k][0], x, 1054) && -0x1_0000_0000 < x < 0x1_0000_0000,
        at_fine(points[k][1], y) && at_fine(baseline, b) && at_fine(lean, l),
    ensures
        ({
            let all = leaned(points, square, baseline, lean, false);
            &&& all.len() == points.len()
            &&& all[k][1] == points[k][1]
            &&& is_at(all[k][0], x + (b - y) * l, 1054)
        }),
{
    lemma_small_whole();
    let zero = num(0);
    assert(is_at(zero, 0, 1064));
    lemma_compare_at(lean, zero, l, 0, 1064);
    assert(l == 0 ==> (b - y) * l == 0) by (nonlinear_arith);
    let up = sum_of(points[k][1], opposite_of(baseline));
    lemma_difference_at(points[k][1], baseline, y, b, 1064);
    assert(-0x2000_0000 < (y - b) * l < 0x2000_0000 && (b - y) * l == -((y - b) * l))
        by (nonlinear_arith)
        requires
            -0x8000 < y - b < 0x8000,
            -0x4000 < l < 0x4000,
    ;
    lemma_product_at(up, lean, y - b, l, 1064, 1064);
    lemma_difference_at(points[k][0], product_of(up, lean), x, (y - b) * l, 1054);
}

/// The dot of a digit is a square as wide as a bar is thick, in the middle of the padding to the
/// right, level with the bottom bar.
#[verifier::rlimit(40)]
pub proof fn lemma_dot(cell: [Num; 4], f: Frame, x: int, w: int, pad: int, y: int, th: int)
    requires
        at_fine(cell[0], x) && at_fine(cell[2], w) && at_fine(f.pad, pad),
        at_fine(f.y1, y) && at_fine(f.thickness, th),
    ensures
        ({
            let d = dot_of(cell, f, false);
            let (cx, cy) = (2 * (x + w) - pad, 2 * y);
            &&& d.len() == 4
            &&& is_at(d[0][0], cx - th, 1063) && is_at(d[0][1], cy - th, 1063)
            &&& is_at(d[1][0], cx + th, 1063) && is_at(d[1][1], cy - th, 1063)
            &&& is_at(d[2][0], cx + th, 1063) && is_at(d[2][1], cy + th, 1063)
            &&& is_at(d[3][0], cx - th, 1063) && is_at(d[3][1], cy + th, 1063)
        }),
{
    let right = sum_of(cell[0], cell[2]);
    lemma_sum_at(cell[0], cell[2], x, w, 1064);
    lemma_half(right, x + w, 1064);
    lemma_half(f.pad, pad, 1064);
    lemma_half(f.y1, y, 1064);
    lemma_half(f.thickness, th, 1064);
    let (half, r) = (quotient_of(f.pad, num(TWO)), quotient_of(f.thickness, num(TWO)));
    let cx = sum_of(right, opposite_of(half));
    lemma_difference_at(right, half, 2 * (x + w), pad, 1063);
    let c = 2 * (x + w) - pad;
    lemma_sum_at(cx, r, c, th, 1063);
    lemma_difference_at(cx, r, c, th, 1063);
    lemma_sum_at(f.y1, r, 2 * y, th, 1063);
    lemma_difference_at(f.y1, r, 2 * y, th, 1063);
}

/// The rings of a halo are evenly spaced, the last one as far out to both sides as the glow
/// reaches.
pub proof fn lemma_glow_reach(glow: Glow, cell_width: Num, step: nat, g: int)
    requires
        step <= GLOW_STEPS,
        is_at(product_of(glow.size, cell_width), g, 1064) && 0 <= g < 0x1000_0000,
    ensures
        is_at(glow_reach(glow, cell_width, step), 2 * (g * step), 1061),
{
    lemma_small_whole();
    lemma2_to64();
    let zero = num(0);
    assert(is_at(zero, 0, 1064));
    let reach = product_of(glow.size, cell_width);
    lemma_compare_at(reach, zero, g, 0, 1064);
    let out = max_of(reach, zero);
    assert(is_at(out, g, 1064));
    lemma_from_int_at(step as int);
    lemma_from_int_at(GLOW_STEPS as int);
    lemma_finer(from_int(step as int), step as int, 1074, 1071);
    assert(step * pow2(3) == step * 8);
    lemma_quotient_at(from_int(step as int), from_int(8), step as int, 8, 1071, 1074);
    let part = quotient_of(from_int(step as int), from_int(8));
    assert(0 <= g * step <= 0x8000_0000) by (nonlinear_arith)
        requires
            0 <= g < 0x1000_0000,
            0 <= step <= 8,
    ;
    lemma_product_at(out, part, g, step as int, 1064, 1071);
    lemma_product_at(product_of(out, part), num(TWO), g * step, 2, 1061, 1074);
    assert((g * step) * 2 == 2 * (g * step));
}

} // verus!
