//! Where a layer lands: its content moved, scaled and anchored.

use crate::arith::{
    lemma_opposite, lemma_plus_zero, lemma_small_sizes, lemma_times_zero, lemma_zero,
};
use crate::bind::lemma_authored_stands;
use crate::exact::{
    is_at, is_whole, lemma_difference_at, lemma_finer, lemma_opposite_at, lemma_product_at,
    lemma_quotient_at, lemma_small_whole, lemma_sum_at,
};
use crate::model::{Align, Layer, LayerKind, Property};
use crate::num::{
    lemma_size_zero, num, opposite_of, product_of, quotient_of, round_of, sum_of, Num, HIDDEN,
};
use crate::shape::Transform;
use crate::state::State;
use crate::tree::Root;
use crate::walk::Inherited;
use crate::waves::{
    cosine_terms, near, polynomial, quarter_rest, quarters, radians, sin_cos_of, sine_terms,
    small_cosine, small_sine, DEGREE, HALF, ONE, QUARTERS, QUARTER_HIGH, QUARTER_LOW, TWO,
};
use vstd::arithmetic::power2::{lemma2_to64, lemma_pow2_adds, pow2};
use vstd::prelude::*;

verus! {

/// A map that turns nothing: it scales along each axis and moves, exactly.
pub open spec fn straight(t: Transform, a: int, d: int, e: int, f: int, g: nat, h: nat) -> bool {
    &&& is_at(t.0[0], a, g)
    &&& t.0[1].zero()
    &&& t.0[2].zero()
    &&& is_at(t.0[3], d, g)
    &&& is_at(t.0[4], e, h)
    &&& is_at(t.0[5], f, h)
}

proof fn lemma_nothing_at(x: Num, t: nat)
    requires
        x.zero(),
    ensures
        is_at(x, 0, t),
        x.finite(),
{
    lemma_size_zero(x);
    assert(0 * pow2(t) == 0);
}

/// A product with nothing, added to something, is that something.
proof fn lemma_plus_nothing(x: Num, y: Num, z: Num, k: int, t: nat)
    requires
        is_at(x, k, t),
        y.zero(),
        z.finite(),
        t <= 2000,
        -2 * HIDDEN < k < 2 * HIDDEN,
    ensures
        is_at(sum_of(x, product_of(y, z)), k, t),
        is_at(sum_of(x, product_of(z, y)), k, t),
        is_at(sum_of(product_of(y, z), x), k, t),
{
    lemma_times_zero(z, y);
    lemma_nothing_at(product_of(y, z), t);
    lemma_nothing_at(product_of(z, y), t);
    lemma_sum_at(x, product_of(y, z), k, 0, t);
    lemma_sum_at(x, product_of(z, y), k, 0, t);
    lemma_sum_at(product_of(y, z), x, 0, k, t);
}

/// One such map behind another, which it scales and moves.
proof fn lemma_behind_straight(
    m: Transform,
    n: Transform,
    a: int,
    d: int,
    e: int,
    f: int,
    g: nat,
    a2: int,
    d2: int,
    e2: int,
    f2: int,
    g2: nat,
    h2: nat,
)
    requires
        g <= 1500 && g2 <= 1500 && h2 <= 1500,
        1074 <= g + g2 && 1074 <= g + h2,
        straight(m, a, d, e, f, g, (g + h2 - 1074) as nat),
        straight(n, a2, d2, e2, f2, g2, h2),
        -HIDDEN < a * a2 < HIDDEN,
        -HIDDEN < d * d2 < HIDDEN,
        -HIDDEN < a * e2 < HIDDEN,
        -HIDDEN < d * f2 < HIDDEN,
        -HIDDEN < a * e2 + e < HIDDEN,
        -HIDDEN < d * f2 + f < HIDDEN,
    ensures
        straight(
            m.behind(n),
            a * a2,
            d * d2,
            a * e2 + e,
            d * f2 + f,
            (g + g2 - 1074) as nat,
            (g + h2 - 1074) as nat,
        ),
{
    let (p, q) = (m.0, n.0);
    let (w, v) = ((g + g2 - 1074) as nat, (g + h2 - 1074) as nat);
    lemma_nothing_at(p[1], g);
    lemma_nothing_at(p[2], g);
    lemma_nothing_at(q[1], g2);
    lemma_nothing_at(q[2], g2);
    lemma_product_at(p[0], q[0], a, a2, g, g2);
    lemma_product_at(p[3], q[3], d, d2, g, g2);
    lemma_product_at(p[0], q[4], a, e2, g, h2);
    lemma_product_at(p[3], q[5], d, f2, g, h2);
    lemma_plus_nothing(product_of(p[0], q[0]), p[2], q[1], a * a2, w);
    lemma_plus_nothing(product_of(p[3], q[3]), p[1], q[2], d * d2, w);
    lemma_plus_nothing(product_of(p[0], q[4]), p[2], q[5], a * e2, v);
    lemma_plus_nothing(product_of(p[3], q[5]), p[1], q[4], d * f2, v);
    let x = sum_of(product_of(p[0], q[4]), product_of(p[2], q[5]));
    let y = sum_of(product_of(p[1], q[4]), product_of(p[3], q[5]));
    lemma_sum_at(x, p[4], a * e2, e, v);
    lemma_sum_at(y, p[5], d * f2, f, v);
    // What would turn stays nothing.
    let r = m.behind(n).0;
    lemma_times_zero(q[0], p[1]);
    lemma_times_zero(p[3], q[1]);
    lemma_times_zero(p[0], q[2]);
    lemma_times_zero(q[3], p[2]);
    lemma_zero_sum(product_of(p[1], q[0]), product_of(p[3], q[1]));
    lemma_zero_sum(product_of(p[0], q[2]), product_of(p[2], q[3]));
    lemma_plus_nothing(product_of(p[3], q[3]), p[1], q[2], d * d2, w);
}

proof fn lemma_zero_sum(x: Num, y: Num)
    requires
        x.zero() && y.zero(),
    ensures
        sum_of(x, y).zero(),
{
    lemma_plus_zero(x, y);
    lemma_zero(x);
    assert(sum_of(x, y).zero()) by {
        reveal(crate::num::equal);
    }
}

/// A point under such a map: scaled along each axis, and moved.
proof fn lemma_image_straight(
    m: Transform,
    p: [Num; 2],
    a: int,
    d: int,
    e: int,
    f: int,
    g: nat,
    i: int,
    j: int,
    t: nat,
)
    requires
        g <= 1500 && t <= 1500 && 1074 <= g + t,
        straight(m, a, d, e, f, g, (g + t - 1074) as nat),
        is_at(p[0], i, t),
        is_at(p[1], j, t),
        -HIDDEN < a * i < HIDDEN,
        -HIDDEN < d * j < HIDDEN,
        -HIDDEN < a * i + e < HIDDEN,
        -HIDDEN < d * j + f < HIDDEN,
    ensures
        is_at(m.image_of(p)[0], a * i + e, (g + t - 1074) as nat),
        is_at(m.image_of(p)[1], d * j + f, (g + t - 1074) as nat),
{
    let q = m.0;
    let v = (g + t - 1074) as nat;
    lemma_product_at(q[0], p[0], a, i, g, t);
    lemma_product_at(q[3], p[1], d, j, g, t);
    lemma_plus_nothing(product_of(q[0], p[0]), q[2], p[1], a * i, v);
    lemma_plus_nothing(product_of(q[3], p[1]), q[1], p[0], d * j, v);
    lemma_sum_at(sum_of(product_of(q[0], p[0]), product_of(q[2], p[1])), q[4], a * i, e, v);
    lemma_sum_at(sum_of(product_of(q[1], p[0]), product_of(q[3], p[1])), q[5], d * j, f, v);
}

proof fn lemma_polynomial_at_nothing(terms: Seq<u64>, x: Num)
    requires
        x.zero(),
        forall|i: int| 0 <= i < terms.len() ==> num(#[trigger] terms[i]).finite(),
    ensures
        polynomial(terms, x).finite(),
    decreases terms.len(),
{
    if terms.len() > 0 {
        let rest = terms.drop_first();
        assert forall|i: int| 0 <= i < rest.len() implies num(#[trigger] rest[i]).finite() by {
            assert(rest[i] == terms[i + 1]);
        }
        lemma_polynomial_at_nothing(rest, x);
        let p = product_of(x, polynomial(rest, x));
        lemma_times_zero(polynomial(rest, x), x);
        let first = num(terms[0]);
        assert(first.finite());
        lemma_plus_zero(first, p);
        assert(sum_of(first, p).finite()) by {
            reveal(crate::num::equal);
        }
    }
}

/// No angle has no sine, and the cosine one.
proof fn lemma_no_angle(degrees: Num)
    requires
        degrees.zero(),
    ensures
        sin_cos_of(radians(degrees)).0.zero(),
        sin_cos_of(radians(degrees)).1 == num(ONE),
{
    reveal(sin_cos_of);
    lemma_small_sizes();
    lemma_small_whole();
    let x = radians(degrees);
    lemma_times_zero(num(DEGREE), degrees);
    assert(x.zero());
    assert(near(x) == x) by {
        reveal(crate::num::less);
        reveal(opposite_of);
    }
    let a = product_of(x, num(QUARTERS));
    lemma_times_zero(num(QUARTERS), x);
    let q = quarters(x);
    assert(q.zero()) by {
        reveal(round_of);
        reveal(crate::num::rounded);
        lemma_size_zero(a);
        let u = crate::num::one_unit() as int;
        assert((2 * 0 + u) / (2 * u) == 0) by (nonlinear_arith)
            requires
                u > 0,
        ;
        assert(0 * u == 0);
        assert(crate::num::magnitude(0, 1) == 0);
    }
    let (h, l) = (product_of(q, num(QUARTER_HIGH)), product_of(q, num(QUARTER_LOW)));
    lemma_times_zero(num(QUARTER_HIGH), q);
    lemma_times_zero(num(QUARTER_LOW), q);
    lemma_opposite(h);
    lemma_opposite(l);
    lemma_zero_sum(x, opposite_of(h));
    lemma_zero_sum(sum_of(x, opposite_of(h)), opposite_of(l));
    let r = quarter_rest(x);
    assert(r.zero());
    let z = product_of(r, r);
    lemma_times_zero(r, r);
    let sines = polynomial(sine_terms(), z);
    let cosines = polynomial(cosine_terms(), z);
    lemma_polynomial_at_nothing(sine_terms(), z);
    lemma_polynomial_at_nothing(cosine_terms(), z);
    let rz = product_of(r, z);
    lemma_times_zero(r, z);
    lemma_times_zero(sines, rz);
    lemma_zero_sum(r, product_of(rz, sines));
    let s = small_sine(r);
    assert(s.zero());
    let hz = product_of(num(HALF), z);
    lemma_times_zero(num(HALF), z);
    lemma_opposite(hz);
    lemma_plus_zero(num(ONE), opposite_of(hz));
    let zz = product_of(z, z);
    lemma_times_zero(z, z);
    lemma_times_zero(cosines, zz);
    lemma_plus_zero(num(ONE), product_of(zz, cosines));
    assert(small_cosine(r) == num(ONE));
    assert(crate::num::to_i64_of(q) == 0) by {
        reveal(crate::num::to_i64_of);
        lemma_size_zero(q);
        let u = crate::num::one_unit() as int;
        assert(0int / u == 0);
    }
}

/// The placement of a layer that is not turned, behind a place it is anchored at.
proof fn lemma_local_straight(
    state: State,
    root: Root,
    path: Seq<usize>,
    layer: Layer,
    x: int,
    y: int,
    k: int,
    a: int,
    b: int,
    u: int,
    v: int,
)
    requires
        state.number(root, path, layer, Property::Rotation).zero(),
        at_fine(state.number(root, path, layer, Property::X), x),
        at_fine(state.number(root, path, layer, Property::Y), y),
        at_fine(state.number(root, path, layer, Property::Scale), k),
        at_fine(state.number(root, path, layer, Property::ScaleX), a),
        at_fine(state.number(root, path, layer, Property::ScaleY), b),
        ({
            let scale = state.number(root, path, layer, Property::Scale);
            let sx = product_of(scale, state.number(root, path, layer, Property::ScaleX));
            let sy = product_of(scale, state.number(root, path, layer, Property::ScaleY));
            let pivot = state.pivot(root, path, layer, sx, sy);
            is_at(pivot[0], u, 1044) && is_at(pivot[1], v, 1044)
        }),
        -0x1000_0000_0000 < u < 0x1000_0000_0000,
        -0x1000_0000_0000 < v < 0x1000_0000_0000,
    ensures
        straight(
            state.local(root, path, layer),
            k * a,
            k * b,
            x * 0x10_0000 - u,
            y * 0x10_0000 - v,
            1054,
            1044,
        ),
{
    lemma_small_whole();
    lemma_small_sizes();
    lemma2_to64();
    lemma_product_bound(k, a);
    lemma_product_bound(k, b);
    let rotation = state.number(root, path, layer, Property::Rotation);
    let (nx, ny) = (
        state.number(root, path, layer, Property::X),
        state.number(root, path, layer, Property::Y),
    );
    let scale = state.number(root, path, layer, Property::Scale);
    let fx = state.number(root, path, layer, Property::ScaleX);
    let fy = state.number(root, path, layer, Property::ScaleY);
    let (sx, sy) = (product_of(scale, fx), product_of(scale, fy));
    lemma_product_at(scale, fx, k, a, 1064, 1064);
    lemma_product_at(scale, fy, k, b, 1064, 1064);
    let pivot = state.pivot(root, path, layer, sx, sy);
    let zero = num(0);
    assert(zero.zero());
    lemma_nothing_at(zero, 1044);
    lemma_finer(nx, x, 1064, 1044);
    lemma_finer(ny, y, 1064, 1044);
    assert(pow2(20) == 0x10_0000) by {
        vstd::arithmetic::power2::lemma2_to64_rest();
    }
    let (ex, ey) = (x * 0x10_0000, y * 0x10_0000);
    let place = Transform::moved(nx, ny);
    assert(straight(place, 1, 1, ex, ey, 1074, 1044));
    lemma_no_angle(rotation);
    let turn = Transform::turned(rotation);
    lemma_opposite(sin_cos_of(radians(rotation)).0);
    assert(straight(turn, 1, 1, 0, 0, 1074, 1044));
    lemma_behind_straight(place, turn, 1, 1, ex, ey, 1074, 1, 1, 0, 0, 1074, 1044);
    lemma_opposite_at(pivot[0], u, 1044);
    lemma_opposite_at(pivot[1], v, 1044);
    let back = Transform::moved(opposite_of(pivot[0]), opposite_of(pivot[1]));
    assert(straight(back, 1, 1, -u, -v, 1074, 1044));
    let turned = place.behind(turn);
    lemma_behind_straight(turned, back, 1, 1, ex, ey, 1074, 1, 1, -u, -v, 1074, 1044);
    let there = turned.behind(back);
    let size = Transform::sized(sx, sy);
    assert(straight(size, k * a, k * b, 0, 0, 1054, 1044));
    lemma_behind_straight(
        there,
        size,
        1,
        1,
        ex - u,
        ey - v,
        1074,
        k * a,
        k * b,
        0,
        0,
        1054,
        1044,
    );
}

/// A number of so many parts of 1024, not too many.
pub open spec fn at_fine(x: Num, k: int) -> bool {
    is_at(x, k, 1064) && -0x4000 < k < 0x4000
}

proof fn lemma_product_bound(a: int, b: int)
    requires
        -0x4000 < a < 0x4000,
        -0x4000 < b < 0x4000,
    ensures
        -0x1000_0000 < a * b < 0x1000_0000,
{
    assert(-0x1000_0000 < a * b < 0x1000_0000) by (nonlinear_arith)
        requires
            -0x4000 < a < 0x4000,
            -0x4000 < b < 0x4000,
    ;
}

proof fn lemma_triple_bound(a: int, b: int)
    requires
        -0x1000_0000 < a < 0x1000_0000,
        -0x8000 < b < 0x8000,
    ensures
        -0x800_0000_0000 < a * b < 0x800_0000_0000,
{
    assert(-0x800_0000_0000 < a * b < 0x800_0000_0000) by (nonlinear_arith)
        requires
            -0x1000_0000 < a < 0x1000_0000,
            -0x8000 < b < 0x8000,
    ;
}

/// Where a layer puts a point of its content, at the top of a tree: it is scaled along each axis
/// by the layer's scale and the scale of that axis, and moved to the layer's place. What scales
/// across has no part in how far down it lands, nor the other way round. Stated exactly, for
/// numbers that need no rounding (in parts of 1024, and their products).
pub proof fn lemma_point_placed(
    state: State,
    root: Root,
    path: Seq<usize>,
    layer: Layer,
    p: [Num; 2],
    x: int,
    y: int,
    k: int,
    a: int,
    b: int,
    i: int,
    j: int,
)
    requires
        layer.anchor is None,
        state.number(root, path, layer, Property::Rotation).zero(),
        at_fine(state.number(root, path, layer, Property::X), x),
        at_fine(state.number(root, path, layer, Property::Y), y),
        at_fine(state.number(root, path, layer, Property::Scale), k),
        at_fine(state.number(root, path, layer, Property::ScaleX), a),
        at_fine(state.number(root, path, layer, Property::ScaleY), b),
        at_fine(p[0], i),
        at_fine(p[1], j),
    ensures
        ({
            let t = state.handed(root, path, layer, Inherited::nothing()).transform;
            &&& is_at(t.image_of(p)[0], x * 0x10_0000 + k * a * i, 1044)
            &&& is_at(t.image_of(p)[1], y * 0x10_0000 + k * b * j, 1044)
        }),
{
    lemma_nothing_at(num(0), 1044);
    lemma_local_straight(state, root, path, layer, x, y, k, a, b, 0, 0);
    lemma_at_top(state, root, path, layer, p, k * a, k * b, x * 0x10_0000, y * 0x10_0000, i, j, k, a, b);
}

proof fn lemma_at_top(
    state: State,
    root: Root,
    path: Seq<usize>,
    layer: Layer,
    p: [Num; 2],
    a: int,
    d: int,
    e: int,
    f: int,
    i: int,
    j: int,
    k: int,
    ka: int,
    kb: int,
)
    requires
        straight(state.local(root, path, layer), a, d, e, f, 1054, 1044),
        a == k * ka && d == k * kb,
        -0x4000 < k < 0x4000 && -0x4000 < ka < 0x4000 && -0x4000 < kb < 0x4000,
        -0x2000_0000_0000 < e < 0x2000_0000_0000,
        -0x2000_0000_0000 < f < 0x2000_0000_0000,
        at_fine(p[0], i),
        at_fine(p[1], j),
    ensures
        ({
            let t = state.handed(root, path, layer, Inherited::nothing()).transform;
            &&& is_at(t.image_of(p)[0], a * i + e, 1044)
            &&& is_at(t.image_of(p)[1], d * j + f, 1044)
        }),
{
    lemma_small_whole();
    lemma_nothing_at(num(0), 1044);
    lemma_product_bound(k, ka);
    lemma_product_bound(k, kb);
    lemma_triple_bound(a, i);
    lemma_triple_bound(d, j);
    let top = Transform::unmoved();
    assert(straight(top, 1, 1, 0, 0, 1074, 1044));
    let local = state.local(root, path, layer);
    lemma_behind_straight(top, local, 1, 1, 0, 0, 1074, a, d, e, f, 1054, 1044);
    lemma_image_straight(top.behind(local), p, a, d, e, f, 1054, i, j, 1064);
}

/// How much of a side lies before an anchor, in halves.
pub open spec fn halves(near: bool, far: bool) -> int {
    if near {
        0
    } else if far {
        2
    } else {
        1
    }
}

proof fn lemma_anchored_side(near: bool, far: bool, at: Num, side: Num, b: int, w: int)
    requires
        !(near && far),
        at_fine(at, b),
        at_fine(side, 2 * w),
    ensures
        is_at(
            sum_of(at, opposite_of(Align::start(near, far, side, num(0)))),
            b + halves(near, far) * w,
            1064,
        ),
{
    lemma_small_whole();
    lemma2_to64();
    let zero = num(0);
    lemma_nothing_at(zero, 1064);
    lemma_difference_at(zero, side, 0, 2 * w, 1064);
    let d = sum_of(zero, opposite_of(side));
    assert(-w * 2 == -(2 * w)) by (nonlinear_arith);
    lemma_finer(d, -(2 * w), 1064, 1063);
    assert((-(2 * w)) * 2 == (-(2 * w)) * 2);
    lemma_quotient_at(d, num(TWO), -(2 * w), 2, 1063, 1074);
    let half = quotient_of(d, num(TWO));
    assert(is_at(half, -(2 * w), 1063));
    lemma_pow2_adds(1, 1063);
    let p = pow2(1063) as int;
    assert((-(2 * w)) * p == (-w) * (2 * p)) by (nonlinear_arith);
    assert(is_at(half, -w, 1064));
    let s = Align::start(near, far, side, zero);
    lemma_difference_at(at, s, b, -(halves(near, far) * w), 1064);
}

/// An anchor lands on the layer's place, whatever the layer's scale, and everything else where it
/// stands from the anchor, scaled: a layer is scaled around its anchor. The anchor is the part of
/// the content's box that its name says: an edge, a corner or the middle.
pub proof fn lemma_anchored_point_placed(
    state: State,
    root: Root,
    path: Seq<usize>,
    layer: Layer,
    p: [Num; 2],
    x: int,
    y: int,
    k: int,
    a: int,
    b: int,
    i: int,
    j: int,
    bx: int,
    by: int,
    w: int,
    h: int,
)
    requires
        layer.anchor is Some,
        state.content_box(root, path, layer) matches Some(c) && at_fine(c[0], bx) && at_fine(
            c[1],
            by,
        ) && at_fine(c[2], 2 * w) && at_fine(c[3], 2 * h),
        state.number(root, path, layer, Property::Rotation).zero(),
        at_fine(state.number(root, path, layer, Property::X), x),
        at_fine(state.number(root, path, layer, Property::Y), y),
        at_fine(state.number(root, path, layer, Property::Scale), k),
        at_fine(state.number(root, path, layer, Property::ScaleX), a),
        at_fine(state.number(root, path, layer, Property::ScaleY), b),
        at_fine(p[0], i),
        at_fine(p[1], j),
    ensures
        ({
            let t = state.handed(root, path, layer, Inherited::nothing()).transform;
            let (across, down) = anchor_of(layer.anchor->0);
            let (ax, ay) = (bx + across * w, by + down * h);
            &&& is_at(t.image_of(p)[0], x * 0x10_0000 + k * a * (i - ax), 1044)
            &&& is_at(t.image_of(p)[1], y * 0x10_0000 + k * b * (j - ay), 1044)
        }),
{
    let anchor = layer.anchor->0;
    let c = state.content_box(root, path, layer)->0;
    let (across, down) = anchor_of(anchor);
    let (ax, ay) = (bx + across * w, by + down * h);
    let scale = state.number(root, path, layer, Property::Scale);
    let fx = state.number(root, path, layer, Property::ScaleX);
    let fy = state.number(root, path, layer, Property::ScaleY);
    let (sx, sy) = (product_of(scale, fx), product_of(scale, fy));
    lemma_product_bound(k, a);
    lemma_product_bound(k, b);
    lemma_product_at(scale, fx, k, a, 1064, 1064);
    lemma_product_at(scale, fy, k, b, 1064, 1064);
    lemma_anchored_side(anchor.left(), anchor.right(), c[0], c[2], bx, w);
    lemma_anchored_side(anchor.top(), anchor.bottom(), c[1], c[3], by, h);
    assert(-0x4000 < across * w < 0x4000 && -0x4000 < down * h < 0x4000) by (nonlinear_arith)
        requires
            0 <= across <= 2,
            0 <= down <= 2,
            -0x4000 < 2 * w < 0x4000,
            -0x4000 < 2 * h < 0x4000,
    ;
    lemma_triple_bound(k * a, ax);
    lemma_triple_bound(k * b, ay);
    let (u, v) = (ax * (k * a), ay * (k * b));
    assert(u == (k * a) * ax && v == (k * b) * ay) by (nonlinear_arith)
        requires
            u == ax * (k * a),
            v == ay * (k * b),
    ;
    let px = sum_of(c[0], opposite_of(Align::start(anchor.left(), anchor.right(), c[2], num(0))));
    let py = sum_of(c[1], opposite_of(Align::start(anchor.top(), anchor.bottom(), c[3], num(0))));
    lemma_product_at(px, sx, ax, k * a, 1064, 1054);
    lemma_product_at(py, sy, ay, k * b, 1064, 1054);
    lemma_local_straight(state, root, path, layer, x, y, k, a, b, u, v);
    lemma_at_top(
        state,
        root,
        path,
        layer,
        p,
        k * a,
        k * b,
        x * 0x10_0000 - u,
        y * 0x10_0000 - v,
        i,
        j,
        k,
        a,
        b,
    );
    assert(k * a * i + (x * 0x10_0000 - u) == x * 0x10_0000 + k * a * (i - ax)) by (nonlinear_arith)
        requires
            u == (k * a) * ax,
    ;
    assert(k * b * j + (y * 0x10_0000 - v) == y * 0x10_0000 + k * b * (j - ay)) by (nonlinear_arith)
        requires
            v == (k * b) * ay,
    ;
}

/// Where an anchor lies in a box, in halves of its sides from the top left.
pub open spec fn anchor_of(anchor: Align) -> (int, int) {
    match anchor {
        Align::TopLeft => (0, 0),
        Align::Top => (1, 0),
        Align::TopRight => (2, 0),
        Align::Left => (0, 1),
        Align::Center => (1, 1),
        Align::Right => (2, 1),
        Align::BottomLeft => (0, 2),
        Align::Bottom => (1, 2),
        Align::BottomRight => (2, 2),
    }
}

/// A whole number that is not too large.
pub open spec fn small(x: Num, k: int) -> bool {
    is_whole(x, k) && -0x1000 < k < 0x1000
}

/// A map whose coefficients are small whole numbers.
pub open spec fn whole_map(t: Transform, m: Seq<int>) -> bool {
    m.len() == 6 && forall|i: int| 0 <= i < 6 ==> small(t.0[i], #[trigger] m[i])
}

proof fn lemma_bound_product(a: int, b: int, x: int, y: int)
    requires
        -x <= a <= x,
        -y <= b <= y,
    ensures
        -(x * y) <= a * b <= x * y,
{
    assert(-(x * y) <= a * b <= x * y) by (nonlinear_arith)
        requires
            -x <= a <= x,
            -y <= b <= y,
    ;
}

/// Two products added, of whole numbers.
proof fn lemma_dot(a: Num, b: Num, c: Num, d: Num, i: int, j: int, k: int, l: int)
    requires
        is_whole(a, i) && is_whole(b, j) && is_whole(c, k) && is_whole(d, l),
        -0x1000 <= i <= 0x1000 && -0x1000 <= k <= 0x1000,
        -0x800_0000 <= j <= 0x800_0000 && -0x800_0000 <= l <= 0x800_0000,
    ensures
        is_whole(sum_of(product_of(a, b), product_of(c, d)), i * j + k * l),
        -0x100_0000_0000 <= i * j + k * l <= 0x100_0000_0000,
{
    lemma_bound_product(i, j, 0x1000, 0x800_0000);
    lemma_bound_product(k, l, 0x1000, 0x800_0000);
    lemma_product_at(a, b, i, j, 1074, 1074);
    lemma_product_at(c, d, k, l, 1074, 1074);
    lemma_sum_at(product_of(a, b), product_of(c, d), i * j, k * l, 1074);
}

/// A point under a whole map.
proof fn lemma_whole_image(t: Transform, m: Seq<int>, p: [Num; 2], x: int, y: int)
    requires
        whole_map(t, m),
        is_whole(p[0], x) && is_whole(p[1], y),
        -0x800_0000 <= x <= 0x800_0000 && -0x800_0000 <= y <= 0x800_0000,
    ensures
        is_whole(t.image_of(p)[0], m[0] * x + m[2] * y + m[4]),
        is_whole(t.image_of(p)[1], m[1] * x + m[3] * y + m[5]),
{
    let q = t.0;
    assert(small(q[0], m[0]) && small(q[1], m[1]) && small(q[2], m[2]) && small(q[3], m[3])
        && small(q[4], m[4]) && small(q[5], m[5]));
    lemma_dot(q[0], p[0], q[2], p[1], m[0], x, m[2], y);
    lemma_dot(q[1], p[0], q[3], p[1], m[1], x, m[3], y);
    lemma_sum_at(
        sum_of(product_of(q[0], p[0]), product_of(q[2], p[1])),
        q[4],
        m[0] * x + m[2] * y,
        m[4],
        1074,
    );
    lemma_sum_at(
        sum_of(product_of(q[1], p[0]), product_of(q[3], p[1])),
        q[5],
        m[1] * x + m[3] * y,
        m[5],
        1074,
    );
}

/// Maps apply from the inside out: one behind another takes a point where the outer one takes what
/// the inner one made of it. So a layer lands where the groups it is in put it, the nearest first.
/// Stated exactly, for whole numbers.
pub proof fn lemma_inner_first(
    outer: Transform,
    inner: Transform,
    m: Seq<int>,
    n: Seq<int>,
    p: [Num; 2],
    x: int,
    y: int,
) -> (r: (int, int))
    requires
        whole_map(outer, m),
        whole_map(inner, n),
        small(p[0], x) && small(p[1], y),
    ensures
        is_whole(outer.behind(inner).image_of(p)[0], r.0),
        is_whole(outer.behind(inner).image_of(p)[1], r.1),
        is_whole(outer.image_of(inner.image_of(p))[0], r.0),
        is_whole(outer.image_of(inner.image_of(p))[1], r.1),
{
    let (a, b) = (outer.0, inner.0);
    assert(small(a[0], m[0]) && small(a[1], m[1]) && small(a[2], m[2]) && small(a[3], m[3])
        && small(a[4], m[4]) && small(a[5], m[5]));
    assert(small(b[0], n[0]) && small(b[1], n[1]) && small(b[2], n[2]) && small(b[3], n[3])
        && small(b[4], n[4]) && small(b[5], n[5]));
    lemma_whole_image(inner, n, p, x, y);
    let q = inner.image_of(p);
    lemma_row(a[0], a[2], a[4], m[0], m[2], m[4], b, n, p, x, y, q);
    lemma_row(a[1], a[3], a[5], m[1], m[3], m[5], b, n, p, x, y, q);
    let (u, v) = (n[0] * x + n[2] * y + n[4], n[1] * x + n[3] * y + n[5]);
    (m[0] * u + m[2] * v + m[4], m[1] * u + m[3] * v + m[5])
}

/// One coordinate of a point under two maps, at once and one by one.
proof fn lemma_row(
    a: Num,
    c: Num,
    e: Num,
    k: int,
    l: int,
    o: int,
    b: [Num; 6],
    n: Seq<int>,
    p: [Num; 2],
    x: int,
    y: int,
    q: [Num; 2],
)
    requires
        small(a, k) && small(c, l) && small(e, o),
        n.len() == 6,
        small(b[0], n[0]) && small(b[1], n[1]) && small(b[2], n[2]) && small(b[3], n[3]) && small(
            b[4],
            n[4],
        ) && small(b[5], n[5]),
        small(p[0], x) && small(p[1], y),
        is_whole(q[0], n[0] * x + n[2] * y + n[4]),
        is_whole(q[1], n[1] * x + n[3] * y + n[5]),
    ensures
        ({
            let r = k * (n[0] * x + n[2] * y + n[4]) + l * (n[1] * x + n[3] * y + n[5]) + o;
            let across = sum_of(product_of(a, b[0]), product_of(c, b[1]));
            let down = sum_of(product_of(a, b[2]), product_of(c, b[3]));
            let off = sum_of(sum_of(product_of(a, b[4]), product_of(c, b[5])), e);
            &&& is_whole(sum_of(sum_of(product_of(across, p[0]), product_of(down, p[1])), off), r)
            &&& is_whole(sum_of(sum_of(product_of(a, q[0]), product_of(c, q[1])), e), r)
        }),
{
    let (n0, n1, n2, n3, n4, n5) = (n[0], n[1], n[2], n[3], n[4], n[5]);
    lemma_entry_bound(n0, x, n2, y);
    lemma_entry_bound(n1, x, n3, y);
    let (u, v) = (n0 * x + n2 * y + n4, n1 * x + n3 * y + n5);
    lemma_dot(a, q[0], c, q[1], k, u, l, v);
    lemma_sum_at(sum_of(product_of(a, q[0]), product_of(c, q[1])), e, k * u + l * v, o, 1074);
    lemma_entry_bound(k, n0, l, n1);
    lemma_entry_bound(k, n2, l, n3);
    lemma_entry_bound(k, n4, l, n5);
    let (c0, c2, c4) = (k * n0 + l * n1, k * n2 + l * n3, k * n4 + l * n5);
    lemma_dot(a, b[0], c, b[1], k, n0, l, n1);
    lemma_dot(a, b[2], c, b[3], k, n2, l, n3);
    lemma_dot(a, b[4], c, b[5], k, n4, l, n5);
    let across = sum_of(product_of(a, b[0]), product_of(c, b[1]));
    let down = sum_of(product_of(a, b[2]), product_of(c, b[3]));
    let far = sum_of(product_of(a, b[4]), product_of(c, b[5]));
    lemma_sum_at(far, e, c4, o, 1074);
    lemma_wide_dot(across, p[0], down, p[1], c0, x, c2, y);
    lemma_sum_at(
        sum_of(product_of(across, p[0]), product_of(down, p[1])),
        sum_of(far, e),
        c0 * x + c2 * y,
        c4 + o,
        1074,
    );
    lemma_distribute(k, l, n0, n1, x);
    lemma_distribute(k, l, n2, n3, y);
    assert(k * (n0 * x + n2 * y + n4) == k * (n0 * x) + k * (n2 * y) + k * n4)
        by (nonlinear_arith);
    assert(l * (n1 * x + n3 * y + n5) == l * (n1 * x) + l * (n3 * y) + l * n5)
        by (nonlinear_arith);
}

proof fn lemma_distribute(a: int, b: int, n: int, m: int, x: int)
    ensures
        (a * n + b * m) * x == a * (n * x) + b * (m * x),
{
    assert((a * n) * x == a * (n * x)) by (nonlinear_arith);
    assert((b * m) * x == b * (m * x)) by (nonlinear_arith);
    let (p, q) = (a * n, b * m);
    assert((p + q) * x == p * x + q * x) by (nonlinear_arith);
}

proof fn lemma_entry_bound(a: int, b: int, c: int, d: int)
    requires
        -0x1000 < a < 0x1000 && -0x1000 < b < 0x1000 && -0x1000 < c < 0x1000 && -0x1000 < d < 0x1000,
    ensures
        -0x200_0000 <= a * b + c * d <= 0x200_0000,
{
    lemma_bound_product(a, b, 0xFFF, 0xFFF);
    lemma_bound_product(c, d, 0xFFF, 0xFFF);
}

proof fn lemma_wide_dot(a: Num, b: Num, c: Num, d: Num, i: int, j: int, k: int, l: int)
    requires
        is_whole(a, i) && is_whole(b, j) && is_whole(c, k) && is_whole(d, l),
        -0x200_0000 <= i <= 0x200_0000 && -0x200_0000 <= k <= 0x200_0000,
        -0x1000 < j < 0x1000 && -0x1000 < l < 0x1000,
    ensures
        is_whole(sum_of(product_of(a, b), product_of(c, d)), i * j + k * l),
        -0x100_0000_0000 <= i * j + k * l <= 0x100_0000_0000,
{
    lemma_bound_product(i, j, 0x200_0000, 0xFFF);
    lemma_bound_product(k, l, 0x200_0000, 0xFFF);
    lemma_product_at(a, b, i, j, 1074, 1074);
    lemma_product_at(c, d, k, l, 1074, 1074);
    lemma_sum_at(product_of(a, b), product_of(c, d), i * j, k * l, 1074);
}

/// A turn keeps what is square: it takes the second axis where a quarter turn on from the first is.
pub proof fn lemma_turn_is_square(degrees: Num)
    ensures
        ({
            let m = Transform::turned(degrees).0;
            &&& m[3] == m[0] && m[2] == opposite_of(m[1])
            &&& m[4].zero() && m[5].zero()
        }),
{
}

/// A layer that nothing drives is placed, turned, scaled and faded as it was authored.
pub proof fn lemma_placed_as_authored(s: State, root: Root, path: Seq<usize>, layer: Layer)
    requires
        layer.bindings@.len() == 0,
        layer.timelines@.len() == 0,
    ensures
        s.number(root, path, layer, Property::X) == layer.x,
        s.number(root, path, layer, Property::Y) == layer.y,
        s.number(root, path, layer, Property::Scale) == layer.scale,
        s.number(root, path, layer, Property::ScaleX) == layer.scale_x,
        s.number(root, path, layer, Property::ScaleY) == layer.scale_y,
        s.number(root, path, layer, Property::Rotation) == layer.rotation,
        s.number(root, path, layer, Property::Opacity) == layer.opacity,
        s.visible(root, path, layer) == layer.visible,
        match layer.kind {
            LayerKind::Group { gain, .. } | LayerKind::Audio { gain, .. } | LayerKind::Video {
                gain,
                ..
            } => s.number(root, path, layer, Property::Gain) == gain,
            LayerKind::Image { frame, repeat, .. } => {
                &&& s.number(root, path, layer, Property::Frame) == frame
                &&& repeat matches Some(tile) ==> s.number(root, path, layer, Property::TileX)
                    == tile.offset[0] && s.number(root, path, layer, Property::TileY)
                    == tile.offset[1]
            },
            LayerKind::Text { text, font, .. } => s.text(root, path, layer, Property::Text)
                == text@ && s.text(root, path, layer, Property::Font) == font@,
            LayerKind::Digits { text, .. } => s.text(root, path, layer, Property::Text) == text@,
            _ => true,
        },
{
    lemma_authored_stands(s, root, path, layer, Property::X);
    lemma_authored_stands(s, root, path, layer, Property::Y);
    lemma_authored_stands(s, root, path, layer, Property::Scale);
    lemma_authored_stands(s, root, path, layer, Property::ScaleX);
    lemma_authored_stands(s, root, path, layer, Property::ScaleY);
    lemma_authored_stands(s, root, path, layer, Property::Rotation);
    lemma_authored_stands(s, root, path, layer, Property::Opacity);
    lemma_authored_stands(s, root, path, layer, Property::Visible);
    lemma_authored_stands(s, root, path, layer, Property::Gain);
    lemma_authored_stands(s, root, path, layer, Property::Frame);
    lemma_authored_stands(s, root, path, layer, Property::TileX);
    lemma_authored_stands(s, root, path, layer, Property::TileY);
    lemma_authored_stands(s, root, path, layer, Property::Text);
    lemma_authored_stands(s, root, path, layer, Property::Font);
}

} // verus!
