//! Changes that go in several moves.

use crate::arith::lemma_opposite;
use crate::exact::{
    is_at, is_whole, lemma_abs_at, lemma_compare_at, lemma_difference_at, lemma_finer,
    lemma_opposite_at, lemma_product_at, lemma_same_size, lemma_small_whole, lemma_sum_at,
};
use crate::geometry::lemma_whole_part;
use crate::model::{sampled, sign_of, Moves, MOVE_SLACK};
use crate::num::{
    abs_of, floor_of, lemma_size_zero, max_of, min_of, num, one_unit, opposite_of, product_of,
    quotient_of, sum_of, Num, HIDDEN,
};
use crate::order::{between, lemma_between_opposite, lemma_between_sum, lemma_rounded_within};
use crate::waves::ONE;
use vstd::arithmetic::div_mod::lemma_fundamental_div_mod_converse;
use vstd::arithmetic::power2::{
    lemma2_to64, lemma2_to64_rest, lemma_pow2_adds, lemma_pow2_pos, pow2,
};
use vstd::prelude::*;

verus! {

/// How far one move has come so long after it began: `r` parts of 1024.
pub open spec fn eases_to(m: Moves, l: int, r: int) -> bool {
    0 <= r <= 1024 && forall|f: Num|
        #![trigger quotient_of(f, m.duration)]
        is_at(f, l, 1064) ==> is_at(m.ease.eased(quotient_of(f, m.duration)), r, 1064)
}

/// How far the offset takes a move off its way then.
pub open spec fn bobs_by(m: Moves, l: int, x: int) -> bool {
    forall|f: Num|
        #![trigger sampled(m.offset, f)]
        is_at(f, l, 1064) ==> match sampled(m.offset, f) {
            Some(v) => is_at(v, x, 1054),
            None => x == 0,
        }
}

/// The slack is less than half a part of 1024.
proof fn lemma_slack()
    ensures
        between(opposite_of(num(MOVE_SLACK)), -1, 0),
{
    let x = num(MOVE_SLACK);
    lemma_pow2_pos(992);
    lemma_pow2_pos(1064);
    lemma2_to64();
    lemma2_to64_rest();
    lemma_pow2_adds(53, 992);
    lemma_pow2_adds(19, 1045);
    lemma_pow2_pos(1045);
    assert(x.step() == 992);
    let (m, p) = (x.mantissa() as int, pow2(992) as int);
    assert(m <= 2 * HIDDEN);
    assert(m * p <= (2 * HIDDEN) * p) by (nonlinear_arith)
        requires
            m <= 2 * HIDDEN,
            p > 0,
    ;
    assert(between(x, 0, 1));
    lemma_between_opposite(x, 0, 1);
}

/// A number above one whole number and not above the next, rounded up.
proof fn lemma_rounded_up(v: Num, n: int)
    requires
        v.finite(),
        1 <= n < 0x10_0000,
        (n - 1) * one_unit() < v.units() <= n * one_unit(),
    ensures
        is_whole(opposite_of(floor_of(opposite_of(v))), n),
{
    reveal(floor_of);
    lemma_pow2_pos(1074);
    let u = one_unit() as int;
    let w = opposite_of(v);
    lemma_opposite(v);
    let s = v.size() as int;
    assert((n - 1) * u >= 0 && n * u > 0) by (nonlinear_arith)
        requires
            n >= 1,
            u > 0,
    ;
    let over = s + u - 1 - n * u;
    assert(0 <= over < u) by (nonlinear_arith)
        requires
            over == s + u - 1 - n * u,
            (n - 1) * u < s <= n * u,
    ;
    lemma_fundamental_div_mod_converse(s + u - 1, u, n, over);
    let k = (n * u) as nat;
    lemma_rounded_within(k, 1, n as nat, n as nat, 1074);
    lemma_same_size(true, k, 1);
    let f = floor_of(w);
    assert(w.size() == v.size() && w.negative());
    assert((s + u - 1) / u * u == k);
    assert(f.units() == -(n * u));
    lemma_opposite(f);
}

/// How many moves there are.
#[verifier::rlimit(40)]
proof fn lemma_move_count(m: Moves, distance: Num, step: Num, n: int, st: int, last: int)
    requires
        m.step == Some(step),
        is_at(step, st, 1054),
        is_at(distance, (n - 1) * st + last, 1054),
        1 <= n <= 64,
        0 < last <= st < 0x10_0000,
        512 * last >= st,
    ensures
        is_whole(m.count(distance), n),
        is_at(m.unit(distance), if n > 1 {
            st
        } else {
            last
        }, 1054),
{
    let d = (n - 1) * st + last;
    let un = if n > 1 {
        st
    } else {
        last
    };
    lemma_small_whole();
    lemma_pow2_pos(1054);
    lemma_pow2_pos(1064);
    lemma_pow2_pos(1074);
    lemma2_to64();
    lemma_pow2_adds(10, 1064);
    assert(0 < d <= 0x400_0000 && (n > 1 ==> d > st) && (n == 1 ==> d == last)) by (nonlinear_arith)
        requires
            d == (n - 1) * st + last,
            0 < last <= st < 0x10_0000,
            1 <= n <= 64,
    ;
    lemma_compare_at(step, distance, st, d, 1054);
    let unit = m.unit(distance);
    assert(is_at(unit, un, 1054));
    assert(is_at(num(0), 0, 1054));
    lemma_compare_at(num(0), unit, 0, un, 1054);
    let q = quotient_of(distance, unit);
    let (lo, hi) = (1024 * (n - 1) + 2, 1024 * n);
    let (v, p, u) = (pow2(1054) as int, pow2(1064) as int, one_unit() as int);
    assert(d * v > 0 && un * v > 0) by (nonlinear_arith)
        requires
            d > 0,
            un > 0,
            v > 0,
    ;
    lemma_size_zero(unit);
    let (top, bottom) = (distance.size() * one_unit(), unit.size());
    assert(un * lo <= 1024 * d <= un * hi) by (nonlinear_arith)
        requires
            d == (n - 1) * st + last,
            lo == 1024 * (n - 1) + 2,
            hi == 1024 * n,
            un == (if n > 1 {
                st
            } else {
                last
            }),
            n >= 1,
            0 < last <= st,
            512 * last >= st,
    ;
    assert((lo * p) * bottom <= top <= (hi * p) * bottom) by (nonlinear_arith)
        requires
            top == (d * v) * u,
            bottom == un * v,
            u == 1024 * p,
            un * lo <= 1024 * d <= un * hi,
            v > 0,
            p > 0,
    ;
    assert(q == crate::num::rounded(false, top, bottom)) by {
        reveal(quotient_of);
    }
    lemma_rounded_within(top, bottom, lo as nat, hi as nat, 1064);
    assert(between(q, lo, hi));
    lemma_slack();
    lemma_between_sum(q, opposite_of(num(MOVE_SLACK)), lo, hi, -1, 0);
    let less_slack = sum_of(q, opposite_of(num(MOVE_SLACK)));
    assert((lo - 1) * p > (n - 1) * u && hi * p == n * u) by (nonlinear_arith)
        requires
            lo == 1024 * (n - 1) + 2,
            hi == 1024 * n,
            u == 1024 * p,
            p > 0,
    ;
    lemma_rounded_up(less_slack, n);
    let up = opposite_of(floor_of(opposite_of(less_slack)));
    lemma_compare_at(up, num(ONE), n, 1, 1074);
}

/// Which move it is, so long after the start.
#[verifier::rlimit(40)]
proof fn lemma_move_index(past: Num, period: Num, i: int, l: int, t: int)
    requires
        is_at(past, i * t + l, 1064),
        is_at(period, t, 1064),
        0 <= i < 64,
        0 <= l < t <= 0x10_0000,
    ensures
        is_whole(floor_of(quotient_of(past, period)), i),
{
    reveal(quotient_of);
    lemma_pow2_pos(1054);
    lemma_pow2_pos(1064);
    lemma_pow2_pos(1074);
    lemma2_to64();
    lemma_pow2_adds(20, 1054);
    let (v, p, u) = (pow2(1054) as int, pow2(1064) as int, one_unit() as int);
    let a = i * t + l;
    assert(0 <= a && 0 <= a * p && t * p > 0) by (nonlinear_arith)
        requires
            a == i * t + l,
            0 <= i,
            0 <= l < t,
            p > 0,
    ;
    lemma_size_zero(period);
    let (top, bottom) = (past.size() * one_unit(), period.size());
    let (lo, hi) = (0x10_0000 * i, 0x10_0000 * (i + 1) - 1);
    assert((lo * v) * bottom <= top <= (hi * v) * bottom) by (nonlinear_arith)
        requires
            top == (a * p) * u,
            bottom == t * p,
            u == 0x10_0000 * v,
            a == i * t + l,
            0 <= l <= t - 1,
            t <= 0x10_0000,
            lo == 0x10_0000 * i,
            hi == 0x10_0000 * (i + 1) - 1,
            p > 0,
            v > 0,
    ;
    lemma_rounded_within(top, bottom, lo as nat, hi as nat, 1054);
    let q = quotient_of(past, period);
    assert(lo * v == i * u && hi * v < (i + 1) * u) by (nonlinear_arith)
        requires
            lo == 0x10_0000 * i,
            hi == 0x10_0000 * (i + 1) - 1,
            u == 0x10_0000 * v,
            v > 0,
    ;
    assert(i * u >= 0) by (nonlinear_arith)
        requires
            i >= 0,
            u > 0,
    ;
    if past.negative() {
        assert(a * p == 0);
        assert(top == 0) by (nonlinear_arith)
            requires
                top == (a * p) * u,
                a * p == 0,
        ;
        crate::arith::lemma_zero_rounds(true, bottom);
        lemma_size_zero(q);
        assert(i == 0) by (nonlinear_arith)
            requires
                a == i * t + l,
                a * p == 0,
                p > 0,
                t > 0,
                l >= 0,
                i >= 0,
        ;
    }
    lemma_whole_part(q, i);
}

/// A change in steps goes one step after the other, each in its own time, and what is left of the
/// way in the last one. While it does, it is where the whole steps have taken it, and from there
/// the eased part of this one, and off that way by what the offset says, in the direction it goes.
/// Stated exactly, for numbers that need no rounding.
#[verifier::rlimit(40)]
pub proof fn lemma_change_in_steps(
    m: Moves,
    start: Num,
    target: Num,
    elapsed: Num,
    back: bool,
    p: int,
    st: int,
    last: int,
    n: int,
    i: int,
    t: int,
    l: int,
    r: int,
    x: int,
)
    requires
        m.wrap is None,
        m.step matches Some(step) && is_at(step, st, 1054),
        1 <= n <= 64 && 0 <= i < n,
        0 < last <= st < 0x10_0000,
        512 * last >= st,
        is_at(start, p, 1054) && -0x1_0000_0000 < p < 0x1_0000_0000,
        is_at(target, if back {
            p - ((n - 1) * st + last)
        } else {
            p + ((n - 1) * st + last)
        }, 1054),
        is_at(m.period(), t, 1064) && 0 < t <= 0x10_0000,
        is_at(elapsed, i * t + l, 1064) && 0 <= l < t,
        eases_to(m, l, r),
        bobs_by(m, l, x) && -0x1000_0000 < x < 0x1000_0000,
    ensures
        ({
            let length = if i < n - 1 {
                st
            } else {
                last
            };
            let way = 1024 * (i * st) + length * r + 1024 * x;
            is_at(m.value(start, target, elapsed), if back {
                1024 * p - way
            } else {
                1024 * p + way
            }, 1044)
        }),
{
    reveal(Moves::value);
    lemma_small_whole();
    lemma2_to64();
    let step = m.step->0;
    let d = (n - 1) * st + last;
    assert(0 < d <= 0x400_0000) by (nonlinear_arith)
        requires
            d == (n - 1) * st + last,
            0 < last <= st < 0x10_0000,
            1 <= n <= 64,
    ;
    let q = if back {
        p - d
    } else {
        p + d
    };
    let delta = sum_of(target, opposite_of(start));
    lemma_difference_at(target, start, q, p, 1054);
    let distance = abs_of(delta);
    lemma_abs_at(delta, q - p, 1054);
    lemma_move_count(m, distance, step, n, st, last);
    let (unit, moves, period) = (m.unit(distance), m.count(distance), m.period());
    let zero = num(0);
    assert(is_at(zero, 0, 1054) && is_at(zero, 0, 1064));
    lemma_compare_at(distance, zero, d, 0, 1054);
    // Not over yet.
    assert(0 <= n * t <= 0x400_0000 && 0 <= i * t && i * t + l < n * t) by (nonlinear_arith)
        requires
            1 <= n <= 64,
            0 <= i < n,
            0 < t <= 0x10_0000,
            0 <= l < t,
    ;
    lemma_product_at(moves, period, n, t, 1074, 1064);
    lemma_compare_at(product_of(moves, period), elapsed, n * t, i * t + l, 1064);
    // The move.
    let past = max_of(elapsed, zero);
    lemma_compare_at(elapsed, zero, i * t + l, 0, 1064);
    assert(is_at(past, i * t + l, 1064));
    lemma_move_index(past, period, i, l, t);
    let f = floor_of(quotient_of(past, period));
    let most = sum_of(moves, opposite_of(num(ONE)));
    lemma_difference_at(moves, num(ONE), n, 1, 1074);
    lemma_compare_at(most, f, n - 1, i, 1074);
    let index = min_of(f, most);
    assert(is_whole(index, i));
    lemma_product_at(index, period, i, t, 1074, 1064);
    let local = sum_of(past, opposite_of(product_of(index, period)));
    lemma_difference_at(past, product_of(index, period), i * t + l, i * t, 1064);
    // How far it is.
    let un = if n > 1 {
        st
    } else {
        last
    };
    assert(0 <= i * un <= 0x400_0000 && i * un == i * st) by (nonlinear_arith)
        requires
            0 <= i < n,
            n <= 64,
            0 < last <= st < 0x10_0000,
            un == (if n > 1 {
                st
            } else {
                last
            }),
    ;
    let covered = product_of(index, unit);
    lemma_product_at(index, unit, i, un, 1074, 1054);
    let left = sum_of(distance, opposite_of(covered));
    lemma_difference_at(distance, covered, d, i * un, 1054);
    lemma_compare_at(unit, left, un, d - i * un, 1054);
    let length = min_of(left, unit);
    let len = if i < n - 1 {
        st
    } else {
        last
    };
    assert(i < n - 1 ==> d - i * st >= st + last) by (nonlinear_arith)
        requires
            d == (n - 1) * st + last,
            st > 0,
    ;
    assert(i == n - 1 ==> d - i * st == last) by (nonlinear_arith)
        requires
            d == (n - 1) * st + last,
    ;
    assert(is_at(length, len, 1054));
    let e = m.ease.eased(quotient_of(local, m.duration));
    assert(is_at(e, r, 1064));
    assert(0 <= len * r <= 0x4000_0000) by (nonlinear_arith)
        requires
            0 <= len < 0x10_0000,
            0 <= r <= 1024,
    ;
    lemma_product_at(length, e, len, r, 1054, 1064);
    lemma_thousandth(covered, i * un);
    lemma_sum_at(covered, product_of(length, e), 1024 * (i * un), len * r, 1044);
    let along = sum_of(covered, product_of(length, e));
    let extra = match sampled(m.offset, local) {
        Some(v) => v,
        None => zero,
    };
    assert(is_at(extra, x, 1054));
    lemma_thousandth(extra, x);
    let way = 1024 * (i * un) + len * r + 1024 * x;
    lemma_sum_at(along, extra, 1024 * (i * un) + len * r, 1024 * x, 1044);
    let gone = sum_of(along, extra);
    // The way it goes.
    let sign = sign_of(delta);
    lemma_pow2_pos(1054);
    assert(((q - p) * pow2(1054) < 0) == back) by (nonlinear_arith)
        requires
            q - p == (if back {
                -d
            } else {
                d
            }),
            d > 0,
            pow2(1054) > 0,
    ;
    let k: int = if back {
        -1
    } else {
        1
    };
    lemma_opposite_at(num(ONE), 1, 1074);
    assert(is_whole(sign, k));
    assert(k * way == (if back {
        -way
    } else {
        way
    })) by (nonlinear_arith)
        requires
            k == (if back {
                -1int
            } else {
                1int
            }),
    ;
    lemma_product_at(sign, gone, k, way, 1074, 1044);
    lemma_thousandth(start, p);
    lemma_sum_at(start, product_of(sign, gone), 1024 * p, k * way, 1044);
}

proof fn lemma_thousandth(x: Num, a: int)
    requires
        is_at(x, a, 1054),
    ensures
        is_at(x, 1024 * a, 1044),
{
    lemma2_to64();
    lemma_finer(x, a, 1054, 1044);
    assert(a * pow2(10) == 1024 * a) by (nonlinear_arith)
        requires
            pow2(10) == 1024,
    ;
}

} // verus!
