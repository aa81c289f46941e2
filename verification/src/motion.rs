//! What keyframes, transitions and reels do to a value, in terms of where it starts and where it
//! goes.

use crate::arith::{
    lemma_minus_self, lemma_opposite, lemma_plus_zero, lemma_small_sizes, lemma_times_one,
    lemma_times_zero,
};
use crate::easing::{lemma_eased_ends, lemma_eased_within, Easing};
use crate::exact::{
    is_at, is_whole, lemma_compare, lemma_compare_at, lemma_difference_at, lemma_difference_sign,
    lemma_finer, lemma_from_int_at, lemma_near_exact, lemma_near_rises, lemma_product_at,
    lemma_quotient_at, lemma_rem_at, lemma_share_between, lemma_small_whole, lemma_sum_at,
    lemma_sum_moves, lemma_sum_near, lemma_sum_order, near,
};
use crate::model::{first_after, sampled, Direction, Key, Moves, Reel, MOVE_SLACK};
use crate::num::{
    abs_of, at_most, clamp_of, equal, floor_of, from_int, lemma_size_zero, less, max_of, min_of,
    num, one_unit, opposite_of, product_of, quotient_of, rounded, sum_of, Num, HIDDEN,
};
use crate::waves::{ONE, TWO};
use vstd::arithmetic::power2::{lemma2_to64, lemma_pow2_adds, lemma_pow2_pos, pow2};
use vstd::prelude::*;

verus! {

/// An ease that stays within 0 and 1.
pub open spec fn gentle(ease: Easing) -> bool {
    ease != Easing::BackIn && ease != Easing::BackOut && ease != Easing::BackInOut && ease
        != Easing::ElasticOut
}

/// A number that is one of two, or lies between them.
pub open spec fn amid(x: Num, a: Num, b: Num) -> bool {
    at_most(a, x) && at_most(x, b) || at_most(b, x) && at_most(x, a)
}

/// Keys at finite times, each after the one before.
pub open spec fn rising(keys: Seq<Key>) -> bool {
    &&& forall|i: int| 0 <= i < keys.len() ==> (#[trigger] keys[i]).t.finite()
    &&& forall|i: int, j: int|
        0 <= i < j < keys.len() ==> less((#[trigger] keys[i]).t, (#[trigger] keys[j]).t)
}

/// A time from one key on and before the next.
pub open spec fn on_the_way(keys: Seq<Key>, j: int, time: Num) -> bool {
    0 <= j && j + 1 < keys.len() && at_most(keys[j].t, time) && less(time, keys[j + 1].t)
}

pub(crate) proof fn lemma_chain(a: Num, b: Num, c: Num)
    ensures
        at_most(a, b) && at_most(b, c) ==> at_most(a, c),
        less(a, b) && at_most(b, c) ==> less(a, c),
        at_most(a, b) && less(b, c) ==> less(a, c),
        less(a, b) ==> !at_most(b, a) && at_most(a, b),
        !a.nan() && !b.nan() ==> less(a, b) || at_most(b, a),
        equal(a, b) ==> at_most(a, b) && at_most(b, a),
        equal(a, b) == equal(b, a),
{
    reveal(less);
    reveal(equal);
}

proof fn lemma_next_key(keys: Seq<Key>, j: int, time: Num, from: int)
    requires
        rising(keys),
        on_the_way(keys, j, time),
        0 <= from <= j + 1,
    ensures
        first_after(keys, time, from) == Some(j + 1),
    decreases j + 1 - from,
{
    if from <= j {
        lemma_chain(keys[from].t, keys[j].t, time);
        lemma_chain(keys[from].t, time, time);
        lemma_chain(time, keys[from].t, time);
        lemma_next_key(keys, j, time, from + 1);
    }
}

/// The value on the way between two keys of a track is the one of a track of these two alone:
/// no other key has a part in it.
pub proof fn lemma_two_keys_decide(keys: Seq<Key>, j: int, time: Num)
    requires
        rising(keys),
        on_the_way(keys, j, time),
        less(keys[j].t, time),
    ensures
        sampled(keys, time) == sampled(seq![keys[j], keys[j + 1]], time),
        sampled(keys, time) is Some,
{
    reveal(sampled);
    let pair = seq![keys[j], keys[j + 1]];
    lemma_before_end(keys, j, time);
    assert(rising(pair));
    assert(on_the_way(pair, 0, time));
    lemma_before_end(pair, 0, time);
    lemma_next_key(keys, j, time, 0);
    lemma_next_key(pair, 0, time, 0);
}

/// On the way past the first key, a track is neither before its start nor past its end.
proof fn lemma_before_end(keys: Seq<Key>, j: int, time: Num)
    requires
        rising(keys),
        on_the_way(keys, j, time),
    ensures
        !at_most(keys.last().t, time),
        less(keys[0].t, time) || equal(keys[0].t, time) && j == 0,
        less(keys[j].t, time) ==> !at_most(time, keys[0].t),
{
    let last = keys.last();
    if j + 1 < keys.len() - 1 {
        lemma_chain(time, keys[j + 1].t, last.t);
        lemma_chain(keys[j + 1].t, last.t, last.t);
    }
    lemma_chain(time, last.t, time);
    if j > 0 {
        lemma_chain(keys[0].t, keys[j].t, time);
    }
    lemma_chain(keys[0].t, time, time);
}

/// At the time of a key a track has the value of that key, whichever key it is. (One that is
/// left by a `back_out` is missed by a rounding there, and a step between values too far apart
/// for a double has no value in between.)
pub proof fn lemma_key_reached(keys: Seq<Key>, j: int)
    requires
        rising(keys),
        0 <= j < keys.len(),
        keys[j].v.finite(),
        j + 1 < keys.len() ==> keys[j + 1].ease != Easing::BackOut && sum_of(
            keys[j + 1].v,
            opposite_of(keys[j].v),
        ).finite(),
    ensures
        sampled(keys, keys[j].t) matches Some(v) && equal(v, keys[j].v),
{
    reveal(sampled);
    let a = keys[j];
    let time = a.t;
    lemma_compare(time, time);
    lemma_compare(a.v, a.v);
    if j > 0 {
        lemma_chain(keys[0].t, time, time);
    }
    if 0 < j && j + 1 < keys.len() {
        let b = keys[j + 1];
        lemma_before_end(keys, j, time);
        lemma_next_key(keys, j, time, 0);
        lemma_difference_sign(a.t, b.t);
        let span = sum_of(b.t, opposite_of(a.t));
        let zero = num(0);
        lemma_chain(zero, span, zero);
        lemma_minus_self(time);
        assert(quotient_of(zero, span) == zero) by {
            lemma_nothing_over(span);
        }
        let e = b.ease.eased(zero);
        lemma_eased_ends(b.ease);
        assert(e.zero()) by {
            reveal(equal);
        }
        let d = sum_of(b.v, opposite_of(a.v));
        lemma_times_zero(d, e);
        lemma_plus_zero(a.v, product_of(d, e));
    }
}

/// Nothing divided by anything above nothing is nothing.
pub(crate) proof fn lemma_nothing_over(x: Num)
    requires
        less(num(0), x),
    ensures
        quotient_of(num(0), x) == num(0),
{
    reveal(quotient_of);
    reveal(less);
    let zero = num(0);
    lemma_size_zero(zero);
    lemma_size_zero(x);
    if x.finite() {
        let d = x.size();
        assert(0 * one_unit() == 0);
        assert(0int / d as int == 0 && 0int % d as int == 0);
        assert(d * 2 * HIDDEN > 0) by (nonlinear_arith)
            requires
                d > 0,
        ;
        assert(crate::num::magnitude(0, d) == 0);
        reveal(rounded);
    }
}

/// Between two keys the value lies between theirs, where the ease does not overshoot: it never
/// turns back behind the key it left, and where the difference of the two values is exact it
/// never passes the one it goes to.
pub proof fn lemma_value_between_keys(keys: Seq<Key>, j: int, time: Num)
    requires
        rising(keys),
        on_the_way(keys, j, time),
        less(keys[j].t, time),
        gentle(keys[j + 1].ease),
        keys[j].v.finite() && keys[j + 1].v.finite(),
        sum_of(keys[j + 1].t, opposite_of(keys[j].t)).finite(),
        sum_of(keys[j + 1].v, opposite_of(keys[j].v)).finite(),
    ensures
        ({
            let (a, b) = (keys[j].v, keys[j + 1].v);
            let d = sum_of(b, opposite_of(a));
            let v = sampled(keys, time)->0;
            &&& sampled(keys, time) is Some
            &&& at_most(a, b) ==> at_most(a, v)
            &&& at_most(b, a) ==> at_most(v, a)
            &&& amid(v, a, sum_of(a, d))
            &&& d.units() == b.units() - a.units() ==> amid(v, a, b)
        }),
{
    reveal(sampled);
    let (ka, kb) = (keys[j], keys[j + 1]);
    let (a, b) = (ka.v, kb.v);
    lemma_before_end(keys, j, time);
    lemma_next_key(keys, j, time, 0);
    let zero = num(0);
    let span = sum_of(kb.t, opposite_of(ka.t));
    lemma_chain(ka.t, time, kb.t);
    lemma_difference_sign(ka.t, kb.t);
    lemma_chain(zero, span, zero);
    assert(time.finite()) by {
        reveal(less);
    }
    lemma_opposite(ka.t);
    lemma_sum_order(time, kb.t, opposite_of(ka.t));
    lemma_difference_sign(ka.t, time);
    let gone = sum_of(time, opposite_of(ka.t));
    assert(gone.finite()) by {
        reveal(less);
        reveal(equal);
    }
    let t = quotient_of(gone, span);
    assert(!t.nan()) by {
        reveal(quotient_of);
        reveal(rounded);
        reveal(less);
    }
    let e = kb.ease.eased(t);
    lemma_eased_within(kb.ease, t);
    lemma_toward(a, b, e);
}

/// A share of the way from one number to another.
pub(crate) proof fn lemma_toward(a: Num, b: Num, e: Num)
    requires
        a.finite() && b.finite(),
        sum_of(b, opposite_of(a)).finite(),
        at_most(num(0), e) && at_most(e, num(ONE)),
    ensures
        ({
            let d = sum_of(b, opposite_of(a));
            let v = sum_of(a, product_of(d, e));
            &&& at_most(a, b) ==> at_most(a, v) && at_most(v, sum_of(a, d))
            &&& at_most(b, a) ==> at_most(v, a) && at_most(sum_of(a, d), v)
            &&& amid(v, a, sum_of(a, d))
            &&& d.units() == b.units() - a.units() ==> equal(sum_of(a, d), b) && amid(v, a, b)
            &&& product_of(d, e).finite()
        }),
{
    let d = sum_of(b, opposite_of(a));
    let zero = num(0);
    assert(e.finite()) by {
        reveal(less);
        reveal(equal);
        lemma_small_sizes();
    }
    lemma_difference_sign(a, b);
    lemma_share_between(d, e);
    let p = product_of(d, e);
    let v = sum_of(a, p);
    lemma_sum_moves(a, p);
    lemma_compare(a, b);
    lemma_compare(b, a);
    if at_most(a, b) {
        lemma_sum_order(p, d, a);
    }
    if at_most(b, a) {
        lemma_sum_order(d, p, a);
    }
    if d.units() == b.units() - a.units() {
        lemma_sum_near(a, d);
        lemma_near_exact(b);
        let end = sum_of(a, d);
        assert(equal(end, b)) by {
            reveal(equal);
        }
        lemma_chain(end, b, b);
        lemma_chain(v, end, b);
        lemma_chain(b, end, v);
    }
}

/// The place of a track: two keys on a grid of times and a grid of values, and a time that is
/// `q` parts of two to the power `s` of the way from the one to the other.
pub open spec fn part_way(
    a: Key,
    b: Key,
    time: Num,
    q: int,
    s: nat,
    i: int,
    m: int,
    g: nat,
) -> bool {
    &&& s <= 20 && s <= g <= 1500
    &&& 0 < q < pow2(s)
    &&& m > 0
    &&& -0x1_0000_0000 < i < 0x1_0000_0000
    &&& m * pow2(s) < 0x1_0000_0000
    &&& is_at(a.t, i, g)
    &&& is_at(b.t, i + m * pow2(s), g)
    &&& is_at(time, i + m * q, g)
}

/// A track is a straight line between its keys, bent by the ease of the key it goes to: a part
/// of the way in time, eased, is that part of the way in value. Stated exactly, for times and
/// values that need no rounding.
pub proof fn lemma_share_of_the_way(
    keys: Seq<Key>,
    j: int,
    time: Num,
    q: int,
    r: int,
    s: nat,
    i: int,
    m: int,
    g: nat,
    p: int,
    d: int,
    w: nat,
)
    requires
        rising(keys),
        0 <= j && j + 1 < keys.len(),
        part_way(keys[j], keys[j + 1], time, q, s, i, m, g),
        s <= w <= 1500,
        is_at(keys[j].v, p, w),
        is_at(keys[j + 1].v, p + d * pow2(s), w),
        0 <= r <= pow2(s),
        -0x1_0000_0000 < p < 0x1_0000_0000,
        -0x1000 < d < 0x1000,
        keys[j + 1].ease == Easing::Linear ==> r == q,
        keys[j + 1].ease != Easing::Linear ==> forall|f: Num|
            #![trigger keys[j + 1].ease.eased(f)]
            is_at(f, q, (1074 - s) as nat) ==> is_at(
                keys[j + 1].ease.eased(f),
                r,
                (1074 - s) as nat,
            ),
    ensures
        sampled(keys, time) matches Some(v) && is_at(v, p + d * r, w),
{
    reveal(sampled);
    let (a, b) = (keys[j], keys[j + 1]);
    lemma_pow2_pos(s);
    lemma2_to64();
    let ps = pow2(s) as int;
    lemma_parts(s);
    assert(0 < m * q < m * ps) by (nonlinear_arith)
        requires
            m > 0,
            0 < q < ps,
    ;
    lemma_compare_at(a.t, time, i, i + m * q, g);
    lemma_compare_at(time, b.t, i + m * q, i + m * ps, g);
    lemma_before_end(keys, j, time);
    lemma_next_key(keys, j, time, 0);
    let zero = num(0);
    let span = sum_of(b.t, opposite_of(a.t));
    let gone = sum_of(time, opposite_of(a.t));
    lemma_difference_at(b.t, a.t, i + m * ps, i, g);
    lemma_difference_at(time, a.t, i + m * q, i, g);
    lemma_small_whole();
    assert(is_at(zero, 0, g));
    lemma_compare_at(span, zero, m * ps, 0, g);
    // The part of the way in time.
    let f = (g - s) as nat;
    lemma_finer(gone, m * q, g, f);
    assert((m * q) * ps == q * (m * ps)) by (nonlinear_arith);
    lemma_quotient_at(gone, span, q, m * ps, f, g);
    let t = quotient_of(gone, span);
    let h = (1074 - s) as nat;
    assert(is_at(t, q, h));
    let e = b.ease.eased(t);
    if b.ease == Easing::Linear {
        reveal(Easing::eased);
        lemma_finer(num(ONE), 1, 1074, h);
        assert(is_at(zero, 0, h));
        lemma_compare_at(t, zero, q, 0, h);
        lemma_compare_at(num(ONE), t, 1 * ps, q, h);
    }
    assert(is_at(e, r, h));
    // And in value.
    let whole = sum_of(b.v, opposite_of(a.v));
    assert(-0x1_0000_0000 <= d * ps <= 0x1_0000_0000) by (nonlinear_arith)
        requires
            -0x1000 < d < 0x1000,
            0 < ps <= 0x10_0000,
    ;
    lemma_difference_at(b.v, a.v, p + d * ps, p, w);
    assert(-0x10_0000_0000_0000 <= (d * ps) * r <= 0x10_0000_0000_0000) by (nonlinear_arith)
        requires
            -0x1_0000_0000 <= d * ps <= 0x1_0000_0000,
            0 <= r <= ps,
            ps <= 0x10_0000,
    ;
    lemma_product_at(whole, e, d * ps, r, w, h);
    let along = product_of(whole, e);
    let fine = (w + h - 1074) as nat;
    lemma_pow2_adds(s, fine);
    let (pf, pw) = (pow2(fine) as int, pow2(w) as int);
    assert(((d * ps) * r) * pf == (d * r) * pw) by (nonlinear_arith)
        requires
            ps * pf == pw,
    ;
    assert(is_at(along, d * r, w));
    assert(-0x1_0000_0000 <= d * r <= 0x1_0000_0000) by (nonlinear_arith)
        requires
            -0x1000 < d < 0x1000,
            0 <= r <= ps,
            ps <= 0x10_0000,
    ;
    lemma_sum_at(a.v, along, p, d * r, w);
}

/// A change in one move: no steps, nothing on top, and a time it takes.
pub open spec fn single(m: Moves) -> bool {
    m.step is None && m.offset.len() == 0 && m.duration.finite() && less(num(0), m.duration)
}

/// A change in one move, on no ring.
pub open spec fn simple(m: Moves) -> bool {
    single(m) && m.wrap is None
}

/// A change takes one move where it is not divided into steps.
proof fn lemma_one_move(m: Moves, distance: Num)
    requires
        m.step is None,
        distance.finite() && less(num(0), distance),
    ensures
        m.unit(distance) == distance,
        m.count(distance) == num(ONE),
{
    lemma_small_sizes();
    lemma_small_whole();
    let one = num(ONE);
    let d = distance.size();
    let u = one_unit();
    lemma_size_zero(distance);
    assert(!distance.negative() && d > 0) by {
        reveal(less);
    }
    assert(quotient_of(distance, distance) == one) by {
        reveal(quotient_of);
        lemma_pow2_pos(1074);
        assert(d * u == (1 * pow2(1074)) * d) by (nonlinear_arith)
            requires
                u == pow2(1074),
        ;
        crate::order::lemma_rounded_within(d * u, d, 1, 1, 1074);
        let x = quotient_of(distance, distance);
        assert(is_whole(x, 1));
        lemma_compare_at(x, one, 1, 1, 1074);
    }
    lemma_just_below(one, 1);
    lemma_compare(one, one);
}

/// A whole number less a hair, rounded up, is the number.
proof fn lemma_just_below(x: Num, k: int)
    requires
        is_whole(x, k),
        1 <= k <= 0x10_0000,
    ensures
        opposite_of(floor_of(opposite_of(sum_of(x, opposite_of(num(MOVE_SLACK)))))) == x,
{
    lemma_small_sizes();
    lemma2_to64();
    lemma_pow2_pos(1044);
    lemma_pow2_pos(1074);
    lemma_pow2_adds(30, 1044);
    vstd::arithmetic::power2::lemma2_to64_rest();
    let hair = num(MOVE_SLACK);
    let u = one_unit() as int;
    let v = pow2(1044) as int;
    // The hair is more than one part in 2^30, and less than two.
    assert(hair.step() == 992 && hair.mantissa() == 0x11_2E0B_E826_D695);
    lemma_pow2_adds(52, 992);
    let p = pow2(992) as int;
    lemma_pow2_pos(992);
    assert(v <= hair.size() <= 2 * v) by (nonlinear_arith)
        requires
            hair.size() == 0x11_2E0B_E826_D695 * p,
            v == 0x10_0000_0000_0000 * p,
            p > 0,
    ;
    assert(u == 0x4000_0000 * v);
    lemma_opposite(hair);
    let n = x.units() - hair.size();
    let w = sum_of(x, opposite_of(hair));
    lemma_sum_near(x, opposite_of(hair));
    let lo = 0x4000_0000 * k - 2;
    let hi = 0x4000_0000 * k - 1;
    assert(lo * v <= n <= hi * v) by (nonlinear_arith)
        requires
            n == k * u - hair.size(),
            u == 0x4000_0000 * v,
            v <= hair.size() <= 2 * v,
            lo == 0x4000_0000 * k - 2,
            hi == 0x4000_0000 * k - 1,
    ;
    assert(lo * v > 0) by (nonlinear_arith)
        requires
            lo > 0,
            v > 0,
    ;
    crate::order::lemma_rounded_within(n as nat, 1, lo as nat, hi as nat, 1044);
    let y = near(n, 1);
    assert(w.rank() == y.rank());
    assert(w.finite() && !w.negative() && w.size() == y.size()) by {
        lemma_size_zero(y);
        lemma_size_zero(w);
        crate::num::lemma_size_at_least(y, w);
        crate::num::lemma_size_at_least(w, y);
    }
    let s = w.size() as int;
    lemma_opposite(w);
    let neg = opposite_of(w);
    reveal(floor_of);
    assert((s + u - 1) / u == k) by {
        assert((k - 1) * u < s <= k * u) by (nonlinear_arith)
            requires
                lo * v <= s <= hi * v,
                u == 0x4000_0000 * v,
                lo == 0x4000_0000 * k - 2,
                hi == 0x4000_0000 * k - 1,
                v > 0,
        ;
        assert((k - 1) * u == k * u - u) by (nonlinear_arith);
        vstd::arithmetic::div_mod::lemma_fundamental_div_mod_converse(
            s + u - 1,
            u,
            k,
            s + u - 1 - k * u,
        );
    }
    let f = floor_of(neg);
    let n2 = (k * u) as nat;
    assert((k * pow2(1074)) * 1 == n2);
    crate::order::lemma_rounded_within(n2, 1, k as nat, k as nat, 1074);
    crate::order::lemma_rounded_sign(n2, 1);
    assert(f == rounded(true, n2, 1));
    lemma_opposite(f);
    let r = opposite_of(f);
    assert(is_whole(r, k));
    lemma_compare_at(r, x, k, k, 1074);
}

/// What a change in one move comes to before it is over: a share of the way, added to where it
/// started, and folded onto its ring. The share is that of the ease.
proof fn lemma_single_change(m: Moves, start: Num, target: Num, elapsed: Num) -> (r: (Num, Num))
    requires
        single(m),
        start.finite() && target.finite(),
        m.delta(start, target).finite() && !m.delta(start, target).zero(),
        !elapsed.nan(),
        less(elapsed, m.duration),
        !elapsed.negative(),
    ensures
        r.1 == m.ease.eased(quotient_of(e_local(elapsed), m.duration)),
        m.value(start, target, elapsed) == m.on_ring(r.0),
        r.1.finite() && product_of(m.delta(start, target), r.1).finite() ==> equal(
            r.0,
            sum_of(start, product_of(m.delta(start, target), r.1)),
        ),
{
    reveal(Moves::value);
    let zero = num(0);
    let one = num(ONE);
    lemma_small_sizes();
    lemma_small_whole();
    let delta = m.delta(start, target);
    let distance = abs_of(delta);
    assert(distance.finite() && distance.size() == delta.size() && !distance.negative()) by {
        reveal(abs_of);
        assert(distance.magnitude_bits() == delta.magnitude_bits());
    }
    assert(less(zero, distance)) by {
        reveal(less);
        reveal(abs_of);
    }
    lemma_chain(zero, distance, zero);
    assert(!equal(distance, zero)) by {
        reveal(less);
        reveal(equal);
    }
    lemma_one_move(m, distance);
    let period = m.period();
    lemma_chain(zero, m.duration, zero);
    assert(period == m.duration) by {
        reveal(less);
    }
    lemma_times_one(period);
    lemma_chain(elapsed, period, elapsed);
    lemma_chain(period, elapsed, period);
    let past = max_of(elapsed, zero);
    assert(past == e_local(elapsed));
    assert(past.finite() && !past.negative()) by {
        reveal(less);
        reveal(equal);
    }
    // The first move, which is the only one.
    lemma_minus_self(one);
    let f = floor_of(quotient_of(past, period));
    let index = min_of(f, zero);
    assert(index == zero) by {
        lemma_floor_of_share(past, period);
        lemma_chain(zero, f, zero);
    }
    lemma_times_zero(period, zero);
    let none = product_of(zero, period);
    lemma_opposite(none);
    let local = sum_of(past, opposite_of(none));
    assert(local == past) by {
        reveal(product_of);
        lemma_plus_zero(past, opposite_of(none));
        lemma_plain_rest(past, period);
    }
    lemma_times_zero(distance, zero);
    let covered = product_of(zero, distance);
    lemma_opposite(covered);
    lemma_plus_zero(distance, opposite_of(covered));
    lemma_size_zero(distance);
    let left = sum_of(distance, opposite_of(covered));
    assert(left == distance);
    let length = min_of(left, distance);
    assert(length == distance);
    let e = m.ease.eased(quotient_of(local, m.duration));
    assert(sampled(m.offset, local) is None) by {
        reveal(sampled);
    }
    if e.finite() && product_of(delta, e).finite() {
        lemma_signed_sum(start, delta, distance, e, covered);
    }
    let extra = num(0);
    let along = sum_of(covered, product_of(length, e));
    (sum_of(start, product_of(crate::model::sign_of(delta), sum_of(along, extra))), e)
}

/// The same, where there is no ring.
pub(crate) proof fn lemma_simple_change(m: Moves, start: Num, target: Num, elapsed: Num) -> (e: Num)
    requires
        simple(m),
        start.finite() && target.finite(),
        sum_of(target, opposite_of(start)).finite(),
        !equal(start, target),
        !elapsed.nan(),
        less(elapsed, m.duration),
        !elapsed.negative(),
    ensures
        e == m.ease.eased(quotient_of(e_local(elapsed), m.duration)),
        e.finite() && product_of(sum_of(target, opposite_of(start)), e).finite() ==> equal(
            m.value(start, target, elapsed),
            sum_of(start, product_of(sum_of(target, opposite_of(start)), e)),
        ),
{
    lemma_difference_sign(start, target);
    lemma_compare(start, target);
    lemma_compare(target, start);
    assert(!m.delta(start, target).zero()) by {
        reveal(less);
    }
    lemma_single_change(m, start, target, elapsed).1
}

/// How far into a change an instant is.
pub open spec fn e_local(elapsed: Num) -> Num {
    max_of(elapsed, num(0))
}

/// Taking nothing away leaves a number that is not below nothing as it is.
proof fn lemma_plain_rest(past: Num, period: Num)
    requires
        past.finite() && !past.negative(),
        period.finite() && less(num(0), period),
    ensures
        sum_of(past, opposite_of(product_of(num(0), period))) == past,
{
    let zero = num(0);
    lemma_times_zero(period, zero);
    let none = product_of(zero, period);
    lemma_opposite(none);
    lemma_plus_zero(past, opposite_of(none));
    lemma_size_zero(past);
    assert(!none.negative()) by {
        reveal(product_of);
        reveal(rounded);
        reveal(less);
        lemma_small_sizes();
        lemma_size_zero(zero);
        let u = one_unit();
        assert(0 * period.size() == 0);
        assert(u * 2 * HIDDEN > 0) by (nonlinear_arith)
            requires
                u > 0,
        ;
        assert(0int / u as int == 0 && 0int % u as int == 0);
        assert(crate::num::magnitude(0, u) == 0);
    }
    if past.zero() {
        reveal(sum_of);
        reveal(less);
        reveal(equal);
        lemma_size_zero(opposite_of(none));
    }
}

/// The whole part of a share is nothing, or more.
proof fn lemma_floor_of_share(past: Num, period: Num)
    requires
        past.finite() && !past.negative(),
        period.finite() && less(num(0), period),
    ensures
        ({
            let f = floor_of(quotient_of(past, period));
            !f.nan() && (f == num(0) || less(num(0), f))
        }),
{
    reveal(quotient_of);
    reveal(floor_of);
    reveal(rounded);
    reveal(less);
    reveal(equal);
    let zero = num(0);
    lemma_small_sizes();
    lemma_size_zero(period);
    let q = quotient_of(past, period);
    assert(!q.negative() && !q.nan());
    if q.finite() {
        let u = one_unit();
        let n = (q.size() / u) * u;
        assert(n >= 0);
        let f = floor_of(q);
        assert(!f.negative() && !f.nan());
    }
}

/// Going a share of a distance in the direction of a difference is going that share of the
/// difference.
proof fn lemma_signed_sum(start: Num, delta: Num, distance: Num, e: Num, covered: Num)
    requires
        start.finite() && delta.finite() && e.finite(),
        distance == abs_of(delta),
        covered.zero(),
        product_of(delta, e).finite(),
    ensures
        equal(
            sum_of(
                start,
                product_of(
                    crate::model::sign_of(delta),
                    sum_of(sum_of(covered, product_of(distance, e)), num(0)),
                ),
            ),
            sum_of(start, product_of(delta, e)),
        ),
{
    let zero = num(0);
    lemma_small_sizes();
    reveal(abs_of);
    assert(distance.magnitude_bits() == delta.magnitude_bits());
    assert(distance.size() == delta.size());
    let p = product_of(distance, e);
    let d = product_of(delta, e);
    let u = one_unit();
    lemma_pow2_pos(1074);
    let (x, y) = (delta.units(), e.units());
    let n = x * y;
    assert((-x) * y == -n) by (nonlinear_arith)
        requires
            n == x * y,
    ;
    crate::exact::lemma_product_near(distance, e);
    crate::exact::lemma_product_near(delta, e);
    lemma_mirrored(n, u);
    assert(p.finite());
    let a = sum_of(covered, p);
    lemma_plus_zero(p, covered);
    assert(a.finite() && a.rank() == p.rank()) by {
        reveal(equal);
    }
    let b = sum_of(a, zero);
    lemma_size_zero(zero);
    lemma_plus_zero(a, zero);
    assert(b.finite() && b.rank() == p.rank()) by {
        reveal(equal);
    }
    let sign = crate::model::sign_of(delta);
    let c = product_of(sign, b);
    lemma_opposite(num(ONE));
    lemma_times_one(b);
    crate::exact::lemma_product_near(num(ONE), b);
    if delta.negative() {
        crate::exact::lemma_product_near(sign, b);
        let bu = b.units();
        assert((-(u as int)) * bu == -(u * bu)) by (nonlinear_arith);
        lemma_mirrored(u * bu, u);
    }
    // The two products are the same number of units.
    assert(c.rank() == d.rank());
    assert(c.finite() && d.finite());
    lemma_same_value(c, d);
    lemma_sum_near(start, c);
    lemma_sum_near(start, d);
    reveal(equal);
}

/// Rounding treats both signs alike.
proof fn lemma_mirrored(n: int, d: nat)
    requires
        d > 0,
    ensures
        near(-n, d).rank() == -near(n, d).rank(),
{
    let m = (if n < 0 { -n } else { n }) as nat;
    crate::order::lemma_rounded_sign(m, d);
    if n == 0 {
        reveal(rounded);
        assert(d * 2 * HIDDEN > 0) by (nonlinear_arith)
            requires
                d > 0,
        ;
        assert(0int / d as int == 0 && 0int % d as int == 0);
        assert(crate::num::magnitude(0, d) == 0);
    }
}

/// Finite numbers of one rank have one value.
proof fn lemma_same_value(x: Num, y: Num)
    requires
        x.finite() && y.finite(),
        x.rank() == y.rank(),
    ensures
        x.units() == y.units(),
{
    lemma_compare(x, y);
    assert(equal(x, y)) by {
        reveal(equal);
    }
}

/// A change with an ease that does not overshoot never leaves the way from where it starts to
/// where it goes, whichever of the two is larger: it never turns back behind its start, and where
/// the difference is exact it never passes its target.
pub proof fn lemma_change_between(m: Moves, start: Num, target: Num, elapsed: Num)
    requires
        simple(m),
        gentle(m.ease),
        start.finite() && target.finite(),
        sum_of(target, opposite_of(start)).finite(),
        !elapsed.nan() && !elapsed.negative(),
    ensures
        ({
            let v = m.value(start, target, elapsed);
            let d = sum_of(target, opposite_of(start));
            &&& less(start, target) ==> at_most(start, v)
            &&& less(target, start) ==> at_most(v, start)
            &&& amid(v, start, sum_of(start, d)) || v == target
            &&& d.units() == target.units() - start.units() ==> amid(v, start, target)
        }),
{
    lemma_compare(start, target);
    lemma_compare(target, start);
    let v = m.value(start, target, elapsed);
    if equal(start, target) || !less(elapsed, m.duration) {
        lemma_change_over(m, start, target, elapsed);
        lemma_compare(target, target);
        lemma_chain(start, target, v);
        lemma_chain(target, start, v);
    } else {
        let e = lemma_simple_change(m, start, target, elapsed);
        let t = quotient_of(e_local(elapsed), m.duration);
        assert(!t.nan()) by {
            reveal(quotient_of);
            reveal(rounded);
            reveal(less);
            reveal(equal);
        }
        lemma_eased_within(m.ease, t);
        lemma_toward(start, target, e);
        let w = sum_of(start, product_of(sum_of(target, opposite_of(start)), e));
        assert(e.finite()) by {
            reveal(less);
            reveal(equal);
            lemma_small_sizes();
        }
        let d = sum_of(target, opposite_of(start));
        let end = sum_of(start, d);
        lemma_chain(start, w, v);
        lemma_chain(v, w, start);
        lemma_chain(end, w, v);
        lemma_chain(v, w, end);
        lemma_chain(target, w, v);
        lemma_chain(v, w, target);
        lemma_chain(w, v, v);
    }
}

/// A change that is over, or goes nowhere, stands at its target.
proof fn lemma_change_over(m: Moves, start: Num, target: Num, elapsed: Num)
    requires
        simple(m),
        start.finite() && target.finite(),
        sum_of(target, opposite_of(start)).finite(),
        !elapsed.nan(),
        equal(start, target) || !less(elapsed, m.duration),
    ensures
        m.value(start, target, elapsed) == target,
{
    reveal(Moves::value);
    let zero = num(0);
    let delta = sum_of(target, opposite_of(start));
    lemma_difference_sign(start, target);
    lemma_compare(start, target);
    lemma_compare(target, start);
    let distance = abs_of(delta);
    lemma_small_sizes();
    reveal(abs_of);
    assert(distance.magnitude_bits() == delta.magnitude_bits());
    assert(equal(start, target) ==> equal(distance, zero)) by {
        reveal(equal);
    }
    if !equal(start, target) {
        assert(less(zero, distance)) by {
            reveal(less);
        }
        lemma_one_move(m, distance);
        lemma_chain(zero, m.duration, zero);
        assert(m.period() == m.duration) by {
            reveal(less);
        }
        lemma_times_one(m.duration);
        lemma_chain(elapsed, m.duration, elapsed);
    }
}

/// How many parts there can be.
pub(crate) proof fn lemma_parts(s: nat)
    requires
        s <= 20,
    ensures
        0 < pow2(s) <= 0x10_0000,
{
    lemma_pow2_pos(s);
    if s < 20 {
        vstd::arithmetic::power2::lemma_pow2_strictly_increases(s, 20);
    }
    lemma2_to64();
    vstd::arithmetic::power2::lemma2_to64_rest();
}

/// A part of the time a change takes is that part of its way: its share is the part.
proof fn lemma_part_of_time(elapsed: Num, duration: Num, q: int, n: int, s: nat, g: nat) -> (t: Num)
    requires
        s <= 20 && s <= g <= 1500,
        0 <= q < pow2(s),
        n > 0,
        n * pow2(s) < 0x1_0000_0000,
        is_at(duration, n * pow2(s), g),
        is_at(elapsed, n * q, g),
        !elapsed.negative(),
    ensures
        t == quotient_of(e_local(elapsed), duration),
        is_at(t, q, (1074 - s) as nat),
        less(elapsed, duration),
        less(num(0), duration),
        clamp_of(t, num(0), num(ONE)) == t,
{
    lemma_small_whole();
    lemma_pow2_pos(s);
    let ps = pow2(s) as int;
    let zero = num(0);
    assert(0 <= n * q < n * ps) by (nonlinear_arith)
        requires
            n > 0,
            0 <= q < ps,
    ;
    assert(is_at(zero, 0, g));
    lemma_compare_at(elapsed, duration, n * q, n * ps, g);
    lemma_compare_at(zero, duration, 0, n * ps, g);
    lemma_compare_at(elapsed, zero, n * q, 0, g);
    assert(e_local(elapsed) == elapsed);
    let f = (g - s) as nat;
    lemma_finer(elapsed, n * q, g, f);
    assert((n * q) * ps == q * (n * ps)) by (nonlinear_arith);
    lemma_parts(s);
    lemma_quotient_at(elapsed, duration, q, n * ps, f, g);
    let t = quotient_of(e_local(elapsed), duration);
    let h = (1074 - s) as nat;
    lemma_finer(num(ONE), 1, 1074, h);
    assert(is_at(zero, 0, h));
    lemma_compare_at(t, zero, q, 0, h);
    lemma_compare_at(num(ONE), t, 1 * ps, q, h);
    t
}

/// The share of a change that has come a part of its time: the part where the ease is linear.
pub open spec fn shares(ease: Easing, q: int, r: int, s: nat) -> bool {
    &&& 0 <= r <= pow2(s)
    &&& ease == Easing::Linear ==> r == q
    &&& ease != Easing::Linear ==> forall|f: Num|
        #![trigger ease.eased(f)]
        is_at(f, q, (1074 - s) as nat) ==> is_at(ease.eased(f), r, (1074 - s) as nat)
}

/// A share of a way, exactly.
pub(crate) proof fn lemma_way_at(
    start: Num,
    way: Num,
    e: Num,
    p: int,
    d: int,
    r: int,
    s: nat,
    w: nat,
)
    requires
        s <= 20 && s <= w <= 1500,
        0 <= r <= pow2(s),
        is_at(start, p, w),
        is_at(way, d * pow2(s), w),
        is_at(e, r, (1074 - s) as nat),
        -0x1_0000_0000 < p < 0x1_0000_0000,
        -0x1000 < d < 0x1000,
    ensures
        is_at(sum_of(start, product_of(way, e)), p + d * r, w),
        product_of(way, e).finite(),
        -0x1_0000_0000 <= d * r <= 0x1_0000_0000,
{
    lemma_pow2_pos(s);
    lemma2_to64();
    let ps = pow2(s) as int;
    let h = (1074 - s) as nat;
    lemma_parts(s);
    assert(-0x1_0000_0000 <= d * ps <= 0x1_0000_0000) by (nonlinear_arith)
        requires
            -0x1000 < d < 0x1000,
            0 < ps <= 0x10_0000,
    ;
    assert(-0x10_0000_0000_0000 <= (d * ps) * r <= 0x10_0000_0000_0000) by (nonlinear_arith)
        requires
            -0x1_0000_0000 <= d * ps <= 0x1_0000_0000,
            0 <= r <= ps,
            ps <= 0x10_0000,
    ;
    lemma_product_at(way, e, d * ps, r, w, h);
    let along = product_of(way, e);
    let fine = (w + h - 1074) as nat;
    lemma_pow2_adds(s, fine);
    let (pf, pw) = (pow2(fine) as int, pow2(w) as int);
    assert(((d * ps) * r) * pf == (d * r) * pw) by (nonlinear_arith)
        requires
            ps * pf == pw,
    ;
    assert(-0x1_0000_0000 <= d * r <= 0x1_0000_0000) by (nonlinear_arith)
        requires
            -0x1000 < d < 0x1000,
            0 <= r <= ps,
            ps <= 0x10_0000,
    ;
    lemma_sum_at(start, along, p, d * r, w);
}

pub(crate) proof fn lemma_same_place(x: Num, y: Num, k: int, t: nat)
    requires
        equal(x, y),
        is_at(y, k, t),
    ensures
        is_at(x, k, t),
{
    reveal(equal);
    lemma_same_value(x, y);
}

/// A change goes straight from where it starts to where it goes, bent by its ease: a part of its
/// time, eased, is that part of its way. Stated exactly, for numbers that need no rounding.
pub proof fn lemma_change_part_way(
    m: Moves,
    start: Num,
    target: Num,
    elapsed: Num,
    q: int,
    r: int,
    s: nat,
    n: int,
    g: nat,
    p: int,
    d: int,
    w: nat,
)
    requires
        simple(m),
        s <= 20 && s <= g <= 1500 && s <= w <= 1500,
        0 <= q < pow2(s),
        n > 0,
        n * pow2(s) < 0x1_0000_0000,
        is_at(m.duration, n * pow2(s), g),
        is_at(elapsed, n * q, g) && !elapsed.negative(),
        shares(m.ease, q, r, s),
        is_at(start, p, w),
        is_at(target, p + d * pow2(s), w),
        -0x1_0000_0000 < p < 0x1_0000_0000,
        -0x1000 < d < 0x1000,
    ensures
        is_at(m.value(start, target, elapsed), p + d * r, w),
{
    lemma_pow2_pos(s);
    let ps = pow2(s) as int;
    lemma_parts(s);
    assert(-0x1_0000_0000 <= d * ps <= 0x1_0000_0000) by (nonlinear_arith)
        requires
            -0x1000 < d < 0x1000,
            0 < ps <= 0x10_0000,
    ;
    let way = sum_of(target, opposite_of(start));
    lemma_difference_at(target, start, p + d * ps, p, w);
    lemma_compare_at(start, target, p, p + d * ps, w);
    let t = lemma_part_of_time(elapsed, m.duration, q, n, s, g);
    if equal(start, target) {
        assert(d == 0) by (nonlinear_arith)
            requires
                d * ps == 0,
                ps > 0,
        ;
        lemma_change_over(m, start, target, elapsed);
    } else {
        let e = lemma_simple_change(m, start, target, elapsed);
        reveal(Easing::eased);
        lemma_way_at(start, way, e, p, d, r, s, w);
        lemma_same_place(
            m.value(start, target, elapsed),
            sum_of(start, product_of(way, e)),
            p + d * r,
            w,
        );
    }
}

/// A way round a ring of a size, in the direction asked for: forward it is at least nothing and
/// less than once round, backward the same below nothing, and else it is the shorter one, forward
/// on a tie.
pub open spec fn goes_round(direction: Option<Direction>, way: int, ring: int) -> bool {
    match direction {
        Some(Direction::Forward) => 0 <= way < ring,
        Some(Direction::Backward) => -ring < way <= 0,
        _ => -ring < 2 * way <= ring,
    }
}

proof fn lemma_rest_of_way(way: int, p: int, z: int, ring: int)
    requires
        ring > 0,
        (p + way - z) % ring == 0,
        -ring < way < ring,
    ensures
        (z - p) % ring == (if way >= 0 {
            way
        } else {
            way + ring
        }),
{
    vstd::arithmetic::div_mod::lemma_fundamental_div_mod(p + way - z, ring);
    let k = (p + way - z) / ring;
    let rest = if way >= 0 {
        way
    } else {
        way + ring
    };
    let j = if way >= 0 {
        -k
    } else {
        -k - 1
    };
    assert(z - p == j * ring + rest) by (nonlinear_arith)
        requires
            p + way - z == ring * k,
            rest == (if way >= 0 {
                way
            } else {
                way + ring
            }),
            j == (if way >= 0 {
                -k
            } else {
                -k - 1
            }),
    ;
    vstd::arithmetic::div_mod::lemma_fundamental_div_mod_converse(z - p, ring, j, rest);
}

/// On a ring a change goes the way round that its direction asks for, and stands at the place it
/// has reached, counted round the ring. Stated exactly, for numbers that need no rounding.
pub proof fn lemma_change_round(
    m: Moves,
    start: Num,
    target: Num,
    elapsed: Num,
    q: int,
    r: int,
    s: nat,
    n: int,
    g: nat,
    p: int,
    z: int,
    ring: int,
    d: int,
    w: nat,
)
    requires
        single(m),
        s <= 20 && s <= g <= 1500 && 1 <= w && s <= w <= 1500,
        0 <= q < pow2(s),
        n > 0,
        n * pow2(s) < 0x1_0000_0000,
        is_at(m.duration, n * pow2(s), g),
        is_at(elapsed, n * q, g) && !elapsed.negative(),
        shares(m.ease, q, r, s),
        m.wrap matches Some(wrap) && is_at(wrap, ring, w),
        0 < ring < 0x1_0000_0000,
        is_at(start, p, w),
        is_at(target, z, w),
        -0x1_0000_0000 < p < 0x1_0000_0000,
        -0x1_0000_0000 < z < 0x1_0000_0000,
        -0x1000 < d < 0x1000,
        goes_round(m.direction, d * pow2(s) as int, ring),
        (p + d * pow2(s) - z) % ring == 0,
    ensures
        is_at(m.value(start, target, elapsed), (p + d * r) % ring, w),
{
    lemma_pow2_pos(s);
    lemma_small_whole();
    let zero = num(0);
    let ps = pow2(s) as int;
    let way = d * ps;
    let wrap = m.wrap->0;
    lemma_rest_of_way(way, p, z, ring);
    let straight = sum_of(target, opposite_of(start));
    lemma_difference_at(target, start, z, p, w);
    lemma_rem_at(straight, wrap, z - p, ring, w);
    let forward = crate::num::rem_euclid_of(straight, wrap);
    let f = (z - p) % ring;
    vstd::arithmetic::div_mod::lemma_mod_bound(z - p, ring);
    assert(is_at(zero, 0, w));
    lemma_compare_at(forward, zero, f, 0, w);
    lemma_difference_at(forward, wrap, f, ring, w);
    let half = quotient_of(wrap, num(TWO));
    let finer = (w - 1) as nat;
    lemma2_to64();
    lemma_finer(wrap, ring, w, finer);
    lemma_finer(forward, f, w, finer);
    lemma_quotient_at(wrap, num(TWO), ring, 2, finer, 1074);
    lemma_compare_at(half, forward, ring, f * 2, finer);
    let delta = m.delta(start, target);
    assert(is_at(delta, way, w));
    let t = lemma_part_of_time(elapsed, m.duration, q, n, s, g);
    lemma_size_zero(delta);
    lemma_pow2_pos(w);
    let pw = pow2(w) as int;
    assert((way * pw == 0) == (way == 0)) by (nonlinear_arith)
        requires
            pw > 0,
    ;
    if delta.zero() {
        assert(d == 0) by (nonlinear_arith)
            requires
                d * ps == 0,
                ps > 0,
        ;
        assert(m.value(start, target, elapsed) == m.on_ring(target)) by {
            reveal(Moves::value);
            reveal(abs_of);
            assert(abs_of(delta).magnitude_bits() == 0);
            assert(equal(abs_of(delta), zero)) by {
                reveal(equal);
            }
        }
        lemma_rem_at(target, wrap, z, ring, w);
        assert(z % ring == p % ring) by {
            vstd::arithmetic::div_mod::lemma_fundamental_div_mod(p - z, ring);
            let k = (p - z) / ring;
            assert(p == ring * k + z) by (nonlinear_arith)
                requires
                    p - z == ring * k,
            ;
            vstd::arithmetic::div_mod::lemma_mod_multiples_vanish(k, z, ring);
        }
    } else {
        let (x, e) = lemma_single_change(m, start, target, elapsed);
        reveal(Easing::eased);
        lemma_way_at(start, delta, e, p, d, r, s, w);
        lemma_same_place(x, sum_of(start, product_of(delta, e)), p + d * r, w);
        lemma_rem_at(x, wrap, p + d * r, ring, w);
    }
}

/// With a linear ease a change only ever comes nearer: later it is at least as far on its way.
pub proof fn lemma_change_comes_nearer(
    m: Moves,
    start: Num,
    target: Num,
    sooner: Num,
    later: Num,
)
    requires
        simple(m),
        m.ease == Easing::Linear,
        start.finite() && target.finite(),
        sum_of(target, opposite_of(start)).finite(),
        sooner.finite() && !sooner.negative() && later.finite() && !later.negative(),
        at_most(sooner, later) && less(later, m.duration),
    ensures
        less(start, target) ==> at_most(
            m.value(start, target, sooner),
            m.value(start, target, later),
        ),
        less(target, start) ==> at_most(
            m.value(start, target, later),
            m.value(start, target, sooner),
        ),
{
    lemma_compare(start, target);
    lemma_compare(target, start);
    lemma_chain(sooner, later, m.duration);
    if !equal(start, target) {
        let zero = num(0);
        let one = num(ONE);
        lemma_small_sizes();
        lemma_size_zero(zero);
        let e1 = lemma_simple_change(m, start, target, sooner);
        let e2 = lemma_simple_change(m, start, target, later);
        reveal(Easing::eased);
        let (t1, t2) = (
            quotient_of(e_local(sooner), m.duration),
            quotient_of(e_local(later), m.duration),
        );
        lemma_fraction(sooner, m.duration);
        lemma_fraction(later, m.duration);
        lemma_compare(sooner, later);
        lemma_compare(later, m.duration);
        lemma_compare(zero, m.duration);
        lemma_size_zero(m.duration);
        assert(e_local(sooner).size() <= e_local(later).size());
        crate::order::lemma_quotient_rises(e_local(sooner), e_local(later), m.duration);
        lemma_compare(t1, zero);
        lemma_compare(t2, zero);
        lemma_compare(one, t1);
        lemma_compare(one, t2);
        assert(e1 == t1 && e2 == t2);
        let d = sum_of(target, opposite_of(start));
        lemma_difference_sign(start, target);
        lemma_compare(zero, t1);
        lemma_compare(t1, one);
        lemma_compare(zero, t2);
        lemma_compare(t2, one);
        lemma_share_between(d, t1);
        lemma_share_between(d, t2);
        crate::exact::lemma_product_near(d, t1);
        crate::exact::lemma_product_near(d, t2);
        let (a, b, c) = (d.units(), t1.units(), t2.units());
        lemma_compare(zero, d);
        lemma_compare(d, zero);
        assert(a >= 0 ==> a * b <= a * c) by (nonlinear_arith)
            requires
                b <= c,
        ;
        assert(a <= 0 ==> a * c <= a * b) by (nonlinear_arith)
            requires
                b <= c,
        ;
        lemma_pow2_pos(1074);
        let (p1, p2) = (product_of(d, t1), product_of(d, t2));
        if a >= 0 {
            lemma_near_rises(a * b, a * c, one_unit());
            assert(at_most(p1, p2)) by {
                reveal(less);
                reveal(equal);
            }
            lemma_sum_order(p1, p2, start);
        }
        if a <= 0 {
            lemma_near_rises(a * c, a * b, one_unit());
            assert(at_most(p2, p1)) by {
                reveal(less);
                reveal(equal);
            }
            lemma_sum_order(p2, p1, start);
        }
        let (v1, v2) = (m.value(start, target, sooner), m.value(start, target, later));
        let (w1, w2) = (sum_of(start, p1), sum_of(start, p2));
        lemma_chain(v1, w1, w2);
        lemma_chain(v1, w2, v2);
        lemma_chain(v2, w2, w1);
        lemma_chain(v2, w1, v1);
        lemma_chain(w2, v2, v2);
        lemma_chain(w1, v1, v1);
    }
}

/// A time within a duration is a fraction of it.
proof fn lemma_fraction(x: Num, d: Num)
    requires
        x.finite() && !x.negative() && d.finite(),
        less(x, d),
        less(num(0), d),
    ensures
        ({
            let t = quotient_of(e_local(x), d);
            crate::order::counts(t) && t.size() <= one_unit()
        }),
        crate::order::counts(e_local(x)) && crate::order::counts(d),
        e_local(x).size() == x.size(),
{
    let zero = num(0);
    lemma_small_sizes();
    lemma_size_zero(zero);
    lemma_size_zero(d);
    lemma_size_zero(x);
    lemma_compare(x, d);
    lemma_compare(zero, d);
    lemma_compare(x, zero);
    let y = e_local(x);
    assert(y == x);
    reveal(quotient_of);
    let u = one_unit();
    let n = x.size() * u;
    let k = d.size();
    assert((0 * pow2(1074)) * k <= n <= (1 * pow2(1074)) * k) by (nonlinear_arith)
        requires
            n == x.size() * u,
            u == pow2(1074),
            x.size() <= k,
    ;
    crate::order::lemma_rounded_within(n, k, 0, 1, 1074);
}

/// The symbols on a ring: at least one.
pub open spec fn symbols(reel: Reel) -> int {
    if reel.charset@.len() > 1 {
        reel.charset@.len() as int
    } else {
        1
    }
}

/// A cell lands on the symbol it was asked for: the place it comes to shows that symbol, counted
/// round the ring. It travels the way its direction asks for, the shorter one where it asks for
/// none, and on from there as many times round as it takes turns.
pub proof fn lemma_reel_lands(reel: Reel, from: Num, character: Num, f: int, c: int) -> (k: int)
    requires
        is_whole(from, f),
        is_whole(character, c),
        -0x1_0000_0000 < f < 0x1_0000_0000,
        -0x1_0000_0000 < c < 0x1_0000_0000,
        symbols(reel) < 0x1_0000,
    ensures
        is_whole(reel.landing(from, character), k),
        (k - c) % symbols(reel) == 0,
        ({
            let n = symbols(reel);
            let round = reel.turns as int * n;
            match reel.direction {
                Some(Direction::Forward) => round <= k - f < round + n,
                Some(Direction::Backward) => -round - n <= k - f < -round,
                _ => round <= k - f && 2 * (k - f - round) <= n || k - f < -round && 2 * (f - k
                    - round) < n,
            }
        }),
{
    let n = symbols(reel);
    let ring = reel.ring_size();
    lemma_small_whole();
    lemma_from_int_at(n);
    lemma_from_int_at(reel.turns as int);
    let zero = num(0);
    let straight = sum_of(character, opposite_of(from));
    lemma_difference_at(character, from, c, f, 1074);
    lemma_rem_at(straight, ring, c - f, n, 1074);
    let forward = crate::num::rem_euclid_of(straight, ring);
    let a = (c - f) % n;
    vstd::arithmetic::div_mod::lemma_mod_bound(c - f, n);
    lemma_difference_at(forward, ring, a, n, 1074);
    let half = quotient_of(ring, num(TWO));
    lemma2_to64();
    lemma_finer(ring, n, 1074, 1073);
    lemma_finer(forward, a, 1074, 1073);
    lemma_quotient_at(ring, num(TWO), n, 2, 1073, 1074);
    lemma_compare_at(half, forward, n, a * 2, 1073);
    let way = reel.way(from, character);
    let back = reel.direction == Some(Direction::Backward) || reel.direction
        != Some(Direction::Forward) && n < 2 * a;
    let b = if back {
        a - n
    } else {
        a
    };
    assert(is_whole(way, b));
    lemma_compare_at(way, zero, b, 0, 1074);
    let t = reel.turns as int;
    assert(0 <= t * n < 0x1_0000_0000_0000) by (nonlinear_arith)
        requires
            0 <= t < 0x1_0000_0000,
            0 < n < 0x1_0000,
    ;
    let turns = product_of(from_int(t), ring);
    lemma_product_at(from_int(t), ring, t, n, 1074, 1074);
    crate::exact::lemma_opposite_at(turns, t * n, 1074);
    lemma_sum_at(from, way, f, b, 1074);
    let more = if b < 0 {
        -(t * n)
    } else {
        t * n
    };
    let k = f + b + more;
    lemma_sum_at(
        sum_of(from, way),
        crate::model::onward(way, turns),
        f + b,
        more,
        1074,
    );
    assert((k - c) % n == 0) by {
        vstd::arithmetic::div_mod::lemma_fundamental_div_mod(c - f, n);
        let q = (c - f) / n;
        let j = -q + (if back {
            -1int
        } else {
            0int
        }) + (if b < 0 {
            -t
        } else {
            t
        });
        assert(k - c == n * j) by (nonlinear_arith)
            requires
                c - f == n * q + a,
                k == f + b + more,
                b == (if back {
                    a - n
                } else {
                    a
                }),
                more == (if b < 0 {
                    -(t * n)
                } else {
                    t * n
                }),
                j == -q + (if back {
                    -1int
                } else {
                    0int
                }) + (if b < 0 {
                    -t
                } else {
                    t
                }),
        ;
        vstd::arithmetic::div_mod::lemma_mod_multiples_basic(j, n);
        assert(n * j == j * n) by (nonlinear_arith);
    }
    k
}

} // verus!
