//! How a show answers: bindings, ducking, debouncing, and the time of a timeline.

use crate::arith::{lemma_minus_self, lemma_plus_zero, lemma_small_sizes, lemma_times_zero};
use crate::bind::{scaled_by, Pace};
use crate::easing::{lemma_eased_ends, Easing};
use crate::exact::{
    is_at, lemma_compare, lemma_compare_at, lemma_difference_at, lemma_finer, lemma_product_at,
    lemma_quotient_at, lemma_small_whole, lemma_sum_at,
};
use crate::follow::total_rank;
use crate::mix::on_bus;
use crate::model::{local_of, played_for, sampled, Binding, Duck, LayerKind, Moves, Show};
use crate::motion::{
    amid, lemma_chain, lemma_nothing_over, lemma_parts, lemma_simple_change, lemma_toward,
    lemma_way_at, simple,
};
use crate::num::{
    at_most, clamp_of, equal, less, max_of, min_of, num, opposite_of, product_of, quotient_of,
    sum_of, Num,
};
use crate::sites::SiteKey;
use crate::state::{Play, Running, State, SAME_INSTANT};
use crate::tree::{layer_in, Root};
use crate::value::Held;
use crate::waves::ONE;
use vstd::arithmetic::power2::{lemma2_to64, lemma_pow2_adds, lemma_pow2_pos, pow2};
use vstd::prelude::*;

verus! {

/// Whether a play sounds on a bus: its layer is on the bus, and its delay is over.
pub open spec fn sounds_on(s: State, show: Show, play: Play, bus: Seq<char>) -> bool {
    match layer_in(show, play.root, play.path) {
        Some(layer) => match layer.kind {
            LayerKind::Audio { delay, .. } => on_bus(layer, bus) && !less(
                s.time,
                sum_of(play.started, max_of(delay, num(0))),
            ),
            LayerKind::Video { delay, .. } => on_bus(layer, bus) && !less(
                s.time,
                sum_of(play.started, max_of(delay, num(0))),
            ),
            _ => false,
        },
        None => false,
    }
}

/// When a play came out of its delay.
pub open spec fn sounds_from(show: Show, play: Play) -> Num {
    match layer_in(show, play.root, play.path)->0.kind {
        LayerKind::Audio { delay, .. } => sum_of(play.started, max_of(delay, num(0))),
        LayerKind::Video { delay, .. } => sum_of(play.started, max_of(delay, num(0))),
        _ => play.started,
    }
}

/// A layer is ducked by the plays of other layers that sound on the bus it listens to, and by
/// nothing else: since the first of them came out of its delay.
pub proof fn lemma_ducked_by_others(
    s: State,
    show: Show,
    bus: Seq<char>,
    root: Root,
    path: Seq<usize>,
    n: nat,
)
    requires
        n <= s.sounding.len(),
    ensures
        match s.busy_since(show, bus, root, path, n) {
            Some(at) => {
                &&& exists|k: int|
                    0 <= k < n && !(#[trigger] s.sounding[k]).on(root, path) && sounds_on(
                        s,
                        show,
                        s.sounding[k],
                        bus,
                    ) && at == sounds_from(show, s.sounding[k])
                &&& forall|k: int|
                    0 <= k < n && !(#[trigger] s.sounding[k]).on(root, path) && sounds_on(
                        s,
                        show,
                        s.sounding[k],
                        bus,
                    ) ==> total_rank(at) <= total_rank(sounds_from(show, s.sounding[k]))
            },
            None => forall|k: int|
                0 <= k < n && !(#[trigger] s.sounding[k]).on(root, path) ==> !sounds_on(
                    s,
                    show,
                    s.sounding[k],
                    bus,
                ),
        },
    decreases n,
{
    if n > 0 {
        lemma_ducked_by_others(s, show, bus, root, path, (n - 1) as nat);
        let play = s.sounding[n - 1];
        let before = s.busy_since(show, bus, root, path, (n - 1) as nat);
        let now = s.busy_since(show, bus, root, path, n);
        if !play.on(root, path) && sounds_on(s, show, play, bus) {
            assert(now is Some);
        }
        if before is Some && now == before {
            let k = choose|k: int|
                0 <= k < n - 1 && !(#[trigger] s.sounding[k]).on(root, path) && sounds_on(
                    s,
                    show,
                    s.sounding[k],
                    bus,
                ) && before->0 == sounds_from(show, s.sounding[k]);
            assert(!s.sounding[k].on(root, path));
        }
    }
}

/// What a ducking layer's level goes to, and the time it takes: to the duck's level while its bus
/// sounds, and back to one.
pub open spec fn goes_to(duck: Duck, down: bool) -> (Num, Num) {
    if down {
        (duck.to, duck.attack)
    } else {
        (num(ONE), duck.release)
    }
}

/// A ducking layer's level goes straight from where it was to where it is going, over its attack
/// on the way down and its release on the way up, and stays there. Stated exactly, for numbers
/// that need no rounding: `q` parts in two to the power `s` of the time is as much of the way.
pub proof fn lemma_duck_ramp(
    st: State,
    site: SiteKey,
    duck: Duck,
    time: Num,
    q: int,
    s: nat,
    n: int,
    i: int,
    g: nat,
    p: int,
    d: int,
    w: nat,
)
    requires
        st.ducking.contains_key(site),
        st.layer(site.root, site.path) matches Some(layer) && layer.kind.ducks() == Some(duck),
        s <= 20 && s <= g <= 1500 && s <= w <= 1500,
        0 <= q < 0x1_0000_0000,
        n > 0,
        n * pow2(s) < 0x1_0000_0000,
        n * q < 0x1_0000_0000,
        0 <= i < 0x1_0000_0000,
        is_at(goes_to(duck, st.ducking[site].down).1, n * pow2(s), g),
        is_at(st.ducking[site].since, i, g),
        is_at(time, i + n * q, g),
        is_at(st.ducking[site].from, p, w),
        is_at(goes_to(duck, st.ducking[site].down).0, p + d * pow2(s), w),
        -0x1_0000_0000 < p < 0x1_0000_0000,
        -0x1000 < d < 0x1000,
    ensures
        is_at(
            st.duck_level(site, time),
            p + d * (if q < pow2(s) {
                q
            } else {
                pow2(s) as int
            }),
            w,
        ),
{
    let state = st.ducking[site];
    let (target, ramp) = goes_to(duck, state.down);
    lemma_small_whole();
    lemma_parts(s);
    let ps = pow2(s) as int;
    let zero = num(0);
    assert(n * ps > 0 && n * q >= 0) by (nonlinear_arith)
        requires
            n > 0,
            ps > 0,
            q >= 0,
    ;
    assert(is_at(zero, 0, g));
    lemma_compare_at(ramp, zero, n * ps, 0, g);
    let gone = sum_of(time, opposite_of(state.since));
    lemma_difference_at(time, state.since, i + n * q, i, g);
    let f = (g - s) as nat;
    lemma_finer(gone, n * q, g, f);
    assert((n * q) * ps == q * (n * ps)) by (nonlinear_arith);
    lemma_quotient_at(gone, ramp, q, n * ps, f, g);
    let h = (1074 - s) as nat;
    let t = quotient_of(gone, ramp);
    lemma_finer(num(ONE), 1, 1074, h);
    assert(is_at(zero, 0, h));
    lemma_compare_at(t, zero, q, 0, h);
    lemma_compare_at(num(ONE), t, 1 * ps, q, h);
    let e = clamp_of(t, zero, num(ONE));
    let r = if q < ps {
        q
    } else {
        ps
    };
    assert(is_at(e, r, h));
    assert(-0x1_0000_0000 <= d * ps <= 0x1_0000_0000) by (nonlinear_arith)
        requires
            -0x1000 < d < 0x1000,
            0 < ps <= 0x10_0000,
    ;
    lemma_difference_at(target, state.from, p + d * ps, p, w);
    lemma_way_at(state.from, sum_of(target, opposite_of(state.from)), e, p, d, r, s, w);
}

/// A layer whose bus starts or stops sounding turns round where its level stands: nothing jumps.
pub proof fn lemma_duck_turns_where_it_stands(
    st: State,
    site: SiteKey,
    duck: Duck,
    busy: Option<Num>,
)
    requires
        st.layer(site.root, site.path) matches Some(layer) && layer.kind.ducks() == Some(duck),
        !(st.ducking.contains_key(site) && st.ducking[site].down == (busy is Some)),
        st.time.finite() && (busy matches Some(at) ==> at.finite()),
        ({
            let (target, ramp) = goes_to(duck, busy is Some);
            let since = min_of(
                match busy {
                    Some(at) => at,
                    None => st.time,
                },
                st.time,
            );
            let level = st.duck_level(site, since);
            &&& ramp.finite() && less(num(0), ramp)
            &&& level.finite() && sum_of(target, opposite_of(level)).finite()
        }),
    ensures
        ({
            let next = st.duck_noted(site, busy);
            let since = next.ducking[site].since;
            &&& next.ducking[site].down == (busy is Some)
            &&& equal(next.duck_level(site, since), st.duck_level(site, since))
            &&& at_most(since, st.time)
        }),
{
    let next = st.duck_noted(site, busy);
    let state = next.ducking[site];
    let since = state.since;
    let (target, ramp) = goes_to(duck, busy is Some);
    let zero = num(0);
    lemma_compare(st.time, st.time);
    if busy is Some {
        lemma_compare(busy->0, st.time);
        lemma_compare(st.time, busy->0);
    }
    assert(next.layer(site.root, site.path) == st.layer(site.root, site.path));
    lemma_chain(zero, ramp, zero);
    lemma_minus_self(since);
    lemma_nothing_over(ramp);
    assert(clamp_of(zero, zero, num(ONE)) == zero) by {
        reveal(less);
    }
    let d = sum_of(target, opposite_of(state.from));
    assert(zero.zero());
    lemma_times_zero(d, zero);
    lemma_plus_zero(state.from, product_of(d, zero));
}

/// A ducked level never leaves the way between where it was and where it is going.
pub proof fn lemma_duck_between(st: State, site: SiteKey, duck: Duck, time: Num)
    requires
        st.ducking.contains_key(site),
        st.layer(site.root, site.path) matches Some(layer) && layer.kind.ducks() == Some(duck),
        !quotient_of(
            sum_of(time, opposite_of(st.ducking[site].since)),
            goes_to(duck, st.ducking[site].down).1,
        ).nan(),
        st.ducking[site].from.finite(),
        goes_to(duck, st.ducking[site].down).0.finite(),
        sum_of(
            goes_to(duck, st.ducking[site].down).0,
            opposite_of(st.ducking[site].from),
        ).finite(),
    ensures
        ({
            let (from, target) = (st.ducking[site].from, goes_to(duck, st.ducking[site].down).0);
            let d = sum_of(target, opposite_of(from));
            let level = st.duck_level(site, time);
            level == target || amid(level, from, sum_of(from, d)) && (d.units() == target.units()
                - from.units() ==> amid(level, from, target))
        }),
{
    let state = st.ducking[site];
    let (target, ramp) = goes_to(duck, state.down);
    let t = quotient_of(sum_of(time, opposite_of(state.since)), ramp);
    let zero = num(0);
    lemma_small_sizes();
    assert(at_most(zero, num(ONE))) by {
        reveal(less);
    }
    crate::arith::lemma_clamped(t, zero, num(ONE));
    lemma_toward(state.from, target, clamp_of(t, zero, num(ONE)));
}

/// A debounced value is taken over only once it has stood long enough: a value that is new waits
/// from when it was first seen, another one in between starts the wait anew, and until then what
/// had settled stays.
pub proof fn lemma_debounced(st: State, site: SiteKey, value: Held, hold: Num, to: Num)
    ensures
        ({
            let r = st.settling(site, value, hold, to);
            let known = st.debounced[site];
            let waited = sum_of(sum_of(to, num(SAME_INSTANT)), opposite_of(r.since));
            &&& r.candidate == value || r.candidate.same(value)
            &&& !st.debounced.contains_key(site) ==> r.settled == value
            &&& st.debounced.contains_key(site) ==> {
                &&& known.candidate.same(value) ==> r.since == known.since
                &&& !known.candidate.same(value) ==> r.since == st.time
                &&& !at_most(hold, waited) ==> r.settled == known.settled
                &&& at_most(hold, waited) ==> r.settled == r.candidate || r.settled.same(
                    r.candidate,
                )
            }
        }),
{
}

/// How far a running timeline has come: as long as the clock has run since its delay was over,
/// folded into one play where it loops; and below nothing while it still waits. Stated exactly, for
/// times that need no rounding.
pub proof fn lemma_timeline_time(
    p: Running,
    pace: Pace,
    now: Num,
    a: int,
    b: int,
    length: int,
    g: nat,
)
    requires
        !p.held,
        1055 <= g <= 1500,
        is_at(now, a, g),
        is_at(p.starts, b, g),
        is_at(pace.duration, length, g),
        0 <= a < 0x1_0000_0000_0000 && 0 <= b < 0x1_0000_0000_0000,
        0 <= length < 0x1_0000_0000_0000,
    ensures
        is_at(
            p.elapsed(now, pace),
            if a > b && pace.looping && length > 0 {
                (a - b) % length
            } else {
                a - b
            },
            g,
        ),
{
    let zero = num(0);
    lemma_small_whole();
    assert(is_at(zero, 0, g));
    let raw = sum_of(now, opposite_of(p.starts));
    lemma_difference_at(now, p.starts, a, b, g);
    lemma_compare_at(raw, zero, a - b, 0, g);
    lemma_compare_at(zero, raw, 0, a - b, g);
    lemma_compare_at(zero, pace.duration, 0, length, g);
    let hair = num(SAME_INSTANT);
    crate::arith::lemma_opposite(hair);
    if a < b {
        // A part of the grid is more than a hair.
        assert(hair.step() == 1002 && hair.mantissa() == 0x10_C6F7_A0B5_ED8D);
        lemma_pow2_pos(1002);
        lemma_pow2_adds(53, 1002);
        vstd::arithmetic::power2::lemma2_to64_rest();
        if g > 1055 {
            vstd::arithmetic::power2::lemma_pow2_strictly_increases(1055, g);
        }
        let (q, r) = (pow2(1002) as int, pow2(g) as int);
        assert(hair.size() < r) by (nonlinear_arith)
            requires
                hair.size() == 0x10_C6F7_A0B5_ED8D * q,
                r >= 0x20_0000_0000_0000 * q,
                q > 0,
        ;
        assert((a - b) * r <= -r) by (nonlinear_arith)
            requires
                a < b,
                r > 0,
        ;
        lemma_compare(opposite_of(hair), raw);
    } else if a > b && pace.looping && length > 0 {
        crate::exact::lemma_remainder_at(raw, pace.duration, a - b, length, g);
    }
}

/// Where within one play a timeline is: nowhere while it waits, at the same place in every play
/// while it repeats, and past the end afterwards. Stated exactly, for times that need no rounding
/// and a number of plays in parts of 1024.
pub proof fn lemma_repeats(
    duration: Num,
    repeat: Option<Num>,
    elapsed: Num,
    k: int,
    length: int,
    plays: int,
    g: nat,
)
    requires
        10 <= g <= 1500,
        is_at(elapsed, k, g) && !elapsed.negative(),
        is_at(duration, length, g),
        0 < length < 0x1_0000_0000,
        0 <= k < 0x1_0000_0000,
        repeat matches Some(n) ==> is_at(n, plays, 1064) && 0 <= plays < 0x1_0000,
    ensures
        local_of(duration, repeat, elapsed) matches Some(t) && is_at(
            t,
            if repeat is Some && 1024 * k < length * plays {
                k % length
            } else {
                k
            },
            g,
        ),
{
    let zero = num(0);
    lemma_small_whole();
    lemma2_to64();
    assert(is_at(zero, 0, g));
    lemma_compare_at(elapsed, zero, k, 0, g);
    lemma_compare_at(zero, duration, 0, length, g);
    if let Some(n) = repeat {
        assert(is_at(zero, 0, 1064));
        lemma_compare_at(n, zero, plays, 0, 1064);
        lemma_compare_at(zero, n, 0, plays, 1064);
        let m = max_of(n, zero);
        assert(is_at(m, plays, 1064));
        assert(0 <= length * plays < 0x1_0000_0000_0000) by (nonlinear_arith)
            requires
                0 < length < 0x1_0000_0000,
                0 <= plays < 0x1_0000,
        ;
        lemma_product_at(duration, m, length, plays, g, 1064);
        let f = (g - 10) as nat;
        lemma_finer(elapsed, k, g, f);
        lemma_compare_at(elapsed, played_for(duration, repeat), k * 1024, length * plays, f);
        crate::exact::lemma_remainder_at(elapsed, duration, k, length, g);
    }
}

/// A binding's number: bent by its curve, scaled, and moved; with a threshold it is one from there
/// on, and nothing below, before that. Stated exactly, for numbers that need no rounding.
pub proof fn lemma_bound_number(b: Binding, n: Num, k: int, scale: int, offset: int)
    requires
        b.curve@.len() == 0,
        is_at(b.scale, scale, 1064) && -0x10_0000 < scale < 0x10_0000,
        is_at(b.offset, offset, 1064) && -0x1_0000_0000 < offset < 0x1_0000_0000,
        match b.threshold {
            Some(level) => k == (if at_most(level, n) {
                1024int
            } else {
                0int
            }),
            None => is_at(n, k, 1064) && -0x10_0000 < k < 0x10_0000,
        },
    ensures
        is_at(scaled_by(b, n), k * scale + 1024 * offset, 1054),
{
    reveal(sampled);
    lemma_small_whole();
    lemma2_to64();
    lemma_finer(num(ONE), 1, 1074, 1064);
    assert(is_at(num(0), 0, 1064));
    let level = match b.threshold {
        Some(level) => if at_most(level, n) {
            num(ONE)
        } else {
            num(0)
        },
        None => n,
    };
    assert(is_at(level, k, 1064));
    assert(-0x100_0000_0000 < k * scale < 0x100_0000_0000) by (nonlinear_arith)
        requires
            -0x10_0000 < k < 0x10_0000,
            -0x10_0000 < scale < 0x10_0000,
    ;
    lemma_product_at(level, b.scale, k, scale, 1064, 1064);
    lemma_finer(b.offset, offset, 1064, 1054);
    lemma_sum_at(product_of(level, b.scale), b.offset, k * scale, offset * 1024, 1054);
}

/// A curve bends a binding's number first: what it makes of the number is then scaled and moved as
/// a number without a curve is.
pub proof fn lemma_curve_first(b: Binding, plain: Binding, n: Num, bent: Num)
    requires
        b.threshold is None && plain.threshold is None,
        plain.curve@.len() == 0,
        plain.scale == b.scale && plain.offset == b.offset,
        sampled(b.curve@, n) == Some(bent),
    ensures
        scaled_by(b, n) == scaled_by(plain, bent),
{
    reveal(sampled);
}

/// A change starts where it stands: nothing jumps when a new target is set.
pub proof fn lemma_change_starts(m: Moves, start: Num, target: Num)
    requires
        simple(m),
        m.ease != Easing::BackOut,
        start.finite() && target.finite(),
        sum_of(target, opposite_of(start)).finite(),
        !equal(start, target),
    ensures
        equal(m.value(start, target, num(0)), start),
{
    let zero = num(0);
    let e = lemma_simple_change(m, start, target, zero);
    lemma_nothing_over(m.duration);
    assert(crate::motion::e_local(zero) == zero);
    lemma_eased_ends(m.ease);
    assert(e.zero()) by {
        reveal(equal);
    }
    let d = sum_of(target, opposite_of(start));
    lemma_times_zero(d, e);
    let w = sum_of(start, product_of(d, e));
    lemma_plus_zero(start, product_of(d, e));
    let v = m.value(start, target, zero);
    assert(equal(v, start)) by {
        reveal(equal);
    }
}

/// A binding that gets a new target goes on from the value it has reached: the new change shows at
/// its first instant what the old one showed there.
pub proof fn lemma_retargeted(st: State, site: SiteKey, t: crate::model::Transition, target: Num)
    requires
        simple(t.moves()),
        t.model is None,
        t.ease != Easing::BackOut,
        st.transitions.contains_key(site),
        st.time.finite() && target.finite(),
        !equal(st.transitions[site].target, target),
        ({
            let old = st.transitions[site];
            let v = t.moves().value(
                old.start,
                old.target,
                sum_of(st.time, opposite_of(old.started)),
            );
            v.finite() && sum_of(target, opposite_of(v)).finite() && !equal(v, target)
        }),
    ensures
        ({
            let (old, new) = (st.transitions[site], st.change(site, t, target));
            &&& new.target == target
            &&& equal(
                t.moves().value(
                    new.start,
                    new.target,
                    sum_of(st.time, opposite_of(new.started)),
                ),
                t.moves().value(
                    old.start,
                    old.target,
                    sum_of(st.time, opposite_of(old.started)),
                ),
            )
        }),
{
    let new = st.change(site, t, target);
    lemma_minus_self(st.time);
    lemma_change_starts(t.moves(), new.start, target);
}

} // verus!
