//! How a move progresses between two keys.

use crate::arith::{
    lemma_commutes, lemma_middling, lemma_minus_self, lemma_opposite, lemma_plus_zero,
    lemma_quotient_positive, lemma_small_sizes, lemma_times_one, lemma_times_zero, lemma_zero,
};
use crate::num::{
    at_most, clamp_of, equal, lemma_exact, lemma_magnitude_scale, lemma_rounds_to, lemma_size_zero,
    less, nearest, num, one_unit, opposite_of, product_of, quotient_of, rounded, sum_of, Num,
    HIDDEN,
};
use crate::order::{
    between, counts, lemma_between_opposite, lemma_between_product, lemma_between_sum,
    lemma_magnitude_rises, lemma_rounded_between, lemma_rounded_sign, lemma_rounded_within,
};
use crate::segments::EPSILON;
use crate::waves::{exp, exp_of, sin_cos, sin_cos_of, HALF, ONE, TWO};
use vstd::arithmetic::div_mod::lemma_fundamental_div_mod;
use vstd::arithmetic::power2::{
    lemma2_to64, lemma2_to64_rest, lemma_pow2_adds, lemma_pow2_pos, lemma_pow2_unfold, pow2,
};
use vstd::prelude::*;

verus! {

/// How far the `back` easings overshoot: about a tenth of the way.
pub const BACK: u64 = 0x3FFB_39AB_F338_7161;

/// What the overshoot is multiplied by when it comes at both ends.
pub const BACK_BOTH: u64 = 0x3FF8_6666_6666_6666;

/// 4.0.
pub const FOUR: u64 = 0x4010_0000_0000_0000;

/// 10.0.
pub const TEN: u64 = 0x4024_0000_0000_0000;

/// -10.0.
pub const MINUS_TEN: u64 = 0xC024_0000_0000_0000;

/// 0.75.
pub const THREE_QUARTERS: u64 = 0x3FE8_0000_0000_0000;

/// A third of a turn in radians.
pub const SWING: u64 = 0x4000_C152_382D_7365;

/// How steep a bounce is.
pub const BOUNCE: u64 = 0x401E_4000_0000_0000;

/// What the times of the bounces are parts of.
pub const BOUNCE_SPAN: u64 = 0x4006_0000_0000_0000;

/// 1.5.
pub const FIRST_PEAK: u64 = 0x3FF8_0000_0000_0000;

/// 2.5.
pub const SECOND_END: u64 = 0x4004_0000_0000_0000;

/// 2.25.
pub const SECOND_PEAK: u64 = 0x4002_0000_0000_0000;

/// 2.625.
pub const THIRD_PEAK: u64 = 0x4005_0000_0000_0000;

/// 0.9375.
pub const SECOND_FLOOR: u64 = 0x3FEE_0000_0000_0000;

/// 0.984375.
pub const THIRD_FLOOR: u64 = 0x3FEF_8000_0000_0000;

/// When the bounces hit the end: 4/11, 8/11 and 10/11.
pub const FIRST_DOWN: u64 = 0x3FD7_45D1_745D_1746;

pub const SECOND_DOWN: u64 = 0x3FE7_45D1_745D_1746;

pub const THIRD_DOWN: u64 = 0x3FED_1745_D174_5D17;

/// When they are furthest from it: 6/11, 9/11 and 21/22.
pub const FIRST_UP: u64 = 0x3FE1_745D_1745_D174;

pub const SECOND_UP: u64 = 0x3FEA_2E8B_A2E8_BA2F;

pub const THIRD_UP: u64 = 0x3FEE_8BA2_E8BA_2E8C;

/// 1.0 less the distance from there to the next double.
pub const JUST_BELOW_ONE: u64 = 0x3FEF_FFFF_FFFF_FFFE;

/// -1.0.
pub const MINUS_ONE: u64 = 0xBFF0_0000_0000_0000;

/// The natural logarithm of 2.
pub const LN_TWO: u64 = 0x3FE6_2E42_FEFA_39EF;

/// Easing applied to the segment that ends at the keyframe carrying it.
#[derive(Clone, Copy, Debug, PartialEq, Eq, Structural)]
pub enum Easing {
    Linear,
    QuadIn,
    QuadOut,
    QuadInOut,
    CubicIn,
    CubicOut,
    CubicInOut,
    Step,
    /// Pulls back below the start before going.
    BackIn,
    /// Overshoots the end and comes back to it.
    BackOut,
    BackInOut,
    /// Arrives fast, then swings around the end a few times, settling.
    ElasticOut,
    /// Hits the end and bounces off it a few times, never passing it.
    BounceOut,
}

impl Default for Easing {
    fn default() -> (r: Easing)
        ensures
            r == Easing::Linear,
    {
        Easing::Linear
    }
}

impl Easing {
    /// Eased progress at a progress within 0 and 1.
    pub open spec fn curve(self, t: Num) -> Num {
        match self {
            Easing::Linear => t,
            Easing::QuadIn => product_of(t, t),
            Easing::QuadOut => product_of(t, sum_of(num(TWO), opposite_of(t))),
            Easing::QuadInOut => {
                if less(t, num(HALF)) {
                    product_of(product_of(num(TWO), t), t)
                } else {
                    sum_of(
                        num(MINUS_ONE),
                        product_of(sum_of(num(FOUR), opposite_of(product_of(num(TWO), t))), t),
                    )
                }
            },
            Easing::CubicIn => product_of(product_of(t, t), t),
            Easing::CubicOut => {
                let u = sum_of(t, opposite_of(num(ONE)));
                sum_of(product_of(product_of(u, u), u), num(ONE))
            },
            Easing::CubicInOut => {
                if less(t, num(HALF)) {
                    product_of(product_of(product_of(num(FOUR), t), t), t)
                } else {
                    let u = sum_of(product_of(num(TWO), t), opposite_of(num(TWO)));
                    sum_of(product_of(product_of(product_of(num(HALF), u), u), u), num(ONE))
                }
            },
            Easing::BackIn => product_of(
                product_of(t, t),
                sum_of(product_of(sum_of(num(BACK), num(ONE)), t), opposite_of(num(BACK))),
            ),
            Easing::BackOut => {
                let u = sum_of(t, opposite_of(num(ONE)));
                sum_of(
                    product_of(
                        product_of(u, u),
                        sum_of(product_of(sum_of(num(BACK), num(ONE)), u), num(BACK)),
                    ),
                    num(ONE),
                )
            },
            Easing::BackInOut => {
                if less(t, num(HALF)) {
                    let k = product_of(num(BACK), num(BACK_BOTH));
                    let u = product_of(num(TWO), t);
                    product_of(
                        product_of(product_of(num(HALF), u), u),
                        sum_of(product_of(sum_of(k, num(ONE)), u), opposite_of(k)),
                    )
                } else {
                    let k = product_of(num(BACK), num(BACK_BOTH));
                    let u = sum_of(product_of(num(TWO), t), opposite_of(num(TWO)));
                    product_of(
                        num(HALF),
                        sum_of(
                            product_of(
                                product_of(u, u),
                                sum_of(product_of(sum_of(k, num(ONE)), u), k),
                            ),
                            num(TWO),
                        ),
                    )
                }
            },
            Easing::BounceOut => {
                if less(t, quotient_of(num(ONE), num(BOUNCE_SPAN))) {
                    product_of(product_of(num(BOUNCE), t), t)
                } else if less(t, quotient_of(num(TWO), num(BOUNCE_SPAN))) {
                    let u = sum_of(t, opposite_of(quotient_of(num(FIRST_PEAK), num(BOUNCE_SPAN))));
                    sum_of(product_of(product_of(num(BOUNCE), u), u), num(THREE_QUARTERS))
                } else if less(t, quotient_of(num(SECOND_END), num(BOUNCE_SPAN))) {
                    let u = sum_of(t, opposite_of(quotient_of(num(SECOND_PEAK), num(BOUNCE_SPAN))));
                    sum_of(product_of(product_of(num(BOUNCE), u), u), num(SECOND_FLOOR))
                } else {
                    let u = sum_of(t, opposite_of(quotient_of(num(THIRD_PEAK), num(BOUNCE_SPAN))));
                    sum_of(product_of(product_of(num(BOUNCE), u), u), num(THIRD_FLOOR))
                }
            },
            Easing::Step => if less(t, num(ONE)) {
                num(0)
            } else {
                num(ONE)
            },
            Easing::ElasticOut => if equal(t, num(0)) || equal(t, num(ONE)) {
                t
            } else {
                let fade = exp_of(product_of(product_of(num(MINUS_TEN), t), num(LN_TWO)));
                let angle = product_of(
                    sum_of(product_of(t, num(TEN)), opposite_of(num(THREE_QUARTERS))),
                    num(SWING),
                );
                sum_of(product_of(fade, sin_cos_of(angle).0), num(ONE))
            },
        }
    }

    /// Eased progress at any linear progress: outside 0 to 1 the ends hold.
    #[verifier::opaque]
    pub open spec fn eased(self, t: Num) -> Num {
        self.curve(clamp_of(t, num(0), num(ONE)))
    }

    /// Map a linear progress `t` in [0, 1] to eased progress: 0 at 0 and 1 at 1, but the
    /// `back` and `elastic` kinds leave [0, 1] in between.
    pub fn apply(self, t: Num) -> (r: Num)
        ensures
            r == self.eased(t),
    {
        proof {
            reveal(Easing::eased);
        }
        let t = t.clamp(num(0), num(ONE));
        match self {
            Easing::Linear => t,
            Easing::QuadIn => t.times(t),
            Easing::QuadOut => t.times(num(TWO).minus(t)),
            Easing::QuadInOut => {
                if t.lt(num(HALF)) {
                    num(TWO).times(t).times(t)
                } else {
                    num(MINUS_ONE).plus(num(FOUR).minus(num(TWO).times(t)).times(t))
                }
            },
            Easing::CubicIn => t.times(t).times(t),
            Easing::CubicOut => {
                let u = t.minus(num(ONE));
                u.times(u).times(u).plus(num(ONE))
            },
            Easing::CubicInOut => {
                if t.lt(num(HALF)) {
                    num(FOUR).times(t).times(t).times(t)
                } else {
                    let u = num(TWO).times(t).minus(num(TWO));
                    num(HALF).times(u).times(u).times(u).plus(num(ONE))
                }
            },
            Easing::BackIn => t.times(t).times(num(BACK).plus(num(ONE)).times(t).minus(num(BACK))),
            Easing::BackOut => {
                let u = t.minus(num(ONE));
                u.times(u).times(num(BACK).plus(num(ONE)).times(u).plus(num(BACK))).plus(num(ONE))
            },
            Easing::BackInOut => {
                if t.lt(num(HALF)) {
                    let k = num(BACK).times(num(BACK_BOTH));
                    let u = num(TWO).times(t);
                    num(HALF).times(u).times(u).times(k.plus(num(ONE)).times(u).minus(k))
                } else {
                    let k = num(BACK).times(num(BACK_BOTH));
                    let u = num(TWO).times(t).minus(num(TWO));
                    num(HALF).times(
                        u.times(u).times(k.plus(num(ONE)).times(u).plus(k)).plus(num(TWO)),
                    )
                }
            },
            Easing::BounceOut => {
                if t.lt(num(ONE).over(num(BOUNCE_SPAN))) {
                    num(BOUNCE).times(t).times(t)
                } else if t.lt(num(TWO).over(num(BOUNCE_SPAN))) {
                    let u = t.minus(num(FIRST_PEAK).over(num(BOUNCE_SPAN)));
                    num(BOUNCE).times(u).times(u).plus(num(THREE_QUARTERS))
                } else if t.lt(num(SECOND_END).over(num(BOUNCE_SPAN))) {
                    let u = t.minus(num(SECOND_PEAK).over(num(BOUNCE_SPAN)));
                    num(BOUNCE).times(u).times(u).plus(num(SECOND_FLOOR))
                } else {
                    let u = t.minus(num(THIRD_PEAK).over(num(BOUNCE_SPAN)));
                    num(BOUNCE).times(u).times(u).plus(num(THIRD_FLOOR))
                }
            },
            Easing::Step => if t.lt(num(ONE)) {
                num(0)
            } else {
                num(ONE)
            },
            Easing::ElasticOut => {
                if t.same(num(0)) || t.same(num(ONE)) {
                    t
                } else {
                    let fade = exp(num(MINUS_TEN).times(t).times(num(LN_TWO)));
                    let angle = t.times(num(TEN)).minus(num(THREE_QUARTERS)).times(num(SWING));
                    let (swing, _) = sin_cos(angle);
                    fade.times(swing).plus(num(ONE))
                }
            },
        }
    }
}

/// Eased progress starts at 0 and ends at 1. Two of the `back` easings come there within
/// rounding at the end they overshoot.
pub proof fn lemma_eased_ends(ease: Easing)
    ensures
        ease != Easing::BackOut ==> equal(ease.eased(num(0)), num(0)),
        ease != Easing::BackIn ==> equal(ease.eased(num(ONE)), num(ONE)),
{
    reveal(Easing::eased);
    reveal(less);
    reveal(equal);
    let zero = num(0);
    let one = num(ONE);
    lemma_small_sizes();
    assert(clamp_of(zero, num(0), num(ONE)) == zero);
    assert(clamp_of(one, num(0), num(ONE)) == one);
    if ease != Easing::BackOut {
        lemma_starts(ease);
    }
    if ease != Easing::BackIn {
        lemma_finishes(ease);
    }
}

proof fn lemma_square_of_minus_one()
    ensures
        product_of(opposite_of(num(ONE)), opposite_of(num(ONE))) == num(ONE),
{
    reveal(product_of);
    lemma_small_sizes();
    lemma_opposite(num(ONE));
    let u = one_unit();
    lemma_magnitude_scale(u, 1, u);
    assert(1 * u == u);
    reveal(rounded);
    lemma_exact(num(ONE));
}

/// The few sums and products of small whole numbers that the curves end with.
proof fn lemma_small_sums()
    ensures
        sum_of(num(TWO), opposite_of(num(ONE))) == num(ONE),
        sum_of(num(FOUR), opposite_of(num(TWO))) == num(TWO),
        sum_of(num(MINUS_ONE), num(TWO)) == num(ONE),
        product_of(num(HALF), num(TWO)) == num(ONE),
{
    lemma_small_sizes();
    lemma_opposite(num(ONE));
    lemma_opposite(num(TWO));
    lemma_exact(num(ONE));
    lemma_exact(num(TWO));
    reveal(sum_of);
    assert(num(MINUS_ONE) == opposite_of(num(ONE))) by {
        reveal(opposite_of);
    }
    reveal(product_of);
    let u = one_unit();
    assert(num(HALF).size() * (2 * u) == u * u) by (nonlinear_arith)
        requires
            2 * num(HALF).size() == u,
    ;
    lemma_magnitude_scale(u, 1, u);
    assert(1 * u == u);
    reveal(rounded);
}

proof fn lemma_bounce_starts()
    ensures
        less(num(0), quotient_of(num(ONE), num(BOUNCE_SPAN))),
{
    lemma_small_sizes();
    let span = num(BOUNCE_SPAN);
    let u = one_unit();
    crate::num::lemma_size_at_least(span, num(FOUR));
    crate::num::lemma_large_unit();
    assert(u * u >= 4 * u) by (nonlinear_arith)
        requires
            u >= 4,
    ;
    lemma_quotient_positive(num(ONE), span);
}

/// The constants of the bounces, in parts of a power of two.
proof fn lemma_bounce_sizes()
    ensures
        ({
            let v = pow2(1071);
            &&& one_unit() == 8 * v
            &&& num(ONE).size() == 8 * v
            &&& num(TWO).size() == 16 * v
            &&& num(SECOND_END).size() == 20 * v
            &&& num(THIRD_PEAK).size() == 21 * v
            &&& num(BOUNCE_SPAN).size() == 22 * v
            &&& num(THIRD_FLOOR).size() == 63 * pow2(1068)
            &&& num(BOUNCE).size() == 121 * pow2(1070)
        }),
{
    lemma_small_sizes();
    lemma2_to64();
    lemma2_to64_rest();
    lemma_pow2_adds(3, 1071);
    lemma_pow2_adds(49, 1023);
    lemma_pow2_adds(48, 1023);
    lemma_pow2_adds(1, 1071);
    lemma_pow2_adds(50, 1023);
    lemma_pow2_adds(2, 1071);
    lemma_pow2_adds(47, 1021);
    lemma_pow2_adds(46, 1024);
    let second = num(SECOND_END);
    let third = num(THIRD_PEAK);
    let span = num(BOUNCE_SPAN);
    let floor = num(THIRD_FLOOR);
    let steep = num(BOUNCE);
    assert(second.step() == 1023 && second.mantissa() == 5 * 0x4_0000_0000_0000);
    assert(third.step() == 1023 && third.mantissa() == 21 * 0x1_0000_0000_0000);
    assert(span.step() == 1023 && span.mantissa() == 11 * 0x2_0000_0000_0000);
    assert(floor.step() == 1021 && floor.mantissa() == 63 * 0x8000_0000_0000);
    assert(steep.step() == 1024 && steep.mantissa() == 121 * 0x4000_0000_0000);
    let p = pow2(1023);
    assert(5 * 0x4_0000_0000_0000 * p == 5 * (0x4_0000_0000_0000 * p)) by (nonlinear_arith);
    assert(21 * 0x1_0000_0000_0000 * p == 21 * (0x1_0000_0000_0000 * p)) by (nonlinear_arith);
    assert(11 * 0x2_0000_0000_0000 * p == 11 * (0x2_0000_0000_0000 * p)) by (nonlinear_arith);
    let q = pow2(1021);
    assert(63 * 0x8000_0000_0000 * q == 63 * (0x8000_0000_0000 * q)) by (nonlinear_arith);
    let r = pow2(1024);
    assert(121 * 0x4000_0000_0000 * r == 121 * (0x4000_0000_0000 * r)) by (nonlinear_arith);
}

/// A part of the span of the bounces, rounded.
proof fn lemma_over_span(x: Num, c: nat, j: nat, k: nat)
    requires
        x.size() == c * pow2(1071),
        x.finite(),
        !x.negative(),
        j + k == 1074,
        HIDDEN * 22 <= c * pow2(j) < 2 * HIDDEN * 22,
    ensures
        quotient_of(x, num(BOUNCE_SPAN)).bits == k * HIDDEN + nearest(c * pow2(j), 22),
{
    lemma_bounce_sizes();
    lemma_pow2_adds(j, k);
    lemma_pow2_pos(1071);
    reveal(quotient_of);
    let v = pow2(1071);
    let u = one_unit();
    let span = num(BOUNCE_SPAN);
    crate::num::lemma_size_zero(span);
    let n = (c * v) * u;
    let d = 22 * v;
    let a = c * pow2(j);
    assert(n * 22 == a * (d * pow2(k))) by (nonlinear_arith)
        requires
            n == (c * v) * u,
            d == 22 * v,
            a == c * pow2(j),
            u == pow2(j) * pow2(k),
    ;
    lemma_rounds_to(n, d, a, 22, k);
}

proof fn lemma_bounce_ends()
    ensures
        Easing::BounceOut.curve(num(ONE)) == num(ONE),
{
    lemma_small_sizes();
    lemma_bounce_sizes();
    lemma2_to64();
    lemma2_to64_rest();
    reveal(less);
    let one = num(ONE);
    let v = pow2(1071);
    // the bounces before the last are over
    lemma_over_span(one, 8, 54, 1020);
    lemma_over_span(num(TWO), 16, 53, 1021);
    lemma_over_span(num(SECOND_END), 20, 53, 1021);
    lemma_over_span(num(THIRD_PEAK), 21, 53, 1021);
    let q = quotient_of(num(THIRD_PEAK), num(BOUNCE_SPAN));
    let m: nat = 8597781106798220;
    assert(nearest(21 * 0x20_0000_0000_0000, 22) == m);
    assert(q.bits == 1021 * HIDDEN + m);
    assert(q.step() == 1021 && q.mantissa() == m);
    // what is left of the last
    let w = pow2(1021);
    lemma_pow2_adds(53, 1021);
    let u = num((1017 * HIDDEN + 16 * 409418147942772) as u64);
    assert(u.step() == 1017 && u.mantissa() == 16 * 409418147942772);
    lemma_pow2_adds(4, 1017);
    assert(u.size() == 409418147942772 * w) by (nonlinear_arith)
        requires
            u.size() == 16 * 409418147942772 * pow2(1017),
            w == 16 * pow2(1017),
    ;
    lemma_opposite(q);
    assert(sum_of(one, opposite_of(q)) == u) by {
        reveal(sum_of);
        assert(one_unit() == 0x20_0000_0000_0000 * w);
        assert(one_unit() - m * w == 409418147942772 * w) by (nonlinear_arith)
            requires
                one_unit() == 0x20_0000_0000_0000 * w,
                m == 8597781106798220,
        ;
        lemma_pow2_pos(1021);
        lemma_exact(u);
    }
    // its square, steepened
    let steep = num(BOUNCE);
    let p: nat = 6192449487634426;
    let first = num((1020 * HIDDEN + p) as u64);
    assert(product_of(steep, u) == first) by {
        reveal(product_of);
        lemma_pow2_adds(1070, 1021);
        lemma_pow2_adds(1074, 1017);
        lemma_pow2_adds(7, 1013);
        lemma_pow2_adds(4, 1013);
        let a: nat = 121 * 16 * 409418147942772;
        let n = steep.size() * u.size();
        let d = one_unit();
        let x = pow2(1070);
        assert(n == (121 * 409418147942772) * (x * w)) by (nonlinear_arith)
            requires
                n == (121 * x) * (409418147942772 * w),
        ;
        let y = pow2(1013);
        assert(pow2(1020) == 128 * y);
        assert(pow2(1017) == 16 * y);
        assert(x * w == d * (16 * y));
        assert(n * 128 == a * (d * pow2(1020))) by (nonlinear_arith)
            requires
                n == (121 * 409418147942772) * (d * (16 * y)),
                pow2(1020) == 128 * y,
                a == 121 * 16 * 409418147942772,
        ;
        lemma_rounds_to(n, d, a, 128, 1020);
        assert(nearest(a, 128) == p);
    }
    assert(first.step() == 1020 && first.mantissa() == p);
    let r: nat = 9007199254740975;
    let square = num((1015 * HIDDEN + r) as u64);
    assert(product_of(first, u) == square) by {
        reveal(product_of);
        lemma_pow2_adds(1020, 1021);
        lemma_pow2_adds(1074, 967);
        lemma_pow2_adds(48, 967);
        let a: nat = p * 409418147942772;
        let b: nat = 0x1_0000_0000_0000;
        let n = first.size() * u.size();
        let d = one_unit();
        let x = pow2(1020);
        assert(n == a * (x * w)) by (nonlinear_arith)
            requires
                n == (p * x) * (409418147942772 * w),
                a == p * 409418147942772,
        ;
        let y = pow2(967);
        assert(x * w == d * y);
        assert(pow2(1015) == b * y);
        assert(n * b == a * (d * pow2(1015))) by (nonlinear_arith)
            requires
                n == a * (d * y),
                pow2(1015) == b * y,
        ;
        lemma_rounds_to(n, d, a, b, 1015);
        assert(nearest(a, b) == r);
    }
    assert(square.step() == 1015 && square.mantissa() == r);
    // and the floor it lands on
    assert(sum_of(square, num(THIRD_FLOOR)) == one) by {
        reveal(sum_of);
        lemma_pow2_adds(53, 1015);
        lemma_pow2_adds(6, 1015);
        let z = pow2(1015);
        let a: nat = r + 63 * 0x20_0000_0000_0000;
        let n = (square.size() + num(THIRD_FLOOR).size()) as nat;
        assert(n == a * z) by (nonlinear_arith)
            requires
                n == r * z + 63 * (0x20_0000_0000_0000 * z),
                a == r + 63 * 0x20_0000_0000_0000,
        ;
        assert(n * 64 == a * (1 * pow2(1021))) by (nonlinear_arith)
            requires
                n == a * z,
                pow2(1021) == 64 * z,
        ;
        lemma_pow2_pos(1015);
        assert(n > 0) by (nonlinear_arith)
            requires
                n == a * z,
                a > 0,
                z > 0,
        ;
        lemma_rounds_to(n, 1, a, 64, 1021);
        assert(nearest(a, 64) == 2 * HIDDEN);
    }
}

proof fn lemma_finishes(ease: Easing)
    requires
        ease != Easing::BackIn,
    ensures
        equal(ease.curve(num(ONE)), num(ONE)),
{
    let one = num(ONE);
    reveal(less);
    reveal(equal);
    lemma_small_sizes();
    lemma_small_sums();
    lemma_times_one(one);
    lemma_times_one(num(TWO));
    lemma_minus_self(one);
    lemma_minus_self(num(TWO));
    let zero = num(0);
    match ease {
        Easing::CubicOut => {
            let a = product_of(zero, zero);
            lemma_times_zero(zero, zero);
            lemma_times_zero(a, zero);
            lemma_plus_zero(one, product_of(a, zero));
        },
        Easing::CubicInOut => {
            let a = product_of(num(HALF), zero);
            lemma_times_zero(num(HALF), zero);
            let b = product_of(a, zero);
            lemma_times_zero(a, zero);
            lemma_times_zero(b, zero);
            lemma_plus_zero(one, product_of(b, zero));
        },
        Easing::BackOut => {
            let a = product_of(zero, zero);
            lemma_times_zero(zero, zero);
            let steep = sum_of(num(BACK), one);
            lemma_middling(num(BACK), one, 1022);
            let none = product_of(steep, zero);
            lemma_times_zero(steep, zero);
            lemma_plus_zero(num(BACK), none);
            lemma_times_zero(num(BACK), a);
            lemma_plus_zero(one, product_of(a, num(BACK)));
        },
        Easing::BackInOut => {
            let k = product_of(num(BACK), num(BACK_BOTH));
            lemma_middling(num(BACK), num(BACK_BOTH), 1022);
            lemma_middling(k, one, 1025);
            let a = product_of(zero, zero);
            lemma_times_zero(zero, zero);
            let steep = sum_of(k, one);
            let none = product_of(steep, zero);
            lemma_times_zero(steep, zero);
            lemma_middling(none, k, 1025);
            let rest = sum_of(none, k);
            lemma_times_zero(rest, a);
            lemma_plus_zero(num(TWO), product_of(a, rest));
        },
        Easing::BounceOut => {
            lemma_bounce_ends();
        },
        _ => {},
    }
}

proof fn lemma_starts(ease: Easing)
    requires
        ease != Easing::BackOut,
    ensures
        equal(ease.curve(num(0)), num(0)),
{
    let zero = num(0);
    let one = num(ONE);
    reveal(less);
    lemma_small_sizes();
    match ease {
        Easing::Linear => {
            lemma_zero(zero);
        },
        Easing::Step => {
            lemma_zero(zero);
        },
        Easing::ElasticOut => {
            lemma_zero(zero);
        },
        Easing::QuadIn => {
            lemma_times_zero(zero, zero);
            lemma_zero(product_of(zero, zero));
        },
        Easing::QuadOut => {
            let left = sum_of(num(TWO), opposite_of(zero));
            lemma_opposite(zero);
            lemma_plus_zero(num(TWO), opposite_of(zero));
            lemma_times_zero(left, zero);
            lemma_zero(product_of(zero, left));
        },
        Easing::QuadInOut => {
            let a = product_of(num(TWO), zero);
            lemma_times_zero(num(TWO), zero);
            lemma_times_zero(a, zero);
            lemma_zero(product_of(a, zero));
        },
        Easing::CubicIn => {
            let a = product_of(zero, zero);
            lemma_times_zero(zero, zero);
            lemma_times_zero(a, zero);
            lemma_zero(product_of(a, zero));
        },
        Easing::CubicOut => {
            let u = sum_of(zero, opposite_of(one));
            lemma_opposite(one);
            lemma_plus_zero(opposite_of(one), zero);
            assert(u == opposite_of(one));
            lemma_square_of_minus_one();
            lemma_times_one(u);
            assert(product_of(one, u) == u);
            lemma_minus_self(u);
            assert(sum_of(u, one) == num(0));
            lemma_zero(num(0));
        },
        Easing::CubicInOut => {
            let a = product_of(num(FOUR), zero);
            lemma_times_zero(num(FOUR), zero);
            let b = product_of(a, zero);
            lemma_times_zero(a, zero);
            lemma_times_zero(b, zero);
            lemma_zero(product_of(b, zero));
        },
        Easing::BackIn => {
            let a = product_of(zero, zero);
            lemma_times_zero(zero, zero);
            let steep = sum_of(num(BACK), one);
            lemma_middling(num(BACK), one, 1022);
            let rest = sum_of(product_of(steep, zero), opposite_of(num(BACK)));
            lemma_times_zero(steep, zero);
            lemma_opposite(num(BACK));
            lemma_plus_zero(opposite_of(num(BACK)), product_of(steep, zero));
            lemma_times_zero(rest, a);
            lemma_zero(product_of(a, rest));
        },
        Easing::BackInOut => {
            let k = product_of(num(BACK), num(BACK_BOTH));
            lemma_middling(num(BACK), num(BACK_BOTH), 1022);
            lemma_middling(k, one, 1025);
            let u = product_of(num(TWO), zero);
            lemma_times_zero(num(TWO), zero);
            let a = product_of(num(HALF), u);
            lemma_times_zero(num(HALF), u);
            let b = product_of(a, u);
            lemma_times_zero(a, u);
            let steep = sum_of(k, one);
            let rest = sum_of(product_of(steep, u), opposite_of(k));
            lemma_times_zero(steep, u);
            lemma_opposite(k);
            lemma_middling(product_of(steep, u), opposite_of(k), 1025);
            lemma_times_zero(rest, b);
            lemma_zero(product_of(b, rest));
        },
        Easing::BounceOut => {
            lemma_bounce_starts();
            let a = product_of(num(BOUNCE), zero);
            lemma_times_zero(num(BOUNCE), zero);
            lemma_times_zero(a, zero);
            lemma_zero(product_of(a, zero));
        },
        Easing::BackOut => {},
    }
}

/// Time outside the segment holds the ends.
pub proof fn lemma_eased_outside(ease: Easing, t: Num)
    ensures
        less(t, num(0)) ==> ease.eased(t) == ease.eased(num(0)),
        less(num(ONE), t) ==> ease.eased(t) == ease.eased(num(ONE)),
{
    reveal(Easing::eased);
    reveal(less);
}

/// Where the two `back` easings miss the end they overshoot: by the rounding of one sum.
pub proof fn lemma_back_ends()
    ensures
        Easing::BackIn.eased(num(ONE)) == num(JUST_BELOW_ONE),
        Easing::BackOut.eased(num(0)) == num(EPSILON),
{
    reveal(Easing::eased);
    reveal(less);
    reveal(sum_of);
    lemma_small_sizes();
    lemma2_to64();
    lemma2_to64_rest();
    let (zero, one, back) = (num(0), num(ONE), num(BACK));
    let (p, q) = (pow2(1022), pow2(1021));
    lemma_pow2_pos(1022);
    lemma_pow2_adds(52, 1022);
    lemma_pow2_adds(1, 1022);
    lemma_pow2_adds(1, 1021);
    let m: nat = 0x1B_39AB_F338_7161;
    let h = HIDDEN as nat;
    assert(back.step() == 1022 && back.mantissa() == m);
    assert(one.size() == h * p);
    // The sum of the overshoot and one loses its last digit.
    let a = (m + h) as nat;
    assert((m + h) * p == m * p + h * p) by (nonlinear_arith);
    assert((a * p) * 2 == a * (1 * (2 * p))) by (nonlinear_arith);
    lemma_rounds_to(a * p, 1, a, 2, 1023);
    let steep = sum_of(back, one);
    let c: nat = 0x15_9CD5_F99C_38B0;
    assert(nearest(a, 2) == c);
    assert(steep.bits == 1023 * HIDDEN + c);
    assert(steep.step() == 1023 && steep.mantissa() == c);
    lemma_times_one(steep);
    // What is left without the overshoot.
    lemma_opposite(back);
    let below = num(JUST_BELOW_ONE);
    let k: nat = 0x1F_FFFF_FFFF_FFFE;
    assert(below.step() == 1021 && below.mantissa() == k);
    assert(c * (2 * p) - m * p == k * q) by (nonlinear_arith)
        requires
            2 * c - m == h - 1,
            k == 2 * h - 2,
            p == 2 * q,
    ;
    lemma_exact(below);
    let left = sum_of(steep, opposite_of(back));
    assert(left == below);
    lemma_times_one(one);
    lemma_times_one(below);
    assert(clamp_of(one, zero, one) == one);
    assert(clamp_of(zero, zero, one) == zero);
    // The other way round.
    let minus = opposite_of(one);
    lemma_opposite(one);
    lemma_exact(minus);
    assert(sum_of(zero, minus) == minus) by {
        lemma_plus_zero(minus, zero);
    }
    lemma_square_of_minus_one();
    let down = product_of(steep, minus);
    assert(down == opposite_of(steep)) by {
        reveal(product_of);
        reveal(opposite_of);
        lemma_exact(steep);
        let u = one_unit();
        lemma_magnitude_scale(steep.size(), 1, u);
        assert(1 * u == u);
        reveal(rounded);
    }
    lemma_opposite(steep);
    let up = sum_of(down, back);
    assert(up == opposite_of(below)) by {
        reveal(opposite_of);
        reveal(rounded);
    }
    lemma_opposite(below);
    lemma_times_one(up);
    let tiny = num(EPSILON);
    lemma_pow2_adds(52, 970);
    assert(tiny.step() == 970 && tiny.mantissa() == h);
    assert(h * p - k * q == h * pow2(970)) by (nonlinear_arith)
        requires
            k == 2 * h - 2,
            p == 2 * q,
            p == h * pow2(970),
    ;
    lemma_exact(tiny);
    assert(sum_of(up, one) == tiny);
}

/// A curve that goes up from zero as the parabola does stays at or below its peak.
proof fn lemma_parabola(t: Num, c: nat, k: nat, w: Num)
    requires
        between(t, 0, 1024),
        0 < t.size(),
        c == 1 && k == 1022 || c == 2 && k == 1023,
        w == rounded(false, (c * (2 * one_unit() - t.size())) as nat, 1),
    ensures
        between(w, 1024 * c as int, 2048 * c as int),
        between(product_of(t, w), 0, 1024 * c as int),
        between(product_of(w, t), 0, 1024 * c as int),
{
    lemma_small_sizes();
    lemma2_to64();
    lemma2_to64_rest();
    lemma_pow2_adds(10, 1064);
    lemma_pow2_adds(52, 1022);
    lemma_pow2_adds(1, 1022);
    lemma_pow2_pos(k);
    lemma_pow2_pos(1064);
    let v = pow2(1064) as int;
    let u = one_unit() as int;
    let h = pow2(k) as int;
    let s = t.size() as int;
    let n = (c * (2 * u - s)) as nat;
    let hidden = HIDDEN as int;
    assert(t.units() == s) by {
        lemma_size_zero(t);
    }
    assert(c * u == hidden * h) by (nonlinear_arith)
        requires
            u == hidden * pow2(1022),
            h == c * pow2(1022),
    ;
    assert(c * u <= n < 2 * (c * u)) by (nonlinear_arith)
        requires
            n == c * (2 * u - s),
            0 < s <= u,
            c > 0,
    ;
    assert((1024 * c) * v == c * u && (2048 * c) * v == 2 * (c * u)) by (nonlinear_arith)
        requires
            u == 1024 * v,
    ;
    lemma_rounded_within(n, 1, (1024 * c) as nat, (2048 * c) as nat, 1064);
    assert(n * h == n * (1 * h)) by (nonlinear_arith);
    lemma_rounds_to(n, 1, n, h as nat, k);
    let r = nearest(n, h as nat) as int;
    lemma_fundamental_div_mod(n as int, h);
    let q = n as int / h;
    let rest = n as int % h;
    assert(2 * (r * h) <= 2 * n + h) by (nonlinear_arith)
        requires
            n == h * q + rest,
            0 <= rest < h,
            r == q || r == q + 1 && 2 * rest >= h,
    ;
    assert(hidden <= r <= 2 * hidden) by (nonlinear_arith)
        requires
            n == h * q + rest,
            0 <= rest < h,
            r == q || r == q + 1,
            hidden * h <= n < 2 * (hidden * h),
            h > 0,
    ;
    assert(w.bits == k * HIDDEN + r);
    assert(w.size() == r * h) by {
        if r == 2 * hidden {
            assert(w.step() == k + 1 && w.mantissa() == HIDDEN);
            lemma_pow2_unfold(k + 1);
            assert(hidden * (2 * h) == (2 * hidden) * h) by (nonlinear_arith);
        } else {
            assert(w.step() == k && w.mantissa() == r);
        }
    }
    let z = w.size() as int;
    let product = (s * z) as nat;
    let top = (u * (2 * (c * u) + h)) as nat;
    assert(2 * product <= top) by (nonlinear_arith)
        requires
            product == s * z,
            top == u * (2 * (c * u) + h),
            2 * z <= 2 * (c * (2 * u - s)) + h,
            0 < s <= u,
            c > 0,
            h > 0,
    ;
    // Half a digit past the peak is rounded down to it.
    let a = (2 * hidden + 1) as nat;
    assert(top == a * (u * h)) by (nonlinear_arith)
        requires
            top == u * (2 * (c * u) + h),
            c * u == hidden * h,
            a == 2 * hidden + 1,
    ;
    lemma_peak(product, c, k);
    assert(product_of(t, w) == rounded(false, product, one_unit())) by {
        reveal(product_of);
    }
    assert(product_of(w, t) == product_of(t, w)) by {
        lemma_commutes(t, w);
    }
}

/// What is at most half a digit past one, or two, is rounded to at most that.
proof fn lemma_peak(product: nat, c: nat, k: nat)
    requires
        c == 1 && k == 1022 || c == 2 && k == 1023,
        2 * product <= (2 * HIDDEN + 1) * (one_unit() * pow2(k)),
    ensures
        between(rounded(false, product, one_unit()), 0, 1024 * c as int),
{
    lemma_small_sizes();
    lemma2_to64();
    lemma2_to64_rest();
    lemma_pow2_adds(10, 1064);
    lemma_pow2_adds(52, 1022);
    lemma_pow2_adds(1, 1022);
    lemma_pow2_pos(k);
    lemma_pow2_adds(1, (k - 1) as nat);
    let u = one_unit();
    let h = pow2(k);
    let half = pow2((k - 1) as nat);
    let a = (2 * HIDDEN + 1) as nat;
    let n = a * (u * half);
    assert(product <= n) by (nonlinear_arith)
        requires
            2 * product <= a * (u * h),
            n == a * (u * half),
            h == 2 * half,
    ;
    assert(n * 2 == a * (u * h)) by (nonlinear_arith)
        requires
            n == a * (u * half),
            h == 2 * half,
    ;
    lemma_rounds_to(n, u, a, 2, k);
    assert(nearest(a, 2) == HIDDEN);
    let peak = rounded(false, n, u);
    assert(peak.bits == k * HIDDEN + HIDDEN);
    assert(peak == if c == 1 {
        num(ONE)
    } else {
        num(TWO)
    });
    let x = rounded(false, product, u);
    reveal(rounded);
    lemma_magnitude_rises(product, n, u);
    assert(x.magnitude_bits() <= peak.magnitude_bits());
    crate::num::lemma_size_at_least(x, peak);
    assert((1024 * c) * pow2(1064) == c * u) by (nonlinear_arith)
        requires
            u == 1024 * pow2(1064),
    ;
}

/// A number in parts of a power of two.
proof fn lemma_in_parts(x: Num, m: nat, e: nat)
    requires
        x.mantissa() == m,
        x.step() == 1000 + e,
        e <= 64,
    ensures
        x.size() == (m * pow2(e)) * pow2(1000),
{
    lemma_pow2_adds(e, 1000);
    let (p, q) = (pow2(e), pow2(1000));
    assert(m * (p * q) == (m * p) * q) by (nonlinear_arith);
}

/// A bounce with its peak at `c`, between two times, above a floor: it stays at or below one.
/// The steps of the sum are at most `um`, `p1` and `p2`.
proof fn lemma_bump(t: Num, lo: Num, hi: Num, c: Num, um: Num, p1: Num, p2: Num, floor: Num)
    requires
        counts(t) && counts(lo) && counts(hi) && counts(c) && counts(um) && counts(p1) && counts(p2)
            && counts(floor),
        lo.size() <= t.size() <= hi.size(),
        c.size() <= lo.size() + um.size(),
        hi.size() <= c.size() + um.size(),
        num(BOUNCE).size() * um.size() <= p1.size() * one_unit(),
        p1.size() * um.size() <= p2.size() * one_unit(),
        2 * (p2.size() + floor.size()) <= 2 * one_unit() + pow2(1022),
        floor.size() > 0,
    ensures
        ({
            let u = sum_of(t, opposite_of(c));
            between(sum_of(product_of(product_of(num(BOUNCE), u), u), floor), 0, 1024)
        }),
{
    lemma_small_sizes();
    lemma_between_small();
    lemma_opposite(c);
    let one = one_unit();
    let zero = num(0);
    lemma_size_zero(zero);
    let u = sum_of(t, opposite_of(c));
    let s = t.size() - c.size();
    let n = (if s < 0 {
        -s
    } else {
        s
    }) as nat;
    lemma_rounded_between(n, 1, zero, um);
    lemma_rounded_sign(n, 1);
    assert(u.finite() && u.size() <= um.size()) by {
        reveal(sum_of);
        lemma_size_zero(u);
    }
    let steep = num(BOUNCE);
    let x = u.size() as int;
    let (b, m, q1, q2) = (
        steep.size() as int,
        um.size() as int,
        p1.size() as int,
        p2.size() as int,
    );
    let first = steep.size() * u.size();
    assert(0 * one == 0);
    assert(first <= q1 * one) by (nonlinear_arith)
        requires
            first == b * x,
            0 <= x <= m,
            b >= 0,
            b * m <= q1 * one,
    ;
    lemma_rounded_between(first, one, zero, p1);
    lemma_rounded_sign(first, one);
    let y = product_of(steep, u);
    assert(y.finite() && y.size() <= q1 && y.negative() == u.negative()) by {
        reveal(product_of);
    }
    let w = y.size() as int;
    let second = y.size() * u.size();
    assert(second <= q2 * one) by (nonlinear_arith)
        requires
            second == w * x,
            0 <= x <= m,
            0 <= w <= q1,
            q1 * m <= q2 * one,
    ;
    lemma_rounded_between(second, one, zero, p2);
    let z = product_of(y, u);
    assert(counts(z) && z.size() <= q2) by {
        reveal(product_of);
    }
    crate::order::lemma_counting_sum(z, floor);
    let total = z.size() + floor.size();
    assert((2 * total) * one <= 2 * (one * one) + one * pow2(1022)) by (nonlinear_arith)
        requires
            2 * total <= 2 * one + pow2(1022),
            one > 0,
    ;
    assert(one == HIDDEN * pow2(1022)) by {
        lemma2_to64_rest();
        lemma_pow2_adds(52, 1022);
    }
    let p = pow2(1022);
    assert((2 * HIDDEN + 1) * (one * p) == 2 * (one * one) + one * p) by (nonlinear_arith)
        requires
            one == HIDDEN * p,
    ;
    assert(2 * (total * one) == (2 * total) * one) by (nonlinear_arith);
    lemma_peak(total * one, 1, 1022);
    lemma_magnitude_scale(total, 1, one);
    assert(1 * one == one);
    reveal(rounded);
}

/// The middle of the bounces, and where they end.
proof fn lemma_bounce_times()
    ensures
        quotient_of(num(ONE), num(BOUNCE_SPAN)) == num(FIRST_DOWN),
        quotient_of(num(TWO), num(BOUNCE_SPAN)) == num(SECOND_DOWN),
        quotient_of(num(SECOND_END), num(BOUNCE_SPAN)) == num(THIRD_DOWN),
        quotient_of(num(FIRST_PEAK), num(BOUNCE_SPAN)) == num(FIRST_UP),
        quotient_of(num(SECOND_PEAK), num(BOUNCE_SPAN)) == num(SECOND_UP),
        quotient_of(num(THIRD_PEAK), num(BOUNCE_SPAN)) == num(THIRD_UP),
{
    lemma_bounce_sizes();
    lemma2_to64();
    lemma2_to64_rest();
    lemma_pow2_adds(49, 1022);
    lemma_pow2_adds(48, 1023);
    let (first, second) = (num(FIRST_PEAK), num(SECOND_PEAK));
    assert(first.step() == 1022 && first.mantissa() == 12 * 0x2_0000_0000_0000);
    assert(second.step() == 1023 && second.mantissa() == 18 * 0x1_0000_0000_0000);
    let (p, q) = (pow2(1022), pow2(1023));
    assert((12 * 0x2_0000_0000_0000) * p == 12 * (0x2_0000_0000_0000 * p)) by (nonlinear_arith);
    assert((18 * 0x1_0000_0000_0000) * q == 18 * (0x1_0000_0000_0000 * q)) by (nonlinear_arith);
    lemma_over_span(num(ONE), 8, 54, 1020);
    lemma_over_span(num(TWO), 16, 53, 1021);
    lemma_over_span(num(SECOND_END), 20, 53, 1021);
    lemma_over_span(first, 12, 53, 1021);
    lemma_over_span(second, 18, 53, 1021);
    lemma_over_span(num(THIRD_PEAK), 21, 53, 1021);
}

proof fn lemma_second_bounce(t: Num)
    requires
        counts(t),
        num(FIRST_DOWN).bits <= t.bits <= 0x3FE7_45D1_745D_1745,
    ensures
        ({
            let u = sum_of(t, opposite_of(num(FIRST_UP)));
            between(sum_of(product_of(product_of(num(BOUNCE), u), u), num(THREE_QUARTERS)), 0, 1024)
        }),
{
    lemma2_to64();
    lemma2_to64_rest();
    lemma_pow2_pos(1000);
    lemma_pow2_adds(74, 1000);
    lemma_pow2_adds(22, 1000);
    lemma_pow2_adds(10, 64);
    let g = pow2(1000) as int;
    let (lo, c, floor) = (num(FIRST_DOWN), num(FIRST_UP), num(THREE_QUARTERS));
    let hi = num(0x3FE7_45D1_745D_1745);
    let um = num(0x3FC7_45D1_745D_1744);
    let p1 = num(0x3FF5_FFFF_FFFF_FFFF);
    let p2 = num(0x3FCF_FFFF_FFFF_FFFD);
    assert(lo.step() == 1020 && lo.mantissa() == 0x1745D1745D1746);
    lemma_in_parts(lo, 0x1745D1745D1746, 20);
    assert(c.step() == 1021 && c.mantissa() == 0x11745D1745D174);
    lemma_in_parts(c, 0x11745D1745D174, 21);
    assert(floor.step() == 1021 && floor.mantissa() == 0x18000000000000);
    lemma_in_parts(floor, 0x18000000000000, 21);
    assert(hi.step() == 1021 && hi.mantissa() == 0x1745D1745D1745);
    lemma_in_parts(hi, 0x1745D1745D1745, 21);
    assert(um.step() == 1019 && um.mantissa() == 0x1745D1745D1744);
    lemma_in_parts(um, 0x1745D1745D1744, 19);
    assert(p1.step() == 1022 && p1.mantissa() == 0x15FFFFFFFFFFFF);
    lemma_in_parts(p1, 0x15FFFFFFFFFFFF, 22);
    assert(p2.step() == 1019 && p2.mantissa() == 0x1FFFFFFFFFFFFD);
    lemma_in_parts(p2, 0x1FFFFFFFFFFFFD, 19);
    let steep = num(BOUNCE);
    assert(steep.step() == 1024 && steep.mantissa() == 0x1E400000000000);
    lemma_in_parts(steep, 0x1E400000000000, 24);
    assert(lo.size() == 0x1745D1745D174600000 * g);
    assert(c.size() == 0x22E8BA2E8BA2E800000 * g);
    assert(floor.size() == 0x3000000000000000000 * g);
    assert(hi.size() == 0x2E8BA2E8BA2E8A00000 * g);
    assert(um.size() == 0xBA2E8BA2E8BA200000 * g);
    assert(p1.size() == 0x57FFFFFFFFFFFC00000 * g);
    assert(p2.size() == 0xFFFFFFFFFFFFE80000 * g);
    assert(steep.size() == 0x1E400000000000000000 * g);
    assert(one_unit() == 0x4000000000000000000 * g);
    assert((0x1E400000000000000000 * g) * (0xBA2E8BA2E8BA200000 * g) <= (0x57FFFFFFFFFFFC00000 * g) * (0x4000000000000000000 * g))
        by (nonlinear_arith)
        requires
            g > 0,
    ;
    assert((0x57FFFFFFFFFFFC00000 * g) * (0xBA2E8BA2E8BA200000 * g) <= (0xFFFFFFFFFFFFE80000 * g) * (0x4000000000000000000 * g))
        by (nonlinear_arith)
        requires
            g > 0,
    ;
    crate::num::lemma_size_at_least(lo, t);
    crate::num::lemma_size_at_least(t, hi);
    lemma_bump(t, lo, hi, c, um, p1, p2, floor);
}

proof fn lemma_third_bounce(t: Num)
    requires
        counts(t),
        num(SECOND_DOWN).bits <= t.bits <= 0x3FED_1745_D174_5D16,
    ensures
        ({
            let u = sum_of(t, opposite_of(num(SECOND_UP)));
            between(sum_of(product_of(product_of(num(BOUNCE), u), u), num(SECOND_FLOOR)), 0, 1024)
        }),
{
    lemma2_to64();
    lemma2_to64_rest();
    lemma_pow2_pos(1000);
    lemma_pow2_adds(74, 1000);
    lemma_pow2_adds(22, 1000);
    lemma_pow2_adds(10, 64);
    let g = pow2(1000) as int;
    let (lo, c, floor) = (num(SECOND_DOWN), num(SECOND_UP), num(SECOND_FLOOR));
    let hi = num(0x3FED_1745_D174_5D16);
    let um = num(0x3FB7_45D1_745D_1748);
    let p1 = num(0x3FE6_0000_0000_0003);
    let p2 = num(0x3FB0_0000_0000_0004);
    assert(lo.step() == 1021 && lo.mantissa() == 0x1745D1745D1746);
    lemma_in_parts(lo, 0x1745D1745D1746, 21);
    assert(c.step() == 1021 && c.mantissa() == 0x1A2E8BA2E8BA2F);
    lemma_in_parts(c, 0x1A2E8BA2E8BA2F, 21);
    assert(floor.step() == 1021 && floor.mantissa() == 0x1E000000000000);
    lemma_in_parts(floor, 0x1E000000000000, 21);
    assert(hi.step() == 1021 && hi.mantissa() == 0x1D1745D1745D16);
    lemma_in_parts(hi, 0x1D1745D1745D16, 21);
    assert(um.step() == 1018 && um.mantissa() == 0x1745D1745D1748);
    lemma_in_parts(um, 0x1745D1745D1748, 18);
    assert(p1.step() == 1021 && p1.mantissa() == 0x16000000000003);
    lemma_in_parts(p1, 0x16000000000003, 21);
    assert(p2.step() == 1018 && p2.mantissa() == 0x10000000000004);
    lemma_in_parts(p2, 0x10000000000004, 18);
    let steep = num(BOUNCE);
    assert(steep.step() == 1024 && steep.mantissa() == 0x1E400000000000);
    lemma_in_parts(steep, 0x1E400000000000, 24);
    assert(lo.size() == 0x2E8BA2E8BA2E8C00000 * g);
    assert(c.size() == 0x345D1745D1745E00000 * g);
    assert(floor.size() == 0x3C00000000000000000 * g);
    assert(hi.size() == 0x3A2E8BA2E8BA2C00000 * g);
    assert(um.size() == 0x5D1745D1745D200000 * g);
    assert(p1.size() == 0x2C00000000000600000 * g);
    assert(p2.size() == 0x400000000000100000 * g);
    assert(steep.size() == 0x1E400000000000000000 * g);
    assert(one_unit() == 0x4000000000000000000 * g);
    assert((0x1E400000000000000000 * g) * (0x5D1745D1745D200000 * g) <= (0x2C00000000000600000 * g) * (0x4000000000000000000 * g))
        by (nonlinear_arith)
        requires
            g > 0,
    ;
    assert((0x2C00000000000600000 * g) * (0x5D1745D1745D200000 * g) <= (0x400000000000100000 * g) * (0x4000000000000000000 * g))
        by (nonlinear_arith)
        requires
            g > 0,
    ;
    crate::num::lemma_size_at_least(lo, t);
    crate::num::lemma_size_at_least(t, hi);
    lemma_bump(t, lo, hi, c, um, p1, p2, floor);
}

proof fn lemma_fourth_bounce(t: Num)
    requires
        counts(t),
        num(THIRD_DOWN).bits <= t.bits <= 0x3FF0_0000_0000_0000,
    ensures
        ({
            let u = sum_of(t, opposite_of(num(THIRD_UP)));
            between(sum_of(product_of(product_of(num(BOUNCE), u), u), num(THIRD_FLOOR)), 0, 1024)
        }),
{
    lemma2_to64();
    lemma2_to64_rest();
    lemma_pow2_pos(1000);
    lemma_pow2_adds(74, 1000);
    lemma_pow2_adds(22, 1000);
    lemma_pow2_adds(10, 64);
    let g = pow2(1000) as int;
    let (lo, c, floor) = (num(THIRD_DOWN), num(THIRD_UP), num(THIRD_FLOOR));
    let hi = num(0x3FF0_0000_0000_0000);
    let um = num(0x3FA7_45D1_745D_1750);
    let p1 = num(0x3FD6_0000_0000_000A);
    let p2 = num(0x3F90_0000_0000_000F);
    assert(lo.step() == 1021 && lo.mantissa() == 0x1D1745D1745D17);
    lemma_in_parts(lo, 0x1D1745D1745D17, 21);
    assert(c.step() == 1021 && c.mantissa() == 0x1E8BA2E8BA2E8C);
    lemma_in_parts(c, 0x1E8BA2E8BA2E8C, 21);
    assert(floor.step() == 1021 && floor.mantissa() == 0x1F800000000000);
    lemma_in_parts(floor, 0x1F800000000000, 21);
    assert(hi.step() == 1022 && hi.mantissa() == 0x10000000000000);
    lemma_in_parts(hi, 0x10000000000000, 22);
    assert(um.step() == 1017 && um.mantissa() == 0x1745D1745D1750);
    lemma_in_parts(um, 0x1745D1745D1750, 17);
    assert(p1.step() == 1020 && p1.mantissa() == 0x1600000000000A);
    lemma_in_parts(p1, 0x1600000000000A, 20);
    assert(p2.step() == 1016 && p2.mantissa() == 0x1000000000000F);
    lemma_in_parts(p2, 0x1000000000000F, 16);
    let steep = num(BOUNCE);
    assert(steep.step() == 1024 && steep.mantissa() == 0x1E400000000000);
    lemma_in_parts(steep, 0x1E400000000000, 24);
    assert(lo.size() == 0x3A2E8BA2E8BA2E00000 * g);
    assert(c.size() == 0x3D1745D1745D1800000 * g);
    assert(floor.size() == 0x3F00000000000000000 * g);
    assert(hi.size() == 0x4000000000000000000 * g);
    assert(um.size() == 0x2E8BA2E8BA2EA00000 * g);
    assert(p1.size() == 0x1600000000000A00000 * g);
    assert(p2.size() == 0x1000000000000F0000 * g);
    assert(steep.size() == 0x1E400000000000000000 * g);
    assert(one_unit() == 0x4000000000000000000 * g);
    assert((0x1E400000000000000000 * g) * (0x2E8BA2E8BA2EA00000 * g) <= (0x1600000000000A00000 * g) * (0x4000000000000000000 * g))
        by (nonlinear_arith)
        requires
            g > 0,
    ;
    assert((0x1600000000000A00000 * g) * (0x2E8BA2E8BA2EA00000 * g) <= (0x1000000000000F0000 * g) * (0x4000000000000000000 * g))
        by (nonlinear_arith)
        requires
            g > 0,
    ;
    crate::num::lemma_size_at_least(lo, t);
    crate::num::lemma_size_at_least(t, hi);
    lemma_bump(t, lo, hi, c, um, p1, p2, floor);
}

proof fn lemma_first_bounce(t: Num)
    requires
        between(t, 0, 1024),
        t.magnitude_bits() <= 0x3FD7_45D1_745D_1745,
    ensures
        between(product_of(product_of(num(BOUNCE), t), t), 0, 1024),
{
    lemma2_to64();
    lemma2_to64_rest();
    lemma_small_sizes();
    lemma_between_small();
    lemma_bounce_sizes();
    lemma_pow2_pos(1000);
    lemma_pow2_adds(74, 1000);
    lemma_pow2_adds(71, 1000);
    lemma_pow2_adds(10, 64);
    lemma_pow2_adds(7, 64);
    let g = pow2(1000) as int;
    let top = num(0x3FD7_45D1_745D_1745);
    let steep = num(BOUNCE);
    let span = num(BOUNCE_SPAN);
    let one = one_unit();
    assert(top.step() == 1020 && top.mantissa() == 0x1745D1745D1745);
    lemma_in_parts(top, 0x1745D1745D1745, 20);
    assert(top.size() == 0x1745D1745D174500000 * g);
    assert(steep.step() == 1024 && steep.mantissa() == 0x1E400000000000);
    lemma_in_parts(steep, 0x1E400000000000, 24);
    assert(steep.size() == 0x1E400000000000000000 * g);
    assert(one == 0x4000000000000000000 * g);
    assert(span.size() == 0xB000000000000000000 * g);
    crate::num::lemma_size_at_least(t, top);
    let zero = num(0);
    lemma_size_zero(zero);
    let x = t.size() as int;
    let first = steep.size() * t.size();
    assert(0 * one == 0);
    assert(first <= (0xB000000000000000000 * g) * (0x4000000000000000000 * g)) by (nonlinear_arith)
        requires
            first == (0x1E400000000000000000 * g) * x,
            0 <= x <= 0x1745D1745D174500000 * g,
            g > 0,
    ;
    lemma_rounded_between(first, one, zero, span);
    lemma_rounded_sign(first, one);
    let y = product_of(steep, t);
    assert(y.finite() && y.size() <= span.size() && y.negative() == t.negative()) by {
        reveal(product_of);
    }
    let w = y.size() as int;
    let second = y.size() * t.size();
    assert(second <= (0x4000000000000000000 * g) * (0x4000000000000000000 * g)) by (nonlinear_arith)
        requires
            second == w * x,
            0 <= x <= 0x1745D1745D174500000 * g,
            0 <= w <= 0xB000000000000000000 * g,
            g > 0,
    ;
    lemma_rounded_between(second, one, zero, num(ONE));
    assert(product_of(y, t) == rounded(false, second, one)) by {
        reveal(product_of);
    }
}

proof fn lemma_bounce_within(t: Num)
    requires
        between(t, 0, 1024),
    ensures
        between(Easing::BounceOut.curve(t), 0, 1024),
{
    lemma_bounce_times();
    lemma_between_small();
    lemma_size_zero(t);
    crate::num::lemma_size_at_most(t, num(ONE));
    reveal(less);
    if less(t, num(FIRST_DOWN)) {
        lemma_first_bounce(t);
    } else {
        assert(!t.negative());
        assert(t.magnitude_bits() == t.bits);
        if less(t, num(SECOND_DOWN)) {
            lemma_second_bounce(t);
        } else if less(t, num(THIRD_DOWN)) {
            lemma_third_bounce(t);
        } else {
            lemma_fourth_bounce(t);
        }
    }
}

/// The kinds that do not overshoot stay within 0 and 1.
pub proof fn lemma_eased_within(ease: Easing, t: Num)
    requires
        !t.nan(),
        ease == Easing::Linear || ease == Easing::QuadIn || ease == Easing::QuadOut || ease
            == Easing::QuadInOut || ease == Easing::CubicIn || ease == Easing::CubicOut || ease
            == Easing::CubicInOut || ease == Easing::Step || ease == Easing::BounceOut,
    ensures
        at_most(num(0), ease.eased(t)),
        at_most(ease.eased(t), num(ONE)),
{
    reveal(Easing::eased);
    let zero = num(0);
    let x = clamp_of(t, zero, num(ONE));
    lemma_between_small();
    assert(between(x, 0, 1024)) by {
        reveal(less);
        crate::num::lemma_size_at_least(x, num(ONE));
        lemma_size_zero(x);
    }
    if ease == Easing::BounceOut {
        lemma_bounce_within(x);
    } else {
        lemma_curve_within(ease, x);
    }
    let y = ease.curve(x);
    assert(at_most(zero, y) && at_most(y, num(ONE))) by {
        reveal(less);
        reveal(equal);
        lemma_size_zero(y);
        crate::num::lemma_size_at_most(y, num(ONE));
    }
}

/// Small whole numbers, in parts of 1024.
proof fn lemma_between_small()
    ensures
        between(num(0), 0, 0),
        between(num(ONE), 1024, 1024),
        between(num(TWO), 2048, 2048),
        between(num(FOUR), 4096, 4096),
        between(num(HALF), 512, 512),
        between(num(MINUS_ONE), -1024, -1024),
        one_unit() == 1024 * pow2(1064),
        pow2(1064) > 0,
{
    lemma_small_sizes();
    lemma2_to64();
    lemma_pow2_pos(1064);
    lemma_pow2_adds(10, 1064);
    lemma_size_zero(num(0));
    lemma_opposite(num(ONE));
    assert(num(MINUS_ONE) == opposite_of(num(ONE))) by {
        reveal(opposite_of);
    }
}

proof fn lemma_curve_within(ease: Easing, t: Num)
    requires
        between(t, 0, 1024),
        ease == Easing::Linear || ease == Easing::QuadIn || ease == Easing::QuadOut || ease
            == Easing::QuadInOut || ease == Easing::CubicIn || ease == Easing::CubicOut || ease
            == Easing::CubicInOut || ease == Easing::Step,
    ensures
        between(ease.curve(t), 0, 1024),
{
    lemma_between_small();
    let (zero, half, one, two, four) = (num(0), num(HALF), num(ONE), num(TWO), num(FOUR));
    match ease {
        Easing::Linear => {},
        Easing::Step => {},
        Easing::QuadIn => {
            lemma_between_product(t, t, 1024, 1024, 1024);
        },
        Easing::CubicIn => {
            lemma_between_product(t, t, 1024, 1024, 1024);
            lemma_between_product(product_of(t, t), t, 1024, 1024, 1024);
        },
        Easing::CubicOut => {
            lemma_between_opposite(one, 1024, 1024);
            let u = sum_of(t, opposite_of(one));
            lemma_between_sum(t, opposite_of(one), 0, 1024, -1024, -1024);
            lemma_between_product(u, u, 1024, 1024, 1024);
            let cube = product_of(product_of(u, u), u);
            lemma_between_product(product_of(u, u), u, 1024, 1024, 1024);
            lemma_between_sum(cube, one, -1024, 0, 1024, 1024);
        },
        Easing::CubicInOut => {
            if less(t, half) {
                lemma_below(t, half);
                let a = product_of(four, t);
                lemma_between_product(four, t, 4096, 512, 2048);
                lemma_between_product(a, t, 2048, 512, 1024);
                lemma_between_product(product_of(a, t), t, 1024, 512, 512);
            } else {
                let double = product_of(two, t);
                lemma_between_product(two, t, 2048, 1024, 2048);
                lemma_between_opposite(two, 2048, 2048);
                lemma_doubled(t);
                lemma_above(t, half);
                let u = sum_of(double, opposite_of(two));
                lemma_between_sum(double, opposite_of(two), 1024, 2048, -2048, -2048);
                let a = product_of(half, u);
                lemma_between_product(half, u, 512, 1024, 512);
                let b = product_of(a, u);
                lemma_between_product(a, u, 512, 1024, 512);
                lemma_between_product(b, u, 512, 1024, 512);
                lemma_between_sum(product_of(b, u), one, -512, 0, 1024, 1024);
            }
        },
        Easing::QuadOut => {
            let w = sum_of(two, opposite_of(t));
            if t.size() == 0 {
                lemma_between_opposite(t, 0, 1024);
                lemma_between_sum(two, opposite_of(t), 2048, 2048, -1024, 0);
                lemma_size_zero(t);
                lemma_times_zero(w, t);
                lemma_size_zero(product_of(t, w));
            } else {
                lemma_small_sizes();
                lemma_opposite(t);
                assert(w == rounded(false, (1 * (2 * one_unit() - t.size())) as nat, 1)) by {
                    reveal(sum_of);
                }
                lemma_parabola(t, 1, 1022, w);
            }
        },
        Easing::QuadInOut => {
            let double = product_of(two, t);
            lemma_between_product(two, t, 2048, 1024, 2048);
            if less(t, half) {
                lemma_below(t, half);
                lemma_between_product(two, t, 2048, 512, 1024);
                lemma_between_product(double, t, 1024, 512, 512);
            } else {
                lemma_above(t, half);
                lemma_doubled(t);
                lemma_small_sizes();
                lemma_opposite(double);
                let w = sum_of(four, opposite_of(double));
                assert(w == rounded(false, (2 * (2 * one_unit() - t.size())) as nat, 1)) by {
                    reveal(sum_of);
                }
                lemma_parabola(t, 2, 1023, w);
                let y = product_of(w, t);
                lemma_product_at_least(w, t);
                lemma_between_sum(num(MINUS_ONE), y, -1024, -1024, 1024, 2048);
            }
        },
        _ => {},
    }
}

/// A number below another is at most as large.
proof fn lemma_below(t: Num, bound: Num)
    requires
        less(t, bound),
        between(t, 0, 1024),
        between(bound, 512, 512),
    ensures
        between(t, 0, 512),
{
    reveal(less);
    lemma_pow2_pos(1064);
    lemma_size_zero(bound);
    if !t.negative() {
        crate::num::lemma_size_at_least(t, bound);
    }
}

/// A number that is not below another is at least as large.
proof fn lemma_above(t: Num, bound: Num)
    requires
        !less(t, bound),
        between(t, 0, 1024),
        between(bound, 512, 512),
    ensures
        between(t, 512, 1024),
        t.units() == t.size(),
        t.size() > 0,
{
    reveal(less);
    lemma_pow2_pos(1064);
    lemma_size_zero(t);
    assert(!bound.negative());
    assert(!t.negative());
    crate::num::lemma_size_at_least(bound, t);
}

/// Twice a number is exact.
proof fn lemma_doubled(t: Num)
    requires
        between(t, 0, 1024),
    ensures
        product_of(num(TWO), t).size() == 2 * t.size(),
        product_of(num(TWO), t).negative() == t.negative(),
        product_of(num(TWO), t).finite(),
{
    reveal(product_of);
    lemma_small_sizes();
    lemma_between_small();
    crate::num::lemma_mantissa_bound(t);
    let u = one_unit();
    let n = 2 * t.size();
    lemma_magnitude_scale(n, 1, u);
    assert(1 * u == u);
    assert((2 * u) * t.size() == n * u) by (nonlinear_arith)
        requires
            n == 2 * t.size(),
    ;
    lemma_pow2_unfold(t.step() + 1);
    let (m, p) = (t.mantissa(), pow2(t.step()));
    assert(m * (2 * p) == 2 * (m * p)) by (nonlinear_arith);
    lemma_step_small(t);
    assert((m * pow2(t.step() + 1)) * 1 == n);
    lemma_rounded_within(n, 1, m, m, t.step() + 1);
    reveal(rounded);
}

/// A small number has a small step.
proof fn lemma_step_small(t: Num)
    requires
        between(t, 0, 1024),
    ensures
        t.step() <= 1022,
{
    lemma_between_small();
    if t.magnitude_bits() > num(ONE).magnitude_bits() {
        crate::num::lemma_size_at_least(num(ONE), t);
        lemma_size_zero(t);
        assert(t.size() <= one_unit());
        crate::num::lemma_size_at_most(t, num(ONE));
    }
}

/// A number of two or more, times a half or more, is one or more.
proof fn lemma_product_at_least(w: Num, t: Num)
    requires
        between(w, 2048, 4096),
        between(t, 512, 1024),
        between(product_of(w, t), 0, 2048),
    ensures
        between(product_of(w, t), 1024, 2048),
{
    lemma_between_small();
    lemma_size_zero(w);
    lemma_size_zero(t);
    let v = pow2(1064) as int;
    let u = one_unit();
    let n = w.size() * t.size();
    let (a, b) = (w.size() as int, t.size() as int);
    assert((1024 * v) * u <= n <= (4096 * v) * u) by (nonlinear_arith)
        requires
            n == a * b,
            2048 * v <= a <= 4096 * v,
            512 * v <= b <= 1024 * v,
            u == 1024 * v,
            v > 0,
    ;
    lemma_rounded_within(n, u, 1024, 4096, 1064);
    assert(product_of(w, t) == rounded(false, n, u)) by {
        reveal(product_of);
    }
}

} // verus!
