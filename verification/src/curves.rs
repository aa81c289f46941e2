//! What the easings and the blends between colors come to.

use crate::arith::lemma_small_sizes;
use crate::easing::{Easing, FOUR, MINUS_ONE};
use crate::exact::{
    is_at, is_whole, lemma_compare_at, lemma_difference_at, lemma_finer, lemma_from_int_at,
    lemma_product_at, lemma_small_whole, lemma_sum_at,
};
use crate::lamp::TOP;
use crate::num::{
    clamp_of, from_int, lemma_size_zero, num, one_unit, opposite_of, product_of, round_of, sum_of,
    to_byte_of, to_u64_of, Num,
};
use crate::order::lemma_rounded_within;
use crate::state::ColorChange;
use crate::waves::{HALF, ONE, TWO};
use vstd::arithmetic::div_mod::lemma_fundamental_div_mod_converse;
use vstd::arithmetic::power2::{
    lemma2_to64, lemma2_to64_rest, lemma_pow2_adds, lemma_pow2_pos, pow2,
};
use vstd::prelude::*;

verus! {

/// A share of the way, in parts of 1024.
pub open spec fn share(t: Num, k: int) -> bool {
    is_at(t, k, 1064) && 0 <= k <= 1024
}

/// `n` times a square.
pub open spec fn square_of(n: int, k: int) -> int {
    n * (k * k)
}

/// `n` times a cube.
pub open spec fn cube_of(n: int, k: int) -> int {
    n * (k * k * k)
}

/// Half as many places on a grid twice as coarse.
proof fn lemma_coarser(x: Num, a: int, t: nat)
    requires
        is_at(x, 2 * a, t),
    ensures
        is_at(x, a, t + 1),
{
    lemma2_to64();
    lemma_pow2_adds(1, t);
    let p = pow2(t) as int;
    assert((2 * a) * p == a * (2 * p)) by (nonlinear_arith);
}

proof fn lemma_named()
    ensures
        is_at(num(ONE), 1024, 1064),
        is_at(num(TWO), 2048, 1064),
        is_at(num(HALF), 512, 1064),
        is_at(num(0), 0, 1064),
        is_whole(num(TWO), 2),
        is_whole(num(FOUR), 4),
        is_at(num(FOUR), 4096, 1064),
        is_whole(num(MINUS_ONE), -1),
{
    lemma_small_whole();
    lemma_small_sizes();
    lemma2_to64();
    lemma_finer(num(ONE), 1, 1074, 1064);
    lemma_finer(num(TWO), 2, 1074, 1064);
    lemma_finer(num(FOUR), 4, 1074, 1064);
    lemma_finer(num(HALF), 1, 1073, 1064);
    let (a, b) = (num(ONE), num(MINUS_ONE));
    assert(b.magnitude_bits() == a.magnitude_bits());
    assert(b.size() == a.size());
}

proof fn lemma_clamped_share(t: Num, k: int)
    requires
        share(t, k),
    ensures
        share(clamp_of(t, num(0), num(ONE)), k),
        k != 0 ==> clamp_of(t, num(0), num(ONE)) == t,
{
    lemma_named();
    lemma_compare_at(t, num(0), k, 0, 1064);
    lemma_compare_at(num(ONE), t, 1024, k, 1064);
}

/// What is squared grows with the square of the share gone; on the way out it is what is left
/// that does, and between the two it is one half each.
#[verifier::rlimit(40)]
pub proof fn lemma_squared(t: Num, k: int)
    requires
        share(t, k),
    ensures
        is_at(Easing::QuadIn.eased(t), square_of(1, k), 1054),
        is_at(Easing::QuadOut.eased(t), 0x10_0000 - square_of(1, 1024 - k), 1054),
        is_at(
            Easing::QuadInOut.eased(t),
            if k < 512 {
                square_of(2, k)
            } else {
                0x10_0000 - square_of(2, 1024 - k)
            },
            1054,
        ),
{
    reveal(Easing::eased);
    lemma_named();
    lemma_clamped_share(t, k);
    let t = clamp_of(t, num(0), num(ONE));
    let j = 1024 - k;
    assert(0 <= k * k <= 0x10_0000 && 0 <= 2048 * k <= 0x20_0000) by (nonlinear_arith)
        requires
            0 <= k <= 1024,
    ;
    // In, and out.
    lemma_product_at(t, t, k, k, 1064, 1064);
    lemma_difference_at(num(TWO), t, 2048, k, 1064);
    assert(k * (2048 - k) == 2048 * k - k * k) by (nonlinear_arith);
    lemma_product_at(t, sum_of(num(TWO), opposite_of(t)), k, 2048 - k, 1064, 1064);
    assert(j * j == 0x10_0000 - 2048 * k + k * k) by (nonlinear_arith)
        requires
            j == 1024 - k,
    ;
    // Both.
    lemma_compare_at(t, num(HALF), k, 512, 1064);
    let double = product_of(num(TWO), t);
    lemma_product_at(num(TWO), t, 2, k, 1074, 1064);
    assert((2 * k) * k == 2 * (k * k)) by (nonlinear_arith);
    lemma_product_at(double, t, 2 * k, k, 1064, 1064);
    let rest = sum_of(num(FOUR), opposite_of(double));
    lemma_difference_at(num(FOUR), double, 4096, 2 * k, 1064);
    assert((4096 - 2 * k) * k == 2 * (2048 * k) - 2 * (k * k)) by (nonlinear_arith);
    lemma_product_at(rest, t, 4096 - 2 * k, k, 1064, 1064);
    lemma2_to64();
    lemma_finer(num(MINUS_ONE), -1, 1074, 1054);
    lemma_sum_at(num(MINUS_ONE), product_of(rest, t), -0x10_0000, (4096 - 2 * k) * k, 1054);
}

/// The same of what is cubed.
#[verifier::rlimit(40)]
pub proof fn lemma_cubed(t: Num, k: int)
    requires
        share(t, k),
    ensures
        is_at(Easing::CubicIn.eased(t), cube_of(1, k), 1044),
        is_at(Easing::CubicOut.eased(t), 0x4000_0000 - cube_of(1, 1024 - k), 1044),
        is_at(
            Easing::CubicInOut.eased(t),
            if k < 512 {
                cube_of(4, k)
            } else {
                0x4000_0000 - cube_of(4, 1024 - k)
            },
            1044,
        ),
{
    reveal(Easing::eased);
    lemma_named();
    lemma_clamped_share(t, k);
    let t = clamp_of(t, num(0), num(ONE));
    let j = 1024 - k;
    lemma2_to64();
    assert(0 <= k * k <= 0x10_0000 && 0 <= k * k * k <= 0x4000_0000) by (nonlinear_arith)
        requires
            0 <= k <= 1024,
    ;
    assert(0 <= j * j <= 0x10_0000 && 0 <= j * j * j <= 0x4000_0000) by (nonlinear_arith)
        requires
            0 <= j <= 1024,
    ;
    // In.
    let two = product_of(t, t);
    lemma_product_at(t, t, k, k, 1064, 1064);
    lemma_product_at(two, t, k * k, k, 1054, 1064);
    // Out.
    let u = sum_of(t, opposite_of(num(ONE)));
    lemma_difference_at(t, num(ONE), k, 1024, 1064);
    assert((-j) * (-j) == j * j && (j * j) * (-j) == -(j * j * j)) by (nonlinear_arith);
    lemma_product_at(u, u, -j, -j, 1064, 1064);
    lemma_product_at(product_of(u, u), u, j * j, -j, 1054, 1064);
    lemma_finer(num(ONE), 1, 1074, 1044);
    lemma_sum_at(product_of(product_of(u, u), u), num(ONE), -(j * j * j), 0x4000_0000, 1044);
    // Both.
    lemma_compare_at(t, num(HALF), k, 512, 1064);
    let a = product_of(num(FOUR), t);
    assert((4 * k) * k == 4 * (k * k) && (4 * (k * k)) * k == 4 * (k * k * k)) by (nonlinear_arith);
    lemma_product_at(num(FOUR), t, 4, k, 1074, 1064);
    lemma_product_at(a, t, 4 * k, k, 1064, 1064);
    lemma_product_at(product_of(a, t), t, 4 * (k * k), k, 1054, 1064);
    lemma_both_cubed(t, k, j);
}

#[verifier::rlimit(40)]
proof fn lemma_both_cubed(t: Num, k: int, j: int)
    requires
        share(t, k),
        j == 1024 - k,
        0 <= j * j <= 0x10_0000 && 0 <= j * j * j <= 0x4000_0000,
    ensures
        ({
            let v = sum_of(product_of(num(TWO), t), opposite_of(num(TWO)));
            let r = sum_of(product_of(product_of(product_of(num(HALF), v), v), v), num(ONE));
            is_at(r, 0x4000_0000 - cube_of(4, j), 1044)
        }),
{
    lemma_named();
    lemma_small_whole();
    lemma2_to64();
    let v = sum_of(product_of(num(TWO), t), opposite_of(num(TWO)));
    lemma_product_at(num(TWO), t, 2, k, 1074, 1064);
    lemma_difference_at(product_of(num(TWO), t), num(TWO), 2 * k, 2048, 1064);
    let d = -2 * j;
    assert(d * d == 4 * (j * j) && (4 * (j * j)) * d == -8 * (j * j * j)) by (nonlinear_arith)
        requires
            d == -2 * j,
    ;
    let a = product_of(num(HALF), v);
    lemma_product_at(num(HALF), v, 1, d, 1073, 1064);
    lemma_product_at(a, v, d, d, 1063, 1064);
    lemma_product_at(product_of(a, v), v, 4 * (j * j), d, 1053, 1064);
    let c = product_of(product_of(a, v), v);
    lemma_finer(num(ONE), 1, 1074, 1043);
    lemma_sum_at(c, num(ONE), -8 * (j * j * j), 0x8000_0000, 1043);
    lemma_coarser(sum_of(c, num(ONE)), 0x4000_0000 - cube_of(4, j), 1043);
}

/// A step stays where it was until the whole way has gone.
pub proof fn lemma_stepped(t: Num, k: int)
    requires
        share(t, k),
    ensures
        is_whole(Easing::Step.eased(t), if k < 1024 {
            0
        } else {
            1
        }),
        is_at(Easing::Linear.eased(t), k, 1064),
{
    reveal(Easing::eased);
    lemma_named();
    lemma_small_whole();
    lemma_clamped_share(t, k);
    let t = clamp_of(t, num(0), num(ONE));
    lemma_compare_at(t, num(ONE), k, 1024, 1064);
}

/// A color on its way is, channel by channel, the nearest there is to that share of the way.
#[verifier::rlimit(40)]
pub proof fn lemma_color_on_the_way(c: ColorChange, t: Num, k: int, i: int)
    requires
        share(t, k),
        0 <= i < 4,
    ensures
        ({
            let (from, to) = (c.start[i] as int, c.target[i] as int);
            let at = 1024 * c.channel(i, t);
            &&& -512 <= at - (1024 * from + (to - from) * k) <= 512
            &&& c.channel(i, t) == c.color(t)[i]
        }),
{
    let (from, to) = (c.start[i] as int, c.target[i] as int);
    let (a, b) = (from_int(from), from_int(to));
    lemma2_to64();
    lemma_from_int_at(from);
    lemma_from_int_at(to);
    lemma_difference_at(b, a, to, from, 1074);
    let d = sum_of(b, opposite_of(a));
    let m = (to - from) * k;
    assert(-0x4_0000 < m < 0x4_0000 && 0 <= 1024 * from + m <= 1024 * 255) by (nonlinear_arith)
        requires
            0 <= from <= 255,
            0 <= to <= 255,
            0 <= k <= 1024,
            m == (to - from) * k,
    ;
    lemma_product_at(d, t, to - from, k, 1074, 1064);
    lemma_finer(a, from, 1074, 1064);
    assert(from * 1024 == 1024 * from);
    lemma_sum_at(a, product_of(d, t), 1024 * from, m, 1064);
    lemma_rounded_byte(sum_of(a, product_of(d, t)), 1024 * from + m);
}

/// A number from 0 to 255, in parts of 1024, as a byte.
#[verifier::rlimit(40)]
proof fn lemma_rounded_byte(x: Num, a: int)
    requires
        is_at(x, a, 1064),
        0 <= a <= 1024 * 255,
    ensures
        ({
            let r = to_byte_of(clamp_of(round_of(x), num(0), num(TOP))) as int;
            -512 <= 1024 * r - a <= 512
        }),
{
    reveal(round_of);
    reveal(to_u64_of);
    lemma_pow2_pos(1064);
    lemma_pow2_pos(1074);
    lemma_pow2_adds(10, 1064);
    lemma2_to64();
    let (p, u) = (pow2(1064) as int, one_unit() as int);
    assert(a * p >= 0) by (nonlinear_arith)
        requires
            a >= 0,
            p > 0,
    ;
    assert(x.size() == a * p);
    let k = (a + 512) / 1024;
    let over = 2 * x.size() + u - k * (2 * u);
    assert(0 <= over < 2 * u) by (nonlinear_arith)
        requires
            over == 2 * (a * p) + u - k * (2 * u),
            u == 1024 * p,
            p > 0,
            1024 * k <= a + 512 < 1024 * k + 1024,
    ;
    lemma_fundamental_div_mod_converse(2 * x.size() + u, 2 * u, k, over);
    let n = (k * u) as nat;
    assert(k * u >= 0) by (nonlinear_arith)
        requires
            k >= 0,
            u > 0,
    ;
    let r = round_of(x);
    lemma_top();
    lemma_small_whole();
    if x.negative() {
        assert(a * p == 0);
        assert(a == 0) by (nonlinear_arith)
            requires
                a * p == 0,
                p > 0,
        ;
        assert(k * u == 0) by (nonlinear_arith)
            requires
                k == 0,
        ;
        crate::arith::lemma_zero_rounds(true, 1);
        lemma_size_zero(r);
    } else {
        lemma_rounded_within(n, 1, k as nat, k as nat, 1074);
    }
    assert(is_whole(r, k));
    lemma_compare_at(r, num(0), k, 0, 1074);
    lemma_compare_at(num(TOP), r, 255, k, 1074);
    lemma_fundamental_div_mod_converse(k * u, u, k, 0);
}

pub(crate) proof fn lemma_top()
    ensures
        is_whole(num(TOP), 255),
{
    let x = num(TOP);
    lemma2_to64_rest();
    lemma_pow2_adds(45, 1029);
    assert(x.step() == 1029);
    assert(x.mantissa() == 255 * 0x2000_0000_0000);
    let p = pow2(1029) as int;
    assert((255 * 0x2000_0000_0000) * p == 255 * (0x2000_0000_0000 * p)) by (nonlinear_arith);
}

} // verus!
