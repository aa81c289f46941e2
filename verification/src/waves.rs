//! Elementary functions on [`Num`]: the ones a platform's math library would give, worked
//! out here with the same arithmetic on every machine.

use crate::big::{lemma_total_pos, magnitude_big, total, Big};
use crate::num::{
    equal, from_int, less, not_a_number, opposite_of, product_of, quotient_of, round_of,
    sum_of, to_i64_of, num, Num, HIDDEN, INFINITE, QUIET_NAN, SIGN,
};
use crate::num::{
    bit_length, lemma_magnitude_scale, lemma_size_zero, magnitude, nearest, one_unit, round_scaled,
    rounded, two_to,
};
use vstd::arithmetic::div_mod::{
    lemma_fundamental_div_mod, lemma_fundamental_div_mod_converse, lemma_mod_bound,
    lemma_mod_multiples_vanish, lemma_small_mod,
};
use vstd::arithmetic::power2::{
    lemma2_to64, lemma2_to64_rest, lemma_pow2_adds, lemma_pow2_pos, lemma_pow2_strictly_increases,
    lemma_pow2_unfold, pow2,
};
use vstd::prelude::*;

verus! {

/// 1.0.
pub const ONE: u64 = 0x3FF0_0000_0000_0000;

/// 2.0.
pub const TWO: u64 = 0x4000_0000_0000_0000;

/// 4.0.
pub const FOUR: u64 = 0x4010_0000_0000_0000;

/// 0.5.
pub const HALF: u64 = 0x3FE0_0000_0000_0000;

/// The high part of a quarter turn in radians.
pub const QUARTER_HIGH: u64 = 0x3FF9_21FB_5440_0000;

/// The low part of a quarter turn in radians.
pub const QUARTER_LOW: u64 = 0x3DD0_B461_1A62_6331;

/// The inverse of a quarter turn in radians.
pub const QUARTERS: u64 = 0x3FE4_5F30_6DC9_C883;

/// A full turn in radians.
pub const TURN: u64 = 0x4019_21FB_5444_2D18;

/// A quarter turn in radians.
pub const QUARTER: u64 = 0x3FF9_21FB_5444_2D18;

/// One degree in radians.
pub const DEGREE: u64 = 0x3F91_DF46_A252_9D39;

/// The high part of the natural logarithm of 2.
pub const LN_TWO_HIGH: u64 = 0x3FE6_2E42_FEE0_0000;

/// The low part of the natural logarithm of 2.
pub const LN_TWO_LOW: u64 = 0x3DEA_39EF_3579_3C76;

/// The inverse of the natural logarithm of 2.
pub const PER_LN_TWO: u64 = 0x3FF7_1547_652B_82FE;

/// The square root of 2.
pub const ROOT_TWO: u64 = 0x3FF6_A09E_667F_3BCD;

/// The angle past which whole turns are taken off first.
pub const FAR: u64 = 0x40F8_6A00_0000_0000;

/// Where the exponential passes the largest double.
pub const EXP_TOP: u64 = 0x4086_2E42_FEFA_39EF;

/// Where the exponential passes below the smallest double.
pub const EXP_BOTTOM: u64 = 0xC087_4910_D52D_3051;


/// The terms of the sine behind the first.
pub open spec fn sine_terms() -> Seq<u64> {
    seq![
        0xBFC5_5555_5555_5549,
        0x3F81_1111_1110_F8A6,
        0xBF2A_01A0_19C1_61D5,
        0x3EC7_1DE3_57B1_FE7D,
        0xBE5A_E5E6_8A2B_9CEB,
        0x3DE5_D93A_5ACF_D57C,
    ]
}

fn sine_list() -> (r: [u64; 6])
    ensures
        r@ == sine_terms(),
{
    let r: [u64; 6] = [
        0xBFC5_5555_5555_5549,
        0x3F81_1111_1110_F8A6,
        0xBF2A_01A0_19C1_61D5,
        0x3EC7_1DE3_57B1_FE7D,
        0xBE5A_E5E6_8A2B_9CEB,
        0x3DE5_D93A_5ACF_D57C,
    ];
    assert(r@ =~= sine_terms());
    r
}

/// The terms of the cosine behind the first two.
pub open spec fn cosine_terms() -> Seq<u64> {
    seq![
        0x3FA5_5555_5555_554C,
        0xBF56_C16C_16C1_5177,
        0x3EFA_01A0_19CB_1590,
        0xBE92_7E4F_809C_52AD,
        0x3E21_EE9E_BDB4_B1C4,
        0xBDA8_FAE9_BE88_38D4,
    ]
}

fn cosine_list() -> (r: [u64; 6])
    ensures
        r@ == cosine_terms(),
{
    let r: [u64; 6] = [
        0x3FA5_5555_5555_554C,
        0xBF56_C16C_16C1_5177,
        0x3EFA_01A0_19CB_1590,
        0xBE92_7E4F_809C_52AD,
        0x3E21_EE9E_BDB4_B1C4,
        0xBDA8_FAE9_BE88_38D4,
    ];
    assert(r@ =~= cosine_terms());
    r
}

/// The terms of the exponential.
pub open spec fn exponential_terms() -> Seq<u64> {
    seq![
        0x3FF0_0000_0000_0000,
        0x3FF0_0000_0000_0000,
        0x3FE0_0000_0000_0000,
        0x3FC5_5555_5555_5555,
        0x3FA5_5555_5555_5555,
        0x3F81_1111_1111_1111,
        0x3F56_C16C_16C1_6C17,
        0x3F2A_01A0_1A01_A01A,
        0x3EFA_01A0_1A01_A01A,
        0x3EC7_1DE3_A556_C734,
        0x3E92_7E4F_B778_9F5C,
        0x3E5A_E645_67F5_44E4,
        0x3E21_EED8_EFF8_D898,
        0x3DE6_1246_13A8_6D09,
    ]
}

fn exponential_list() -> (r: [u64; 14])
    ensures
        r@ == exponential_terms(),
{
    let r: [u64; 14] = [
        0x3FF0_0000_0000_0000,
        0x3FF0_0000_0000_0000,
        0x3FE0_0000_0000_0000,
        0x3FC5_5555_5555_5555,
        0x3FA5_5555_5555_5555,
        0x3F81_1111_1111_1111,
        0x3F56_C16C_16C1_6C17,
        0x3F2A_01A0_1A01_A01A,
        0x3EFA_01A0_1A01_A01A,
        0x3EC7_1DE3_A556_C734,
        0x3E92_7E4F_B778_9F5C,
        0x3E5A_E645_67F5_44E4,
        0x3E21_EED8_EFF8_D898,
        0x3DE6_1246_13A8_6D09,
    ];
    assert(r@ =~= exponential_terms());
    r
}

/// The terms of the logarithm.
pub open spec fn logarithm_terms() -> Seq<u64> {
    seq![
        0x3FF0_0000_0000_0000,
        0x3FD5_5555_5555_5555,
        0x3FC9_9999_9999_999A,
        0x3FC2_4924_9249_2492,
        0x3FBC_71C7_1C71_C71C,
        0x3FB7_45D1_745D_1746,
        0x3FB3_B13B_13B1_3B14,
        0x3FB1_1111_1111_1111,
        0x3FAE_1E1E_1E1E_1E1E,
        0x3FAA_F286_BCA1_AF28,
        0x3FA8_6186_1861_8618,
        0x3FA6_42C8_590B_2164,
    ]
}

fn logarithm_list() -> (r: [u64; 12])
    ensures
        r@ == logarithm_terms(),
{
    let r: [u64; 12] = [
        0x3FF0_0000_0000_0000,
        0x3FD5_5555_5555_5555,
        0x3FC9_9999_9999_999A,
        0x3FC2_4924_9249_2492,
        0x3FBC_71C7_1C71_C71C,
        0x3FB7_45D1_745D_1746,
        0x3FB3_B13B_13B1_3B14,
        0x3FB1_1111_1111_1111,
        0x3FAE_1E1E_1E1E_1E1E,
        0x3FAA_F286_BCA1_AF28,
        0x3FA8_6186_1861_8618,
        0x3FA6_42C8_590B_2164,
    ];
    assert(r@ =~= logarithm_terms());
    r
}

/// The terms of the arc tangent.
pub open spec fn arc_terms() -> Seq<u64> {
    seq![
        0x3FF0_0000_0000_0000,
        0xBFD5_5555_5555_5555,
        0x3FC9_9999_9999_999A,
        0xBFC2_4924_9249_2492,
        0x3FBC_71C7_1C71_C71C,
        0xBFB7_45D1_745D_1746,
        0x3FB3_B13B_13B1_3B14,
        0xBFB1_1111_1111_1111,
        0x3FAE_1E1E_1E1E_1E1E,
        0xBFAA_F286_BCA1_AF28,
        0x3FA8_6186_1861_8618,
        0xBFA6_42C8_590B_2164,
        0x3FA4_7AE1_47AE_147B,
        0xBFA2_F684_BDA1_2F68,
    ]
}

fn arc_list() -> (r: [u64; 14])
    ensures
        r@ == arc_terms(),
{
    let r: [u64; 14] = [
        0x3FF0_0000_0000_0000,
        0xBFD5_5555_5555_5555,
        0x3FC9_9999_9999_999A,
        0xBFC2_4924_9249_2492,
        0x3FBC_71C7_1C71_C71C,
        0xBFB7_45D1_745D_1746,
        0x3FB3_B13B_13B1_3B14,
        0xBFB1_1111_1111_1111,
        0x3FAE_1E1E_1E1E_1E1E,
        0xBFAA_F286_BCA1_AF28,
        0x3FA8_6186_1861_8618,
        0xBFA6_42C8_590B_2164,
        0x3FA4_7AE1_47AE_147B,
        0xBFA2_F684_BDA1_2F68,
    ];
    assert(r@ =~= arc_terms());
    r
}

/// A polynomial with the given terms, the constant one first.
pub open spec fn polynomial(terms: Seq<u64>, x: Num) -> Num
    decreases terms.len(),
{
    if terms.len() == 0 {
        num(0)
    } else {
        sum_of(Num { bits: terms[0] }, product_of(x, polynomial(terms.drop_first(), x)))
    }
}

fn polynomial_at(terms: &[u64], x: Num) -> (r: Num)
    ensures
        r == polynomial(terms@, x),
{
    let mut i: usize = terms.len();
    let mut r = num(0);
    assert(terms@.skip(i as int) =~= Seq::<u64>::empty());
    while i > 0
        invariant
            i <= terms.len(),
            r == polynomial(terms@.skip(i as int), x),
        decreases i,
    {
        i = i - 1;
        r = Num { bits: terms[i] }.plus(x.times(r));
        assert(terms@.skip(i as int).drop_first() =~= terms@.skip(i as int + 1));
    }
    assert(terms@.skip(0) =~= terms@);
    r
}

/// The sine of a small angle.
pub open spec fn small_sine(r: Num) -> Num {
    let z = product_of(r, r);
    sum_of(r, product_of(product_of(r, z), polynomial(sine_terms(), z)))
}

/// The cosine of a small angle.
pub open spec fn small_cosine(r: Num) -> Num {
    let z = product_of(r, r);
    sum_of(
        sum_of(num(ONE), opposite_of(product_of(num(HALF), z))),
        product_of(product_of(z, z), polynomial(cosine_terms(), z)),
    )
}

/// A full turn in radians, cut off behind 1216 binary digits: the limbs of the number of parts
/// of that size, the lowest one first. The largest angle has fewer than two to the power 1022
/// turns, so what is cut off stays far below the last digit of an angle.
pub open spec fn turn_limbs() -> Seq<u32> {
    seq![
        0x042A_95DC, 0xE317_9AB1, 0xE51D_6CB0, 0x1B2A_E91E, 0xE926_7AFC, 0x48B1_FD47,
        0xE2AE_9CD3, 0xC6D2_41B0, 0x0B1D_F82C, 0x1003_E5C5, 0x6722_D9EE, 0x4943_328F,
        0xE258_FF32, 0x74F9_208B, 0xD44C_FD2D, 0x71C3_5FDA, 0xA035_BF6F, 0x5FFA_E5B7,
        0x31BF_6B58, 0xA262_174D, 0x12F3_F637, 0x242D_ABB3, 0x6A8E_122F, 0x7F09_AB6B,
        0x92F8_A1BA, 0x8158_536F, 0x69D2_18D9, 0x7CA8_CD9E, 0x71A0_26EF, 0x8A50_43CC,
        0xD89C_D912, 0x105D_F531, 0x533E_63A0, 0x4812_7044, 0x06E0_E689, 0x2633_145C,
        0x0B46_11A6, 0x487E_D511, 0x0000_0006,
    ]
}

fn turn_list() -> (r: Vec<u32>)
    ensures
        r@ == turn_limbs(),
{
    let r: Vec<u32> = vec![
        0x042A_95DC, 0xE317_9AB1, 0xE51D_6CB0, 0x1B2A_E91E, 0xE926_7AFC, 0x48B1_FD47,
        0xE2AE_9CD3, 0xC6D2_41B0, 0x0B1D_F82C, 0x1003_E5C5, 0x6722_D9EE, 0x4943_328F,
        0xE258_FF32, 0x74F9_208B, 0xD44C_FD2D, 0x71C3_5FDA, 0xA035_BF6F, 0x5FFA_E5B7,
        0x31BF_6B58, 0xA262_174D, 0x12F3_F637, 0x242D_ABB3, 0x6A8E_122F, 0x7F09_AB6B,
        0x92F8_A1BA, 0x8158_536F, 0x69D2_18D9, 0x7CA8_CD9E, 0x71A0_26EF, 0x8A50_43CC,
        0xD89C_D912, 0x105D_F531, 0x533E_63A0, 0x4812_7044, 0x06E0_E689, 0x2633_145C,
        0x0B46_11A6, 0x487E_D511, 0x0000_0006,
    ];
    assert(r@ =~= turn_limbs());
    r
}

/// A finite angle without its whole turns, with the sign it had: the exact rest, rounded. In
/// the parts that [`turn_limbs`] counts, a unit is two to the power 142.
pub open spec fn turned(x: Num) -> Num {
    rounded(x.negative(), (x.size() * pow2(142)) % total(turn_limbs()), pow2(142))
}

/// The angle without whole turns, where it is far out.
pub open spec fn near(x: Num) -> Num {
    if !x.finite() {
        not_a_number()
    } else if less(num(FAR), x) || less(x, opposite_of(num(FAR))) {
        turned(x)
    } else {
        x
    }
}

proof fn lemma_doubled_rest(n: nat, d: nat)
    requires
        d > 0,
    ensures
        (2 * n) % d == (if 2 * (n % d) < d {
            2 * (n % d)
        } else {
            (2 * (n % d) - d) as nat
        }),
{
    let (q, r) = (n as int / d as int, n as int % d as int);
    lemma_fundamental_div_mod(n as int, d as int);
    let more: int = if 2 * r < d {
        0
    } else {
        1
    };
    assert(2 * n == (2 * q + more) * d + (2 * r - more * d)) by (nonlinear_arith)
        requires
            n == d * q + r,
    ;
    lemma_fundamental_div_mod_converse(2 * n as int, d as int, 2 * q + more, 2 * r - more * d);
}

fn turn_off(x: Num) -> (r: Num)
    requires
        x.finite(),
    ensures
        r == turned(x),
{
    let (m, k): (u64, u32) = x.parts();
    let turn = Big::from_limbs(turn_list());
    let ghost d = turn@;
    proof {
        lemma_total_pos(turn_limbs());
    }
    let mut rest = Big::from_u64(m);
    while !rest.less(&turn)
        invariant
            turn@ == d,
            d > 0,
            rest@ % d == m as nat % d,
        decreases rest@,
    {
        let ghost was = rest@;
        rest.subtract(&turn);
        proof {
            lemma_mod_multiples_vanish(-1, was as int, d as int);
            assert(d as int * -1 + was == was - d) by (nonlinear_arith);
        }
    }
    proof {
        lemma_small_mod(rest@, d);
        lemma2_to64();
    }
    let mut done: u32 = 0;
    assert(m as nat * pow2(0) == m as nat);
    while done < k + 142
        invariant
            k <= 2045,
            done <= k + 142,
            turn@ == d,
            d > 0,
            rest@ == (m as nat * pow2(done as nat)) % d,
        decreases k + 142 - done,
    {
        proof {
            let n = m as nat * pow2(done as nat);
            lemma_doubled_rest(n, d);
            lemma_pow2_unfold((done + 1) as nat);
            assert(m as nat * (2 * pow2(done as nat)) == 2 * n) by (nonlinear_arith)
                requires
                    n == m as nat * pow2(done as nat),
            ;
            lemma_mod_bound(n as int, d as int);
        }
        rest.scale(2, 0);
        if !rest.less(&turn) {
            rest.subtract(&turn);
        }
        done = done + 1;
    }
    proof {
        lemma_pow2_adds(k as nat, 142);
        lemma_pow2_adds(71, 71);
        lemma_pow2_pos(142);
        let (p, q) = (pow2(k as nat), pow2(142));
        assert(m as nat * (p * q) == (m as nat * p) * q) by (nonlinear_arith);
    }
    let mut unit = Big::from_u64(1);
    let mut i: u32 = 0;
    while i < 142
        invariant
            i <= 142,
            unit@ == pow2(i as nat),
        decreases 142 - i,
    {
        proof {
            lemma_pow2_unfold((i + 1) as nat);
        }
        unit.scale(2, 0);
        i = i + 1;
    }
    let bits: u64 = magnitude_big(rest, &unit);
    proof {
        reveal(rounded);
    }
    if x.is_negative() {
        Num { bits: bits + SIGN }
    } else {
        Num { bits }
    }
}

/// How many quarter turns are in an angle.
pub open spec fn quarters(x: Num) -> Num {
    round_of(product_of(near(x), num(QUARTERS)))
}

/// What is left of an angle beside its quarter turns.
pub open spec fn quarter_rest(x: Num) -> Num {
    let q = quarters(x);
    sum_of(
        sum_of(near(x), opposite_of(product_of(q, num(QUARTER_HIGH)))),
        opposite_of(product_of(q, num(QUARTER_LOW))),
    )
}

/// The sine and the cosine of an angle in radians.
#[verifier::opaque]
pub open spec fn sin_cos_of(x: Num) -> (Num, Num) {
    let s = small_sine(quarter_rest(x));
    let c = small_cosine(quarter_rest(x));
    let k = to_i64_of(quarters(x)) as int % 4;
    if k == 0 {
        (s, c)
    } else if k == 1 {
        (c, opposite_of(s))
    } else if k == 2 {
        (opposite_of(s), opposite_of(c))
    } else {
        (opposite_of(c), s)
    }
}

/// The sine and the cosine of an angle in radians.
pub fn sin_cos(x: Num) -> (r: (Num, Num))
    ensures
        r == sin_cos_of(x),
{
    proof {
        reveal(sin_cos_of);
    }
    let far = num(FAR);
    let y = if !x.is_finite() {
        Num { bits: QUIET_NAN }
    } else if far.lt(x) || x.lt(far.neg()) {
        turn_off(x)
    } else {
        x
    };
    let q = y.times(num(QUARTERS)).round();
    let r = y.minus(q.times(num(QUARTER_HIGH))).minus(
        q.times(num(QUARTER_LOW)),
    );
    let z = r.times(r);
    let s = r.plus(r.times(z).times(polynomial_at(&sine_list(), z)));
    let c = num(ONE).minus(num(HALF).times(z)).plus(
        z.times(z).times(polynomial_at(&cosine_list(), z)),
    );
    let n: i64 = q.to_i64();
    let mut k: i64 = n % 4;
    if k < 0 {
        k = k + 4;
    }
    if k == 0 {
        (s, c)
    } else if k == 1 {
        (c, s.neg())
    } else if k == 2 {
        (s.neg(), c.neg())
    } else {
        (c.neg(), s)
    }
}

/// The tangent of an angle in radians.
pub open spec fn tan_of(x: Num) -> Num {
    quotient_of(sin_cos_of(x).0, sin_cos_of(x).1)
}

/// The tangent of an angle in radians.
pub fn tan(x: Num) -> (r: Num)
    ensures
        r == tan_of(x),
{
    let (s, c) = sin_cos(x);
    s.over(c)
}

/// Degrees as radians.
pub open spec fn radians(degrees: Num) -> Num {
    product_of(degrees, num(DEGREE))
}

/// Degrees as radians.
pub fn to_radians(degrees: Num) -> (r: Num)
    ensures
        r == radians(degrees),
{
    degrees.times(num(DEGREE))
}

/// Two to a whole power within the normal doubles.
pub open spec fn power_of_two(k: int) -> Num {
    Num { bits: ((k + 1023) * HIDDEN) as u64 }
}

fn two_to_the(k: i64) -> (r: Num)
    requires
        -1022 <= k <= 1023,
    ensures
        r == power_of_two(k as int),
{
    Num { bits: (k + 1023) as u64 * HIDDEN }
}

/// The exponential function.
#[verifier::opaque]
pub open spec fn exp_of(x: Num) -> Num {
    if x.nan() {
        x
    } else if less(num(EXP_TOP), x) {
        num(INFINITE)
    } else if less(x, num(EXP_BOTTOM)) {
        num(0)
    } else {
        let k = round_of(product_of(x, num(PER_LN_TWO)));
        let r = sum_of(
            sum_of(x, opposite_of(product_of(k, num(LN_TWO_HIGH)))),
            opposite_of(product_of(k, num(LN_TWO_LOW))),
        );
        let n = halved(to_i64_of(k) as int);
        product_of(
            product_of(polynomial(exponential_terms(), r), power_of_two(n.0)),
            power_of_two(n.1),
        )
    }
}

/// A whole number within reach of the doubles' exponents, in two halves.
pub open spec fn halved(k: int) -> (int, int) {
    let held = if k > 1100 {
        1100
    } else if k < -1100 {
        -1100
    } else {
        k
    };
    (held / 2, held - held / 2)
}

/// The exponential function.
pub fn exp(x: Num) -> (r: Num)
    ensures
        r == exp_of(x),
{
    proof {
        reveal(exp_of);
    }
    if x.is_nan() {
        x
    } else if num(EXP_TOP).lt(x) {
        num(INFINITE)
    } else if x.lt(num(EXP_BOTTOM)) {
        num(0)
    } else {
        let k = x.times(num(PER_LN_TWO)).round();
        let r = x.minus(k.times(num(LN_TWO_HIGH))).minus(
            k.times(num(LN_TWO_LOW)),
        );
        let whole: i64 = k.to_i64();
        let held: i64 = if whole > 1100 {
            1100
        } else if whole < -1100 {
            -1100
        } else {
            whole
        };
        let lower: i64 = if held >= 0 {
            held / 2
        } else {
            -((1 - held) / 2)
        };
        polynomial_at(&exponential_list(), r).times(two_to_the(lower)).times(
            two_to_the(held - lower),
        )
    }
}

/// The mantissa of a normal number, between the root of a half and the root of two, and the
/// exponent that goes with it.
pub open spec fn split(x: Num) -> (Num, int) {
    let e = x.bits as int / HIDDEN as int - 1023;
    let m = Num { bits: (x.bits as int % HIDDEN as int + 1023 * HIDDEN) as u64 };
    if less(num(ROOT_TWO), m) {
        (product_of(m, num(HALF)), e + 1)
    } else {
        (m, e)
    }
}

/// The natural logarithm; minus infinity for what is too small to be normal.
#[verifier::opaque]
pub open spec fn ln_of(x: Num) -> Num {
    if x.nan() || less(x, num(0)) {
        num(QUIET_NAN)
    } else if x.bits % SIGN < HIDDEN {
        Num { bits: (INFINITE + SIGN) as u64 }
    } else if x.infinite() {
        x
    } else {
        let (m, e) = split(x);
        let s = quotient_of(
            sum_of(m, opposite_of(num(ONE))),
            sum_of(m, num(ONE)),
        );
        let z = product_of(s, s);
        let k = from_int(e);
        sum_of(
            product_of(k, num(LN_TWO_HIGH)),
            sum_of(
                product_of(k, num(LN_TWO_LOW)),
                product_of(product_of(num(TWO), s), polynomial(logarithm_terms(), z)),
            ),
        )
    }
}

/// The natural logarithm.
pub fn ln(x: Num) -> (r: Num)
    ensures
        r == ln_of(x),
{
    proof {
        reveal(ln_of);
        reveal(less);
    }
    if x.is_nan() || x.lt(num(0)) {
        num(QUIET_NAN)
    } else if x.bits % SIGN < HIDDEN {
        Num { bits: INFINITE + SIGN }
    } else if x.is_infinite() {
        x
    } else {
        let e: i64 = (x.bits / HIDDEN) as i64 - 1023;
        let m = Num { bits: x.bits % HIDDEN + 1023 * HIDDEN };
        let (m2, e2): (Num, i64) = if num(ROOT_TWO).lt(m) {
            (m.times(num(HALF)), e + 1)
        } else {
            (m, e)
        };
        assert((m2, e2 as int) == split(x));
        let s = m2.minus(num(ONE)).over(m2.plus(num(ONE)));
        let z = s.times(s);
        let k = Num::from_i64(e2);
        k.times(num(LN_TWO_HIGH)).plus(
            k.times(num(LN_TWO_LOW)).plus(
                num(TWO).times(s).times(polynomial_at(&logarithm_list(), z)),
            ),
        )
    }
}

/// `x` to the power `y`, for a base that is not negative.
#[verifier::opaque]
pub open spec fn pow_of(x: Num, y: Num) -> Num {
    if y.zero() || equal(x, num(ONE)) {
        num(ONE)
    } else if x.zero() {
        if y.negative() {
            num(INFINITE)
        } else {
            num(0)
        }
    } else {
        exp_of(product_of(y, ln_of(x)))
    }
}

/// `x` to the power `y`, for a base that is not negative.
pub fn pow(x: Num, y: Num) -> (r: Num)
    ensures
        r == pow_of(x, y),
{
    proof {
        reveal(pow_of);
    }
    if y.is_zero() || x.same(num(ONE)) {
        num(ONE)
    } else if x.is_zero() {
        if y.is_negative() {
            num(INFINITE)
        } else {
            num(0)
        }
    } else {
        exp(y.times(ln(x)))
    }
}

/// Whether `r` is the square root of `n`, rounded down.
pub open spec fn is_root(r: nat, n: nat) -> bool {
    r * r <= n < (r + 1) * (r + 1)
}

/// The square root of a natural number, rounded down.
pub open spec fn root(n: nat) -> nat {
    choose|r: nat| is_root(r, n)
}

/// Twice the square root of a natural number, rounded down, and made odd where that leaves
/// something off: enough to round it correctly.
pub open spec fn double_root(n: nat) -> nat {
    2 * root(n) + if root(n) * root(n) == n {
        0nat
    } else {
        1nat
    }
}

/// The square root.
#[verifier::opaque]
pub open spec fn sqrt_of(x: Num) -> Num {
    if x.zero() {
        x
    } else if x.nan() || x.negative() {
        num(QUIET_NAN)
    } else if x.infinite() {
        x
    } else {
        rounded(false, double_root(x.size() * one_unit()), 2)
    }
}

pub(crate) proof fn lemma_root_unique(a: nat, b: nat, n: nat)
    requires
        is_root(a, n),
        is_root(b, n),
    ensures
        a == b,
{
    if a < b {
        assert((a + 1) * (a + 1) <= b * b) by (nonlinear_arith)
            requires
                a + 1 <= b,
        ;
    } else if b < a {
        assert((b + 1) * (b + 1) <= a * a) by (nonlinear_arith)
            requires
                b + 1 <= a,
        ;
    }
}

pub(crate) proof fn lemma_root_exists(n: nat)
    ensures
        exists|r: nat| is_root(r, n),
    decreases n,
{
    if n == 0 {
        assert(0nat * 0nat == 0 && (0nat + 1) * (0nat + 1) == 1) by (nonlinear_arith);
        assert(is_root(0, 0));
    } else {
        let less_one = (n - 1) as nat;
        lemma_root_exists(less_one);
        let r = root(less_one);
        if n < (r + 1) * (r + 1) {
            assert(is_root(r, n));
        } else {
            assert((r + 1) * (r + 1) < (r + 2) * (r + 2)) by (nonlinear_arith);
            assert(is_root(r + 1, n));
        }
    }
}

fn root_of(n: u128) -> (r: u128)
    requires
        n < 0x2000_0000_0000_0000_0000_0000_0000_0000,
    ensures
        r == root(n as nat),
        is_root(r as nat, n as nat),
        r < 0x8000_0000_0000_0000,
{
    let mut r: u128 = 0;
    let mut bit: u128 = 0x4000_0000_0000_0000;
    assert(pow_two(0x4000_0000_0000_0000)) by {
        reveal_with_fuel(pow_two, 64);
    }
    assert(n < (r + 2 * bit) * (r + 2 * bit)) by (nonlinear_arith)
        requires
            n < 0x2000_0000_0000_0000_0000_0000_0000_0000,
            r == 0,
            bit == 0x4000_0000_0000_0000,
    ;
    while bit > 0
        invariant
            n < 0x2000_0000_0000_0000_0000_0000_0000_0000,
            bit <= 0x4000_0000_0000_0000,
            bit > 0 ==> (bit == 1 || bit % 2 == 0),
            pow_two(bit),
            bit > 0 ==> r + 2 * bit <= 0x8000_0000_0000_0000,
            bit == 0 ==> r < 0x8000_0000_0000_0000,
            r * r <= n,
            bit > 0 ==> n < (r + 2 * bit) * (r + 2 * bit),
            bit == 0 ==> n < (r + 1) * (r + 1),
        decreases bit,
    {
        let t: u128 = r + bit;
        assert(t * t <= 0x8000_0000_0000_0000 * 0x8000_0000_0000_0000) by (nonlinear_arith)
            requires
                0 <= t <= 0x8000_0000_0000_0000,
        ;
        let ghost r0 = r;
        let ghost b0 = bit;
        if t * t <= n {
            r = t;
        }
        bit = bit / 2;
        proof {
            lemma_pow_two_half(b0);
            if b0 > 1 {
                assert(2 * bit == b0);
            } else {
                assert(bit == 0);
            }
        }
    }
    proof {
        lemma_root_unique(r as nat, root(n as nat), n as nat);
    }
    r
}

/// A power of two, or 0.
pub open spec fn pow_two(n: u128) -> bool
    decreases n,
{
    n <= 1 || (n % 2 == 0 && pow_two((n / 2) as u128))
}

proof fn lemma_pow_two_half(n: u128)
    requires
        pow_two(n),
    ensures
        pow_two((n / 2) as u128),
        n > 1 ==> n % 2 == 0,
        n > 1 ==> (n / 2 == 1 || (n / 2) % 2 == 0),
{
}

/// What is left below `g` bits does not matter for rounding, beyond whether it is nothing.
proof fn lemma_round_alike(a: nat, b: nat, g: nat)
    requires
        a / pow2(g) == b / pow2(g),
        (a % pow2(g) == 0) == (b % pow2(g) == 0),
        a >= pow2(g + 55),
    ensures
        magnitude(a, 2) == magnitude(b, 2),
{
    lemma2_to64();
    lemma2_to64_rest();
    lemma_pow2_strictly_increases(54, g + 55);
    lemma_magnitude_alike(a, b, g, 2, 1);
}

proof fn lemma_magnitude_alike(a: nat, b: nat, g: nat, d: nat, e: nat)
    requires
        a / pow2(g) == b / pow2(g),
        (a % pow2(g) == 0) == (b % pow2(g) == 0),
        d == pow2(e),
        e >= 1,
        a >= pow2(g + 55),
        e >= g + 1 || a >= d * 2 * HIDDEN,
    ensures
        magnitude(a, d) == magnitude(b, d),
    decreases a + 1 - d,
{
    let p = pow2(g);
    lemma_pow2_pos(g);
    lemma_pow2_pos(e);
    lemma2_to64_rest();
    let q = a / p;
    lemma_fundamental_div_mod(a as int, p as int);
    lemma_fundamental_div_mod(b as int, p as int);
    let la = a % p;
    let lb = b % p;
    // the bound is a multiple of p
    lemma_pow2_adds(e, 53);
    let bound = pow2(e + 53);
    assert(d * 2 * HIDDEN == bound) by (nonlinear_arith)
        requires
            bound == d * pow2(53),
            pow2(53) == 2 * HIDDEN,
    ;
    if e + 53 >= g {
        let c = pow2((e + 53 - g) as nat);
        lemma_pow2_adds((e + 53 - g) as nat, g);
        lemma_cell(a, b, p, c, bound);
    } else {
        // a has more bits than that
        lemma_pow2_strictly_increases(e + 53, g + 55);
        lemma_pow2_strictly_increases(e + 53, g);
        assert(b >= q * p) by (nonlinear_arith)
            requires
                b == p * q + lb,
                lb >= 0,
        ;
        assert(q >= 1) by {
            lemma_pow2_strictly_increases(g, g + 55);
            assert(p * q + la < p * 1 || q >= 1) by (nonlinear_arith)
                requires
                    0 <= la < p,
                    q >= 0,
            ;
        }
        assert(b >= p) by (nonlinear_arith)
            requires
                b >= q * p,
                q >= 1,
        ;
    }
    assert((a < bound) == (b < bound));
    if a >= bound {
        lemma_pow2_unfold(e + 1);
        assert(2 * d == pow2(e + 1));
        assert(e + 1 >= g + 1 || a >= (2 * d) * 2 * HIDDEN) by {
            if e + 1 < g + 1 {
                lemma_pow2_adds(e + 1, 53);
                if e + 54 < g + 55 {
                    lemma_pow2_strictly_increases(e + 54, g + 55);
                }
                assert((2 * d) * 2 * HIDDEN == pow2(e + 54)) by (nonlinear_arith)
                    requires
                        pow2(e + 54) == (2 * d) * pow2(53),
                        pow2(53) == 2 * HIDDEN,
                ;
            }
        }
        lemma_magnitude_alike(a, b, g, 2 * d, e + 1);
    } else {
        // one more bit than the mantissa still lies above g
        let half = pow2((e - 1) as nat);
        lemma_pow2_unfold(e);
        assert(d == 2 * half);
        assert(e >= g + 1);
        let c = pow2((e - 1 - g) as nat);
        lemma_pow2_pos((e - 1 - g) as nat);
        lemma_pow2_adds((e - 1 - g) as nat, g);
        lemma_nearest_alike(a, b, p, c, half);
    }
}

/// Two numbers in one cell of width `p` lie on the same side of every multiple of it.
proof fn lemma_cell(a: nat, b: nat, p: nat, c: nat, bound: nat)
    requires
        p > 0,
        a / p == b / p,
        bound == c * p,
    ensures
        (a < bound) == (b < bound),
        (a / p < c) == (a < bound),
{
    lemma_fundamental_div_mod(a as int, p as int);
    lemma_fundamental_div_mod(b as int, p as int);
    let q = a / p;
    let la = a % p;
    let lb = b % p;
    if q < c {
        assert(p * q + la < c * p) by (nonlinear_arith)
            requires
                q + 1 <= c,
                la < p,
        ;
        assert(p * q + lb < c * p) by (nonlinear_arith)
            requires
                q + 1 <= c,
                lb < p,
        ;
    } else {
        assert(p * q + la >= c * p) by (nonlinear_arith)
            requires
                q >= c,
                la >= 0,
        ;
        assert(p * q + lb >= c * p) by (nonlinear_arith)
            requires
                q >= c,
                lb >= 0,
        ;
    }
}

proof fn lemma_nearest_alike(a: nat, b: nat, p: nat, c: nat, half: nat)
    requires
        p > 0,
        c > 0,
        half == c * p,
        a / p == b / p,
        (a % p == 0) == (b % p == 0),
    ensures
        nearest(a, 2 * half) == nearest(b, 2 * half),
{
    lemma_fundamental_div_mod(a as int, p as int);
    lemma_fundamental_div_mod(b as int, p as int);
    let q = (a / p) as int;
    let la = (a % p) as int;
    let lb = (b % p) as int;
    let d = (2 * half) as int;
    assert(d == (2 * c) * p) by (nonlinear_arith)
        requires
            d == 2 * (c * p),
    ;
    let big = q / (2 * c as int);
    let small = q % (2 * c as int);
    lemma_fundamental_div_mod(q, 2 * c as int);
    let ra = small * p + la;
    let rb = small * p + lb;
    assert(a == big * d + ra) by (nonlinear_arith)
        requires
            a == p * q + la,
            q == (2 * c) * big + small,
            d == (2 * c) * p,
            ra == small * p + la,
    ;
    assert(b == big * d + rb) by (nonlinear_arith)
        requires
            b == p * q + lb,
            q == (2 * c) * big + small,
            d == (2 * c) * p,
            rb == small * p + lb,
    ;
    assert(0 <= ra < d && 0 <= rb < d) by (nonlinear_arith)
        requires
            0 <= small < 2 * c,
            0 <= la < p,
            0 <= lb < p,
            d == (2 * c) * p,
            ra == small * p + la,
            rb == small * p + lb,
    ;
    lemma_fundamental_div_mod_converse(a as int, d, big, ra);
    lemma_fundamental_div_mod_converse(b as int, d, big, rb);
    // 2 r against d is small against c
    if small < c {
        assert(ra < half && rb < half) by (nonlinear_arith)
            requires
                small + 1 <= c,
                la < p,
                lb < p,
                half == c * p,
                ra == small * p + la,
                rb == small * p + lb,
        ;
    } else if small > c {
        assert(ra > half && rb > half) by (nonlinear_arith)
            requires
                small >= c + 1,
                la >= 0,
                lb >= 0,
                p > 0,
                half == c * p,
                ra == small * p + la,
                rb == small * p + lb,
        ;
    } else {
        assert(ra == half + la && rb == half + lb);
    }
}

/// The square root.
pub fn sqrt(x: Num) -> (r: Num)
    ensures
        r == sqrt_of(x),
{
    proof {
        reveal(sqrt_of);
    }
    if x.is_zero() {
        return x;
    }
    if x.is_nan() || x.is_negative() {
        return num(QUIET_NAN);
    }
    if x.is_infinite() {
        return x;
    }
    x.finite_root()
}

impl Num {
    fn finite_root(self) -> (r: Num)
        requires
            self.finite(),
            !self.zero(),
            !self.negative(),
        ensures
            r == rounded(false, double_root(self.size() * one_unit()), 2),
    {
        let (m, k) = self.parts();
        proof {
            lemma_size_zero(self);
            assert(m > 0) by {
                assert(0 * pow2(k as nat) == 0) by (nonlinear_arith);
            }
        }
        let len: u32 = bit_length(m as u128);
        proof {
            lemma2_to64_rest();
            if len > 54 {
                lemma_pow2_strictly_increases(53, (len - 1) as nat);
            }
        }
        // shifted to 124 or 123 bits, whichever leaves an even power of two
        let even: bool = (k + 1074 + len) % 2 == 0;
        let j: u32 = if even {
            124 - len
        } else {
            123 - len
        };
        let h: u32 = (k + 1074 - j) / 2;
        let up: u128 = two_to(j);
        let ghost n = self.size() * one_unit();
        let ghost p2 = pow2((2 * h) as nat);
        proof {
            assert((k + 1074 - j) % 2 == 0);
            assert(2 * h + j == k + 1074);
            lemma_pow2_adds(k as nat, 1074);
            lemma_pow2_adds(j as nat, (2 * h) as nat);
            assert(n == (m * up) * p2) by (nonlinear_arith)
                requires
                    n == (m * pow2(k as nat)) * pow2(1074),
                    pow2(k as nat) * pow2(1074) == up * p2,
            ;
            lemma_pow2_adds(len as nat, j as nat);
            lemma_pow2_adds((len - 1) as nat, j as nat);
            lemma_pow2_pos(j as nat);
            assert(pow2((len - 1 + j) as nat) <= m * up < pow2((len + j) as nat))
                by (nonlinear_arith)
                requires
                    pow2((len - 1) as nat) <= m < pow2(len as nat),
                    pow2((len + j) as nat) == pow2(len as nat) * up,
                    pow2((len - 1 + j) as nat) == pow2((len - 1) as nat) * up,
                    up > 0,
            ;
            lemma_pow2_adds(64, 60);
            lemma_pow2_adds(64, 58);
            if len + j < 124 {
                lemma_pow2_strictly_increases((len + j) as nat, 124);
            }
            if 122 < len - 1 + j {
                lemma_pow2_strictly_increases(122, (len - 1 + j) as nat);
            }
            lemma2_to64();
        }
        let big: u128 = m as u128 * up;
        let q: u128 = root_of(big);
        let odd: bool = q * q != big;
        proof {
            lemma_root_scaled(big as nat, q as nat, h as nat, n);
            // q has at least 61 bits
            assert(q >= 0x2000_0000_0000_0000) by (nonlinear_arith)
                requires
                    big >= 0x0400_0000_0000_0000_0000_0000_0000_0000,
                    big < (q + 1) * (q + 1),
                    q >= 0,
            ;
        }
        let twice: u128 = if odd {
            2 * q + 1
        } else {
            2 * q
        };
        proof {
            let g = (h + 1) as nat;
            let a = double_root(n);
            let b = (twice * pow2(h as nat)) as nat;
            lemma_root_cell(big as nat, q as nat, h as nat, n, a, b);
            lemma_pow2_adds(55, g);
            assert(a >= pow2(g + 55)) by {
                lemma_pow2_pos(g);
                lemma_fundamental_div_mod(a as int, pow2(g) as int);
                assert(a >= q * pow2(g)) by (nonlinear_arith)
                    requires
                        a == pow2(g) * q + a % pow2(g),
                        a % pow2(g) >= 0,
                ;
                assert(q * pow2(g) >= pow2(55) * pow2(g)) by (nonlinear_arith)
                    requires
                        q >= pow2(55),
                ;
            }
            lemma_round_alike(a, b, g);
            reveal(rounded);
            // b / 2 units are twice * 2^(h-1)
            lemma_pow2_unfold(h as nat);
            let small = (twice * pow2((h - 1) as nat)) as nat;
            assert(b == small * 2) by (nonlinear_arith)
                requires
                    b == twice * pow2(h as nat),
                    pow2(h as nat) == 2 * pow2((h - 1) as nat),
                    small == twice * pow2((h - 1) as nat),
            ;
            lemma_magnitude_scale(small, 1, 2);
        }
        round_scaled(false, twice, h as i32 - 1)
    }
}

/// The root of a number scaled by a power of four.
proof fn lemma_root_scaled(big: nat, q: nat, h: nat, n: nat)
    requires
        is_root(q, big),
        n == big * pow2(2 * h),
        h >= 70,
        q < 0x8000_0000_0000_0000,
    ensures
        is_root(root(n), n),
        q * pow2(h) <= root(n) < (q + 1) * pow2(h),
        (root(n) * root(n) == n && root(n) == q * pow2(h)) == (q * q == big),
        q * q != big ==> root(n) * root(n) != n || root(n) != q * pow2(h),
        root(n) == q * pow2(h) ==> q * q == big,
{
    lemma_root_exists(n);
    let r = root(n);
    let p = pow2(h);
    lemma_pow2_pos(h);
    lemma_pow2_adds(h, h);
    assert(h + h == 2 * h);
    assert((q * p) * (q * p) <= n) by (nonlinear_arith)
        requires
            q * q <= big,
            n == big * (p * p),
    ;
    assert(n < ((q + 1) * p) * ((q + 1) * p)) by (nonlinear_arith)
        requires
            big < (q + 1) * (q + 1),
            n == big * (p * p),
            p > 0,
    ;
    if r < q * p {
        assert((r + 1) * (r + 1) <= (q * p) * (q * p)) by (nonlinear_arith)
            requires
                r + 1 <= q * p,
        ;
    }
    if r >= (q + 1) * p {
        assert(((q + 1) * p) * ((q + 1) * p) <= r * r) by (nonlinear_arith)
            requires
                r >= (q + 1) * p,
        ;
    }
    if q * q == big {
        assert((q * p) * (q * p) == n) by (nonlinear_arith)
            requires
                q * q == big,
                n == big * (p * p),
        ;
        assert((q * p) * (q * p) < (q * p + 1) * (q * p + 1)) by (nonlinear_arith);
        lemma_root_unique(q * p, r, n);
    } else if r == q * p {
        // big exceeds q * q by one at least, which is more than 2 q p + 1 when scaled
        lemma2_to64_rest();
        lemma_pow2_strictly_increases(64, h);
        assert((q * p + 1) * (q * p + 1) <= n) by (nonlinear_arith)
            requires
                q * q + 1 <= big,
                n == big * (p * p),
                p > 0x1_0000_0000_0000_0000,
                q < 0x8000_0000_0000_0000,
        ;
    }
}

proof fn lemma_root_cell(big: nat, q: nat, h: nat, n: nat, a: nat, b: nat)
    requires
        is_root(q, big),
        n == big * pow2(2 * h),
        h >= 70,
        q < 0x8000_0000_0000_0000,
        a == double_root(n),
        b == (2 * q + if q * q == big {
            0int
        } else {
            1
        }) * pow2(h),
    ensures
        a / pow2(h + 1) == q,
        b / pow2(h + 1) == q,
        (a % pow2(h + 1) == 0) == (b % pow2(h + 1) == 0),
{
    lemma_root_scaled(big, q, h, n);
    let p = pow2(h);
    lemma_pow2_pos(h);
    lemma_pow2_unfold(h + 1);
    let d = (2 * p) as int;
    let r = root(n);
    let ra = a - q * d;
    let rb = b - q * d;
    assert(q * d == 2 * (q * p)) by (nonlinear_arith)
        requires
            d == 2 * p,
    ;
    assert(0 <= ra < d) by {
        assert(2 * ((q + 1) * p) == 2 * (q * p) + 2 * p) by (nonlinear_arith);
        assert(r + 1 <= (q + 1) * p);
    }
    if q * q == big {
        assert(b == (2 * q) * p);
        assert(rb == 0) by (nonlinear_arith)
            requires
                b == (2 * q) * p,
                rb == b - 2 * (q * p),
        ;
    } else {
        assert(rb == p) by (nonlinear_arith)
            requires
                b == (2 * q + 1) * p,
                rb == b - 2 * (q * p),
        ;
    }
    lemma_fundamental_div_mod_converse(a as int, d, q as int, ra);
    lemma_fundamental_div_mod_converse(b as int, d, q as int, rb);
}

/// The arc tangent of a number that is not negative.
#[verifier::opaque]
pub open spec fn atan_of(y: Num) -> Num {
    let steep = less(num(ONE), y);
    let z = if steep {
        quotient_of(num(ONE), y)
    } else {
        y
    };
    let a = quotient_of(z, sum_of(num(ONE), sqrt_of(sum_of(num(ONE), product_of(z, z)))));
    let b = quotient_of(a, sum_of(num(ONE), sqrt_of(sum_of(num(ONE), product_of(a, a)))));
    let arc = product_of(
        num(FOUR),
        product_of(b, polynomial(arc_terms(), product_of(b, b))),
    );
    if steep {
        sum_of(num(QUARTER), opposite_of(arc))
    } else {
        arc
    }
}

/// The arc tangent of a number that is not negative.
pub fn atan(y: Num) -> (r: Num)
    ensures
        r == atan_of(y),
{
    proof {
        reveal(atan_of);
    }
    let steep = num(ONE).lt(y);
    let z = if steep {
        num(ONE).over(y)
    } else {
        y
    };
    let a = z.over(num(ONE).plus(sqrt(num(ONE).plus(z.times(z)))));
    let b = a.over(num(ONE).plus(sqrt(num(ONE).plus(a.times(a)))));
    let arc = num(FOUR).times(b.times(polynomial_at(&arc_list(), b.times(b))));
    if steep {
        num(QUARTER).minus(arc)
    } else {
        arc
    }
}

/// The arc cosine of a number from -1 to 1.
pub open spec fn acos_of(x: Num) -> Num {
    product_of(
        num(TWO),
        atan_of(
            sqrt_of(
                quotient_of(
                    sum_of(num(ONE), opposite_of(x)),
                    sum_of(num(ONE), x),
                ),
            ),
        ),
    )
}

/// The arc cosine of a number from -1 to 1.
pub fn acos(x: Num) -> (r: Num)
    ensures
        r == acos_of(x),
{
    num(TWO).times(atan(sqrt(num(ONE).minus(x).over(num(ONE).plus(x)))))
}

} // verus!
