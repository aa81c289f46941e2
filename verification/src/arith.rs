//! What the arithmetic of doubles keeps of that of numbers.

use crate::num::{
    abs_of, at_most, clamp_of, equal, lemma_exact, lemma_magnitude_scale, lemma_size_at_least,
    lemma_mantissa_bound, lemma_rounds_finite, lemma_size_zero, lemma_some_magnitude, less, magnitude,
    max_of, num, one_unit, opposite_of, product_of, quotient_of, rounded, sum_of, to_u64_of, Num,
    HIDDEN, SIGN,
};
use crate::waves::{FOUR, HALF, ONE, TWO};
use vstd::arithmetic::power2::{
    lemma2_to64, lemma2_to64_rest, lemma_pow2_adds, lemma_pow2_pos, lemma_pow2_strictly_increases,
    lemma_pow2_unfold, pow2,
};
use vstd::prelude::*;

verus! {

/// Sums and products do not depend on the order of their terms.
pub proof fn lemma_commutes(x: Num, y: Num)
    requires
        !x.nan(),
        !y.nan(),
    ensures
        sum_of(x, y) == sum_of(y, x),
        product_of(x, y) == product_of(y, x),
{
    reveal(sum_of);
    reveal(product_of);
    assert(x.size() * y.size() == y.size() * x.size()) by (nonlinear_arith);
}

pub(crate) proof fn lemma_zero_rounds(neg: bool, d: nat)
    requires
        d > 0,
    ensures
        rounded(neg, 0, d).zero(),
        rounded(neg, 0, d).negative() == neg,
{
    reveal(rounded);
    assert(0int / d as int == 0 && 0int % d as int == 0);
    assert(d * 2 * HIDDEN > 0) by (nonlinear_arith)
        requires
            d > 0,
    ;
    assert(magnitude(0, d) == 0);
}

/// One, two, four and a half, in units.
pub proof fn lemma_small_sizes()
    ensures
        num(ONE).size() == one_unit(),
        num(TWO).size() == 2 * one_unit(),
        num(FOUR).size() == 4 * one_unit(),
        2 * num(HALF).size() == one_unit(),
        num(ONE).finite() && num(TWO).finite() && num(FOUR).finite() && num(HALF).finite(),
        !num(ONE).negative() && !num(TWO).negative() && !num(FOUR).negative()
            && !num(HALF).negative(),
        one_unit() > 0,
{
    lemma2_to64();
    lemma2_to64_rest();
    lemma_pow2_pos(1074);
    lemma_pow2_adds(52, 1022);
    lemma_pow2_adds(1, 1022);
    lemma_pow2_adds(2, 1022);
    lemma_pow2_adds(1, 1021);
    assert(num(ONE).step() == 1022 && num(ONE).mantissa() == HIDDEN);
    assert(num(TWO).step() == 1023 && num(TWO).mantissa() == HIDDEN);
    assert(num(FOUR).step() == 1024 && num(FOUR).mantissa() == HIDDEN);
    assert(num(HALF).step() == 1021 && num(HALF).mantissa() == HIDDEN);
    let p = pow2(1022);
    assert(HIDDEN * (2 * p) == 2 * (HIDDEN * p)) by (nonlinear_arith);
    assert(HIDDEN * (4 * p) == 4 * (HIDDEN * p)) by (nonlinear_arith);
    assert(2 * (HIDDEN * pow2(1021)) == HIDDEN * (2 * pow2(1021))) by (nonlinear_arith);
}

/// A number times one is the number.
pub proof fn lemma_times_one(x: Num)
    requires
        !x.nan(),
    ensures
        product_of(x, num(ONE)) == x,
        product_of(num(ONE), x) == x,
{
    reveal(product_of);
    lemma_small_sizes();
    lemma_commutes(x, num(ONE));
    if x.finite() {
        let u = one_unit();
        lemma_magnitude_scale(x.size(), 1, u);
        assert(1 * u == u);
        reveal(rounded);
        lemma_exact(x);
        assert(product_of(x, num(ONE)) == x);
    } else {
        assert(x.bits == x.magnitude_bits() + if x.negative() {
            SIGN as int
        } else {
            0
        });
    }
}

/// A finite number times zero is zero.
pub proof fn lemma_times_zero(x: Num, zero: Num)
    requires
        x.finite(),
        zero.zero(),
    ensures
        product_of(x, zero).zero(),
        product_of(zero, x).zero(),
{
    reveal(product_of);
    lemma_small_sizes();
    lemma_size_zero(zero);
    assert(x.size() * 0 == 0);
    lemma_zero_rounds(x.negative() != zero.negative(), one_unit());
}

/// A finite number plus zero equals the number, and is the number where that is not zero.
pub proof fn lemma_plus_zero(x: Num, zero: Num)
    requires
        x.finite(),
        zero.zero(),
    ensures
        equal(sum_of(x, zero), x),
        equal(sum_of(zero, x), x),
        !x.zero() ==> sum_of(x, zero) == x && sum_of(zero, x) == x,
{
    reveal(sum_of);
    reveal(equal);
    lemma_size_zero(zero);
    lemma_size_zero(x);
    lemma_exact(x);
}

/// A finite number less itself is zero.
pub proof fn lemma_minus_self(x: Num)
    requires
        x.finite(),
    ensures
        sum_of(x, opposite_of(x)) == num(0),
{
    reveal(sum_of);
    reveal(opposite_of);
    let y = opposite_of(x);
    assert(y.magnitude_bits() == x.magnitude_bits());
    assert(y.negative() != x.negative());
}

/// The opposite of the opposite is the number; a number and its opposite are equally large.
pub proof fn lemma_opposite(x: Num)
    ensures
        opposite_of(opposite_of(x)) == x,
        opposite_of(x).size() == x.size(),
        opposite_of(x).magnitude_bits() == x.magnitude_bits(),
        opposite_of(x).negative() != x.negative(),
        abs_of(opposite_of(x)) == abs_of(x),
{
    reveal(opposite_of);
    reveal(abs_of);
    let y = opposite_of(x);
    assert(y.magnitude_bits() == x.magnitude_bits());
}

proof fn lemma_size_bound(x: Num, k: nat)
    requires
        x.finite(),
        x.step() <= k,
    ensures
        x.size() < 2 * HIDDEN * pow2(k),
{
    lemma_mantissa_bound(x);
    lemma_pow2_pos(x.step());
    if x.step() < k {
        lemma_pow2_strictly_increases(x.step(), k);
    }
    let m = x.mantissa();
    let p = pow2(x.step());
    let q = pow2(k);
    assert(m * p < 2 * HIDDEN * q) by (nonlinear_arith)
        requires
            m < 2 * HIDDEN,
            0 < p <= q,
    ;
}

/// Sums and products of numbers of middling size are finite, and not much larger.
pub proof fn lemma_middling(x: Num, y: Num, a: nat)
    requires
        x.finite(),
        y.finite(),
        x.step() <= a,
        y.step() <= a,
        1022 <= a <= 1400,
    ensures
        sum_of(x, y).finite(),
        sum_of(x, y).step() <= a + 3,
        product_of(x, y).finite(),
        product_of(x, y).step() <= 2 * a - 1019,
{
    reveal(sum_of);
    reveal(product_of);
    lemma_size_bound(x, a);
    lemma_size_bound(y, a);
    let p = pow2(a);
    lemma_pow2_pos(a);
    lemma_pow2_unfold(a + 1);
    let s = x.units() + y.units();
    let n = (if s < 0 {
        -s
    } else {
        s
    }) as nat;
    assert(n < 1 * 2 * HIDDEN * pow2(a + 1)) by (nonlinear_arith)
        requires
            n < 2 * (2 * HIDDEN * p),
            pow2(a + 1) == 2 * p,
    ;
    if s != 0 {
        lemma_rounds_finite(s < 0, n, 1, a + 1);
    }
    let u = one_unit();
    let k = (2 * a - 1021) as nat;
    lemma_pow2_pos(1074);
    lemma_pow2_adds(a, a);
    lemma_pow2_adds(1074, k);
    lemma_pow2_adds(53, 2 * a);
    lemma2_to64_rest();
    let h = 2 * HIDDEN as nat;
    assert(h == pow2(53));
    assert(x.size() * y.size() < (h * p) * (h * p)) by (nonlinear_arith)
        requires
            x.size() < h * p,
            y.size() < h * p,
    ;
    assert((h * p) * (h * p) == h * (h * (p * p))) by (nonlinear_arith);
    assert(h * (p * p) == u * pow2(k)) by {
        assert(53 + 2 * a == 1074 + k);
    }
    assert(u * 2 * HIDDEN * pow2(k) == h * (u * pow2(k))) by (nonlinear_arith)
        requires
            h == 2 * HIDDEN,
    ;
    lemma_rounds_finite(x.negative() != y.negative(), x.size() * y.size(), u, k);
}

/// A positive quotient that is not too small is above zero.
pub proof fn lemma_quotient_positive(x: Num, y: Num)
    requires
        x.finite(),
        y.finite(),
        !x.negative(),
        !y.negative(),
        !y.zero(),
        x.size() * one_unit() >= y.size(),
    ensures
        less(num(0), quotient_of(x, y)),
{
    reveal(quotient_of);
    reveal(less);
    lemma_size_zero(y);
    let u = one_unit();
    let d = y.size();
    reveal(rounded);
    lemma_some_magnitude((x.size() * u) as nat, d);
}

/// What is zero equals zero.
pub proof fn lemma_zero(x: Num)
    ensures
        x.zero() == equal(x, num(0)),
{
    reveal(equal);
}

/// What is held within bounds lies within them, unless it is no number at all.
pub proof fn lemma_clamped(x: Num, lo: Num, hi: Num)
    requires
        at_most(lo, hi),
        !x.nan(),
    ensures
        at_most(lo, clamp_of(x, lo, hi)),
        at_most(clamp_of(x, lo, hi), hi),
{
    reveal(less);
    reveal(equal);
}

/// A number from one on is a whole number from one on when it is truncated.
pub proof fn lemma_at_least_one(x: Num)
    ensures
        to_u64_of(max_of(x, num(ONE))) >= 1,
{
    reveal(to_u64_of);
    reveal(less);
    lemma_small_sizes();
    let y = max_of(x, num(ONE));
    assert(!y.nan());
    assert(num(ONE).rank() <= y.rank());
    assert(!y.negative());
    if y.finite() {
        lemma_size_at_least(num(ONE), y);
        let u = one_unit();
        assert(y.size() / u >= 1) by (nonlinear_arith)
            requires
                y.size() >= u,
                u > 0,
        ;
    }
}

} // verus!
