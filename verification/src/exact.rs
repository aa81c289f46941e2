//! Arithmetic that nothing is rounded in, and the order that rounding keeps.

use crate::num::{
    abs_of, at_most, equal, from_int, lemma_exact, lemma_size_at_least, lemma_size_at_most,
    lemma_size_zero, less, num, one_unit, opposite_of, product_of, quotient_of, rem_euclid_of,
    remainder_of, rounded, sum_of, Num, HIDDEN,
};
use crate::arith::lemma_opposite;
use crate::order::{lemma_magnitude_rises, lemma_rounded_sign, lemma_rounded_within};
use vstd::arithmetic::div_mod::{
    lemma_fundamental_div_mod, lemma_fundamental_div_mod_converse, lemma_mod_bound,
};
use vstd::arithmetic::power2::{lemma_pow2_adds, lemma_pow2_pos, pow2};
use vstd::prelude::*;

verus! {

/// A number is `k` times two to the power `t`, in units.
pub open spec fn is_at(x: Num, k: int, t: nat) -> bool {
    x.finite() && x.units() == k * pow2(t)
}

/// A whole number: `k` ones.
pub open spec fn is_whole(x: Num, k: int) -> bool {
    is_at(x, k, 1074)
}

/// The double nearest to a fraction of units, with its sign.
pub open spec fn near(n: int, d: nat) -> Num {
    rounded(n < 0, (if n < 0 { -n } else { n }) as nat, d)
}

/// The larger a fraction, the larger its rounding.
pub proof fn lemma_near_rises(a: int, b: int, d: nat)
    requires
        a <= b,
        d > 0,
    ensures
        near(a, d).rank() <= near(b, d).rank(),
        !near(a, d).nan() && !near(b, d).nan(),
        a >= 0 ==> near(a, d).rank() >= 0,
        a <= 0 ==> near(a, d).rank() <= 0,
{
    reveal(rounded);
    let p = (if a < 0 { -a } else { a }) as nat;
    let q = (if b < 0 { -b } else { b }) as nat;
    if 0 <= a {
        lemma_magnitude_rises(p, q, d);
    } else if b < 0 {
        lemma_magnitude_rises(q, p, d);
    }
}

/// A double is its own rounding.
pub proof fn lemma_near_exact(x: Num)
    requires
        x.finite(),
    ensures
        near(x.units(), 1).rank() == x.rank(),
{
    lemma_exact(x);
    lemma_size_zero(x);
    let s = x.size();
    if s == 0 {
        reveal(rounded);
        assert(crate::num::magnitude(0, 1) == 0);
    }
}

/// What a sum of finite numbers is.
pub proof fn lemma_sum_near(x: Num, y: Num)
    requires
        x.finite(),
        y.finite(),
    ensures
        sum_of(x, y).rank() == near(x.units() + y.units(), 1).rank(),
        !sum_of(x, y).nan(),
{
    reveal(sum_of);
    let s = x.units() + y.units();
    lemma_near_rises(s, s, 1);
    if s == 0 {
        reveal(rounded);
        assert(crate::num::magnitude(0, 1) == 0);
    }
}

/// What a product of finite numbers is.
pub proof fn lemma_product_near(x: Num, y: Num)
    requires
        x.finite(),
        y.finite(),
    ensures
        product_of(x, y).rank() == near(x.units() * y.units(), one_unit()).rank(),
        !product_of(x, y).nan(),
{
    reveal(product_of);
    lemma_pow2_pos(1074);
    let (p, q) = (x.size() as int, y.size() as int);
    let n = x.units() * y.units();
    let u = one_unit();
    lemma_near_rises(n, n, u);
    lemma_rounded_sign((p * q) as nat, u);
    assert(p * q >= 0 && (-p) * q == -(p * q) && p * (-q) == -(p * q) && (-p) * (-q) == p * q)
        by (nonlinear_arith)
        requires
            p >= 0,
            q >= 0,
    ;
    if n == 0 {
        reveal(rounded);
        assert(u * 2 * HIDDEN > 0) by (nonlinear_arith)
            requires
                u > 0,
        ;
        assert(0int / u as int == 0 && 0int % u as int == 0);
        assert(crate::num::magnitude(0, u) == 0);
    }
}

/// Finite numbers compare as their values do.
pub proof fn lemma_compare(x: Num, y: Num)
    requires
        x.finite(),
        y.finite(),
    ensures
        less(x, y) == (x.units() < y.units()),
        equal(x, y) == (x.units() == y.units()),
        at_most(x, y) == (x.units() <= y.units()),
{
    reveal(less);
    reveal(equal);
    lemma_size_zero(x);
    lemma_size_zero(y);
    if x.magnitude_bits() <= y.magnitude_bits() {
        lemma_size_at_least(x, y);
    } else {
        lemma_size_at_least(y, x);
    }
    if x.size() <= y.size() {
        lemma_size_at_most(x, y);
    }
    if y.size() <= x.size() {
        lemma_size_at_most(y, x);
    }
}

/// A sum rises with its terms.
pub proof fn lemma_sum_order(x: Num, y: Num, z: Num)
    requires
        x.finite() && y.finite() && z.finite(),
        at_most(x, y),
    ensures
        at_most(sum_of(x, z), sum_of(y, z)),
        at_most(sum_of(z, x), sum_of(z, y)),
{
    lemma_compare(x, y);
    lemma_sum_near(x, z);
    lemma_sum_near(y, z);
    lemma_sum_near(z, x);
    lemma_sum_near(z, y);
    lemma_near_rises(x.units() + z.units(), y.units() + z.units(), 1);
    reveal(less);
    reveal(equal);
}

/// What is added to a number moves it up or down.
pub proof fn lemma_sum_moves(x: Num, y: Num)
    requires
        x.finite() && y.finite(),
    ensures
        at_most(num(0), y) ==> at_most(x, sum_of(x, y)) && at_most(x, sum_of(y, x)),
        at_most(y, num(0)) ==> at_most(sum_of(x, y), x) && at_most(sum_of(y, x), x),
{
    let zero = num(0);
    lemma_size_zero(zero);
    lemma_compare(zero, y);
    lemma_compare(y, zero);
    lemma_sum_near(x, y);
    lemma_sum_near(y, x);
    lemma_near_exact(x);
    reveal(less);
    reveal(equal);
    if y.units() >= 0 {
        lemma_near_rises(x.units(), x.units() + y.units(), 1);
    }
    if y.units() <= 0 {
        lemma_near_rises(x.units() + y.units(), x.units(), 1);
    }
}

/// The difference of two numbers has the sign of their order.
pub proof fn lemma_difference_sign(x: Num, y: Num)
    requires
        x.finite() && y.finite(),
    ensures
        ({
            let d = sum_of(y, opposite_of(x));
            &&& !d.nan()
            &&& at_most(x, y) ==> at_most(num(0), d)
            &&& at_most(y, x) ==> at_most(d, num(0))
            &&& less(x, y) ==> less(num(0), d) && !d.negative()
            &&& less(y, x) ==> less(d, num(0)) && d.negative()
            &&& equal(x, y) ==> equal(d, num(0))
        }),
{
    lemma_opposite(x);
    lemma_compare(x, y);
    lemma_compare(y, x);
    let d = sum_of(y, opposite_of(x));
    lemma_sum_near(y, opposite_of(x));
    let n = y.units() - x.units();
    lemma_near_rises(n, n, 1);
    reveal(less);
    reveal(equal);
    if n != 0 {
        // A whole number of units other than none is rounded to something other than none.
        let m = (if n < 0 { -n } else { n }) as nat;
        lemma_magnitude_rises(1, m, 1);
        assert(crate::num::magnitude(1, 1) == 1) by {
            assert(crate::num::nearest(1, 1) == 1);
        }
        reveal(rounded);
        assert(d.rank() != 0);
    } else {
        reveal(rounded);
        assert(crate::num::magnitude(0, 1) == 0);
    }
}

/// A share of a number lies between nothing and the number.
pub proof fn lemma_share_between(x: Num, share: Num)
    requires
        x.finite() && share.finite(),
        at_most(num(0), share) && at_most(share, num(crate::waves::ONE)),
    ensures
        product_of(x, share).finite(),
        at_most(num(0), x) ==> at_most(num(0), product_of(x, share)) && at_most(
            product_of(x, share),
            x,
        ),
        at_most(x, num(0)) ==> at_most(product_of(x, share), num(0)) && at_most(
            x,
            product_of(x, share),
        ),
{
    let one = num(crate::waves::ONE);
    let zero = num(0);
    crate::arith::lemma_small_sizes();
    crate::arith::lemma_times_one(x);
    lemma_size_zero(zero);
    lemma_compare(zero, share);
    lemma_compare(share, one);
    lemma_compare(zero, x);
    lemma_compare(x, zero);
    let u = one_unit();
    let (a, s) = (x.units(), share.units());
    lemma_product_near(x, share);
    lemma_product_near(x, one);
    let p = product_of(x, share);
    assert(a >= 0 ==> 0 <= a * s <= a * u) by (nonlinear_arith)
        requires
            0 <= s <= u,
    ;
    assert(a <= 0 ==> a * u <= a * s <= 0) by (nonlinear_arith)
        requires
            0 <= s <= u,
    ;
    lemma_near_rises(0, 0, u);
    if a >= 0 {
        lemma_near_rises(0, a * s, u);
        lemma_near_rises(a * s, a * u, u);
    }
    if a <= 0 {
        lemma_near_rises(a * s, 0, u);
        lemma_near_rises(a * u, a * s, u);
    }
    reveal(less);
    reveal(equal);
}

/// The rounding of what is a double is that double.
proof fn lemma_near_at(n: int, d: nat, k: int, t: nat)
    requires
        d > 0,
        t <= 2000,
        -2 * HIDDEN < k < 2 * HIDDEN,
        n == (k * pow2(t)) * d,
    ensures
        is_at(near(n, d), k, t),
{
    lemma_pow2_pos(t);
    let p = pow2(t) as int;
    let m = (if k < 0 { -k } else { k }) as nat;
    assert((m * p) * d == (if n < 0 { -n } else { n })) by (nonlinear_arith)
        requires
            n == (k * p) * d,
            m == (if k < 0 { -k } else { k }),
            p > 0,
            d > 0,
    ;
    assert((n < 0) == (k < 0)) by (nonlinear_arith)
        requires
            n == (k * p) * d,
            p > 0,
            d > 0,
    ;
    lemma_rounded_within((m * p) as nat * d, d, m, m, t);
    lemma_rounded_sign((m * p) as nat * d, d);
    assert((-(m as int)) * p == -(m * p)) by (nonlinear_arith);
}

/// A number of the same rank has the same value.
proof fn lemma_same_rank(x: Num, y: Num, k: int, t: nat)
    requires
        is_at(y, k, t),
        x.rank() == y.rank(),
        !x.nan(),
    ensures
        is_at(x, k, t),
{
    lemma_size_zero(x);
    lemma_size_zero(y);
    if x.magnitude_bits() <= y.magnitude_bits() {
        lemma_size_at_least(x, y);
        lemma_size_at_least(y, x);
    }
}

/// Sums on a common grid are exact.
pub proof fn lemma_sum_at(x: Num, y: Num, a: int, b: int, t: nat)
    requires
        is_at(x, a, t),
        is_at(y, b, t),
        t <= 2000,
        -2 * HIDDEN < a + b < 2 * HIDDEN,
    ensures
        is_at(sum_of(x, y), a + b, t),
{
    let p = pow2(t) as int;
    assert((a + b) * p == a * p + b * p) by (nonlinear_arith);
    lemma_sum_near(x, y);
    lemma_near_at(x.units() + y.units(), 1, a + b, t);
    lemma_same_rank(sum_of(x, y), near(x.units() + y.units(), 1), a + b, t);
}

/// The opposite on a grid.
pub proof fn lemma_opposite_at(x: Num, a: int, t: nat)
    requires
        is_at(x, a, t),
    ensures
        is_at(opposite_of(x), -a, t),
{
    lemma_opposite(x);
    let p = pow2(t) as int;
    assert((-a) * p == -(a * p)) by (nonlinear_arith);
}

/// Differences on a common grid are exact.
pub proof fn lemma_difference_at(x: Num, y: Num, a: int, b: int, t: nat)
    requires
        is_at(x, a, t),
        is_at(y, b, t),
        t <= 2000,
        -2 * HIDDEN < a - b < 2 * HIDDEN,
    ensures
        is_at(sum_of(x, opposite_of(y)), a - b, t),
{
    lemma_opposite_at(y, b, t);
    lemma_sum_at(x, opposite_of(y), a, -b, t);
}

/// Products of grid points are grid points.
pub proof fn lemma_product_at(x: Num, y: Num, a: int, b: int, s: nat, t: nat)
    requires
        is_at(x, a, s),
        is_at(y, b, t),
        1074 <= s + t <= 3074,
        -2 * HIDDEN < a * b < 2 * HIDDEN,
    ensures
        is_at(product_of(x, y), a * b, (s + t - 1074) as nat),
{
    let w = (s + t - 1074) as nat;
    let u = one_unit();
    lemma_pow2_pos(1074);
    lemma_pow2_adds(s, t);
    lemma_pow2_adds(w, 1074);
    let (p, q, r) = (pow2(s) as int, pow2(t) as int, pow2(w) as int);
    assert((a * p) * (b * q) == (a * b * r) * u) by (nonlinear_arith)
        requires
            p * q == r * u,
    ;
    lemma_product_near(x, y);
    lemma_near_at(x.units() * y.units(), u, a * b, w);
    lemma_same_rank(product_of(x, y), near(x.units() * y.units(), u), a * b, w);
}

/// A quotient that comes out even.
pub proof fn lemma_quotient_at(x: Num, y: Num, q: int, b: int, s: nat, t: nat)
    requires
        is_at(x, q * b, s),
        is_at(y, b, t),
        b > 0,
        t <= s + 1074,
        s + 1074 - t <= 2000,
        -2 * HIDDEN < q < 2 * HIDDEN,
    ensures
        is_at(quotient_of(x, y), q, (s + 1074 - t) as nat),
{
    reveal(quotient_of);
    let w = (s + 1074 - t) as nat;
    let u = one_unit();
    lemma_pow2_pos(1074);
    lemma_pow2_pos(s);
    lemma_pow2_pos(t);
    lemma_pow2_adds(s, 1074);
    lemma_pow2_adds(w, t);
    let (p, e, r) = (pow2(s) as int, pow2(t) as int, pow2(w) as int);
    assert(b * e > 0) by (nonlinear_arith)
        requires
            b > 0,
            e > 0,
    ;
    lemma_size_zero(y);
    let d = y.size();
    let n = x.units() * u;
    assert(((q * b) * p) * u == (q * r) * (b * e)) by (nonlinear_arith)
        requires
            p * u == r * e,
    ;
    lemma_near_at(n, d, q, w);
    assert((-(x.size() as int)) * u == -(x.size() * u)) by (nonlinear_arith);
    assert((x.size() * u == 0) == (x.size() == 0)) by (nonlinear_arith)
        requires
            u > 0,
    ;
    assert((n < 0) == (x.units() < 0)) by (nonlinear_arith)
        requires
            n == x.units() * u,
            u > 0,
    ;
    lemma_size_zero(x);
    lemma_rounded_sign((x.size() * u) as nat, d);
    if x.size() == 0 {
        assert(n == 0) by (nonlinear_arith)
            requires
                n == x.units() * u,
                x.units() == 0,
        ;
        assert(q == 0) by (nonlinear_arith)
            requires
                (q * b) * p == 0,
                b > 0,
                p > 0,
        ;
        assert(0 * r == 0);
        lemma_size_zero(near(n, d));
    }
    lemma_same_rank(quotient_of(x, y), near(n, d), q, w);
}

/// A whole number on its grid.
pub proof fn lemma_from_int_at(n: int)
    requires
        -2 * HIDDEN < n < 2 * HIDDEN,
    ensures
        is_whole(from_int(n), n),
{
    reveal(from_int);
    let m = (if n < 0 { -n } else { n }) as nat;
    lemma_near_at(n * one_unit(), 1, n, 1074);
    let u = one_unit();
    lemma_pow2_pos(1074);
    assert((-(m as int)) * u == -(m * u) && (m * u >= 0)) by (nonlinear_arith);
    assert((n * u < 0) == (n < 0)) by (nonlinear_arith)
        requires
            u > 0,
    ;
}

/// Small whole numbers written out.
pub proof fn lemma_small_whole()
    ensures
        is_whole(num(0), 0),
        is_whole(num(crate::waves::ONE), 1),
        is_whole(num(crate::waves::TWO), 2),
        is_at(num(crate::waves::HALF), 1, 1073),
{
    crate::arith::lemma_small_sizes();
    lemma_size_zero(num(0));
    vstd::arithmetic::power2::lemma2_to64();
    lemma_pow2_adds(1, 1073);
}

/// Grid points compare as their places do.
pub proof fn lemma_compare_at(x: Num, y: Num, a: int, b: int, t: nat)
    requires
        is_at(x, a, t),
        is_at(y, b, t),
    ensures
        less(x, y) == (a < b),
        equal(x, y) == (a == b),
        at_most(x, y) == (a <= b),
        a == b && a != 0 ==> x == y,
{
    lemma_compare(x, y);
    lemma_pow2_pos(t);
    let p = pow2(t) as int;
    assert((a * p < b * p) == (a < b)) by (nonlinear_arith)
        requires
            p > 0,
    ;
    assert((b * p < a * p) == (b < a)) by (nonlinear_arith)
        requires
            p > 0,
    ;
    assert((a * p == 0) == (a == 0)) by (nonlinear_arith)
        requires
            p > 0,
    ;
    reveal(equal);
    lemma_size_zero(x);
}

/// A finer grid holds what a coarser one does.
pub proof fn lemma_finer(x: Num, a: int, t: nat, s: nat)
    requires
        is_at(x, a, t),
        s <= t,
    ensures
        is_at(x, a * pow2((t - s) as nat), s),
{
    lemma_pow2_adds((t - s) as nat, s);
    let (p, q) = (pow2((t - s) as nat) as int, pow2(s) as int);
    assert(a * (p * q) == (a * p) * q) by (nonlinear_arith);
}

/// The size of a grid point.
pub proof fn lemma_abs_at(x: Num, a: int, t: nat)
    requires
        is_at(x, a, t),
    ensures
        is_at(abs_of(x), if a < 0 { -a } else { a }, t),
        !abs_of(x).negative(),
        x.negative() ==> a <= 0,
        !x.negative() ==> a >= 0,
{
    reveal(abs_of);
    let y = abs_of(x);
    assert(y.magnitude_bits() == x.magnitude_bits());
    assert(y.size() == x.size());
    lemma_pow2_pos(t);
    let p = pow2(t) as int;
    assert((-a) * p == -(a * p)) by (nonlinear_arith);
    assert((a * p < 0) == (a < 0) && (a * p > 0) == (a > 0)) by (nonlinear_arith)
        requires
            p > 0,
    ;
}

/// The remainder of the division that truncates, on a grid.
pub proof fn lemma_remainder_at(x: Num, y: Num, a: int, b: int, t: nat)
    requires
        is_at(x, a, t),
        is_at(y, b, t),
        b > 0,
        t <= 2000,
        -HIDDEN < a < HIDDEN,
        b < HIDDEN,
    ensures
        is_at(
            remainder_of(x, y),
            if x.negative() {
                -((-a) % b)
            } else {
                a % b
            },
            t,
        ),
        x.negative() ==> a <= 0,
        !x.negative() ==> a >= 0,
{
    reveal(remainder_of);
    lemma_pow2_pos(t);
    let p = pow2(t) as int;
    lemma_abs_at(x, a, t);
    let m = if a < 0 {
        -a
    } else {
        a
    };
    assert((-a) * p == -(a * p)) by (nonlinear_arith);
    assert(b * p > 0 && (a * p >= 0) == (a >= 0)) by (nonlinear_arith)
        requires
            b > 0,
            p > 0,
    ;
    lemma_size_zero(y);
    assert(x.size() == m * p && y.size() == b * p);
    lemma_scaled_rest(m, b, p);
    let k = m % b;
    lemma_mod_bound(m, b);
    let n = (k * p) as nat;
    assert(k * p >= 0) by (nonlinear_arith)
        requires
            k >= 0,
            p > 0,
    ;
    assert(n == (k * p) * 1);
    lemma_rounded_within(n, 1, k as nat, k as nat, t);
    lemma_rounded_sign(n, 1);
    assert((-k) * p == -(k * p)) by (nonlinear_arith);
}

/// The remainder that is never negative, on a grid.
pub proof fn lemma_rem_at(x: Num, y: Num, a: int, b: int, t: nat)
    requires
        is_at(x, a, t),
        is_at(y, b, t),
        b > 0,
        t <= 2000,
        -HIDDEN < a < HIDDEN,
        b < HIDDEN,
    ensures
        is_at(rem_euclid_of(x, y), a % b, t),
{
    reveal(remainder_of);
    let zero = num(0);
    lemma_small_whole();
    lemma_pow2_pos(t);
    let p = pow2(t) as int;
    let m = if a < 0 {
        -a
    } else {
        a
    };
    assert((-a) * p == -(a * p)) by (nonlinear_arith);
    assert(b * p > 0 && (a * p >= 0) == (a >= 0)) by (nonlinear_arith)
        requires
            b > 0,
            p > 0,
    ;
    lemma_size_zero(y);
    assert(x.size() == m * p && y.size() == b * p);
    assert((m * p) % (b * p) == (m % b) * p) by {
        lemma_scaled_rest(m, b, p);
    }
    let k = m % b;
    assert(0 <= k < b) by {
        lemma_mod_bound(m, b);
    }
    let n = (k * p) as nat;
    assert(n == (k * p) * 1);
    lemma_rounded_within(n, 1, k as nat, k as nat, t);
    lemma_rounded_sign(n, 1);
    let r = remainder_of(x, y);
    let signed = if x.negative() {
        -k
    } else {
        k
    };
    assert((-k) * p == -(k * p)) by (nonlinear_arith);
    assert(is_at(r, signed, t));
    assert(is_at(zero, 0, t));
    lemma_compare_at(r, zero, signed, 0, t);
    lemma_abs_at(y, b, t);
    lemma_abs_at(x, a, t);
    if less(r, zero) {
        lemma_sum_at(r, abs_of(y), signed, b, t);
        assert((-m) % b == b - k) by {
            lemma_negative_rest(m, b);
        }
    } else if a < 0 {
        assert((-m) % b == 0) by {
            lemma_negative_rest(m, b);
        }
    }
}

proof fn lemma_scaled_rest(m: int, b: int, p: int)
    requires
        m >= 0,
        b > 0,
        p > 0,
    ensures
        (m * p) % (b * p) == (m % b) * p,
{
    lemma_fundamental_div_mod(m, b);
    lemma_mod_bound(m, b);
    let (q, r) = (m / b, m % b);
    assert(m * p == q * (b * p) + r * p) by (nonlinear_arith)
        requires
            m == b * q + r,
    ;
    assert(0 <= r * p < b * p) by (nonlinear_arith)
        requires
            0 <= r < b,
            p > 0,
    ;
    lemma_fundamental_div_mod_converse(m * p, b * p, q, r * p);
}

proof fn lemma_negative_rest(m: int, b: int)
    requires
        m >= 0,
        b > 0,
    ensures
        (-m) % b == (if m % b == 0 {
            0
        } else {
            b - m % b
        }),
{
    lemma_fundamental_div_mod(m, b);
    lemma_mod_bound(m, b);
    let (q, r) = (m / b, m % b);
    if r == 0 {
        assert(-m == (-q) * b + 0) by (nonlinear_arith)
            requires
                m == b * q + r,
                r == 0,
        ;
        lemma_fundamental_div_mod_converse(-m, b, -q, 0);
    } else {
        assert(-m == (-q - 1) * b + (b - r)) by (nonlinear_arith)
            requires
                m == b * q + r,
        ;
        lemma_fundamental_div_mod_converse(-m, b, -q - 1, b - r);
    }
}

/// Rounding does the same below nothing as above it.
pub(crate) proof fn lemma_same_size(neg: bool, n: nat, d: nat)
    requires
        rounded(false, n, d).finite(),
    ensures
        rounded(neg, n, d).finite(),
        rounded(neg, n, d).size() == rounded(false, n, d).size(),
        rounded(neg, n, d).negative() == neg,
{
    reveal(rounded);
}

} // verus!
