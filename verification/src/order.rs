//! What the arithmetic of doubles keeps of the order of numbers.

use crate::num::{
    from_int, lemma_exact, lemma_magnitude_scale, lemma_size_at_least, lemma_size_zero, magnitude,
    nearest, one_unit, opposite_of, product_of, quotient_of, round_of, rounded, sum_of, to_byte_of,
    to_u64_of, Num, HIDDEN,
};
use vstd::arithmetic::div_mod::lemma_div_is_ordered;
use vstd::arithmetic::power2::{lemma_pow2_pos, lemma_pow2_unfold, pow2};
use vstd::prelude::*;

verus! {

/// A number that is finite and not below zero, nor a negative zero.
pub open spec fn counts(x: Num) -> bool {
    x.finite() && !x.negative()
}

proof fn lemma_nearest_rises(a: nat, b: nat, d: nat)
    requires
        a <= b,
        d > 0,
    ensures
        nearest(a, d) <= nearest(b, d),
{
    lemma_div_is_ordered(a as int, b as int, d as int);
    let (p, q) = (a as int / d as int, b as int / d as int);
    vstd::arithmetic::div_mod::lemma_fundamental_div_mod(a as int, d as int);
    vstd::arithmetic::div_mod::lemma_fundamental_div_mod(b as int, d as int);
    if p == q {
        assert(a % d <= b % d);
    }
}

proof fn lemma_magnitude_at_least(n: nat, d: nat)
    requires
        d > 0,
        n >= d * HIDDEN,
    ensures
        magnitude(n, d) >= HIDDEN,
{
    if n < d * 2 * HIDDEN {
        assert(n / d >= HIDDEN) by (nonlinear_arith)
            requires
                n >= d * HIDDEN,
                d > 0,
        ;
    }
}

/// The larger a fraction, the larger its rounding.
pub proof fn lemma_magnitude_rises(a: nat, b: nat, d: nat)
    requires
        a <= b,
        d > 0,
    ensures
        magnitude(a, d) <= magnitude(b, d),
    decreases (if b > d { b - d } else { 0 }),
{
    let limit = d * 2 * HIDDEN;
    assert(limit > d) by (nonlinear_arith)
        requires
            limit == d * 2 * HIDDEN,
            d > 0,
    ;
    if b < limit {
        lemma_nearest_rises(a, b, d);
    } else if a >= limit {
        lemma_magnitude_rises(a, b, 2 * d);
    } else {
        assert(a / d < 2 * HIDDEN) by (nonlinear_arith)
            requires
                a < d * 2 * HIDDEN,
                d > 0,
        ;
        assert(b >= (2 * d) * HIDDEN) by (nonlinear_arith)
            requires
                b >= d * 2 * HIDDEN,
        ;
        lemma_magnitude_at_least(b, 2 * d);
    }
}

proof fn lemma_rounded_rises(a: nat, b: nat, d: nat)
    requires
        a <= b,
        d > 0,
    ensures
        rounded(false, a, d).magnitude_bits() <= rounded(false, b, d).magnitude_bits(),
        !rounded(false, a, d).negative(),
        !rounded(false, a, d).nan(),
{
    reveal(rounded);
    lemma_magnitude_rises(a, b, d);
}

/// What lies between two doubles is rounded to something between them.
pub(crate) proof fn lemma_rounded_between(n: nat, d: nat, lo: Num, hi: Num)
    requires
        d > 0,
        counts(lo),
        counts(hi),
        lo.size() * d <= n <= hi.size() * d,
    ensures
        counts(rounded(false, n, d)),
        lo.size() <= rounded(false, n, d).size() <= hi.size(),
{
    reveal(rounded);
    lemma_exact(lo);
    lemma_exact(hi);
    lemma_magnitude_scale(lo.size(), 1, d);
    lemma_magnitude_scale(hi.size(), 1, d);
    assert(1 * d == d);
    lemma_magnitude_rises(lo.size() * d, n, d);
    lemma_magnitude_rises(n, hi.size() * d, d);
    let x = rounded(false, n, d);
    assert(lo.magnitude_bits() <= x.magnitude_bits() <= hi.magnitude_bits());
    lemma_size_at_least(lo, x);
    lemma_size_at_least(x, hi);
}

/// A double of few digits.
proof fn lemma_few_digits(m: nat, t: nat) -> (x: Num)
    requires
        m < 2 * HIDDEN,
        t <= 2000,
    ensures
        counts(x),
        x.size() == m * pow2(t),
    decreases t,
{
    if t == 0 {
        let x = Num { bits: m as u64 };
        vstd::arithmetic::power2::lemma2_to64();
        assert(x.step() == 0 && x.mantissa() == m);
        assert(m * 1 == m);
        x
    } else if m >= HIDDEN {
        let bits = t * HIDDEN + m;
        assert(bits < 2002 * HIDDEN) by (nonlinear_arith)
            requires
                bits == t * HIDDEN + m,
                t <= 2000,
                m < 2 * HIDDEN,
        ;
        let x = Num { bits: bits as u64 };
        vstd::arithmetic::div_mod::lemma_fundamental_div_mod_converse(
            bits as int,
            HIDDEN as int,
            t as int + 1,
            m - HIDDEN,
        );
        assert(x.magnitude_bits() == bits);
        assert(x.step() == t && x.mantissa() == m);
        x
    } else {
        lemma_pow2_unfold(t);
        let x = lemma_few_digits(2 * m, (t - 1) as nat);
        assert((2 * m) * pow2((t - 1) as nat) == m * (2 * pow2((t - 1) as nat)))
            by (nonlinear_arith);
        x
    }
}

/// A fraction between two multiples of a power of two is rounded to something between them.
pub proof fn lemma_rounded_within(n: nat, d: nat, lo: nat, hi: nat, t: nat)
    requires
        d > 0,
        lo < 2 * HIDDEN,
        hi < 2 * HIDDEN,
        t <= 2000,
        (lo * pow2(t)) * d <= n <= (hi * pow2(t)) * d,
    ensures
        counts(rounded(false, n, d)),
        lo * pow2(t) <= rounded(false, n, d).size() <= hi * pow2(t),
{
    let a = lemma_few_digits(lo, t);
    let b = lemma_few_digits(hi, t);
    lemma_rounded_between(n, d, a, b);
}

/// Products rise with their terms.
pub proof fn lemma_product_rises(x: Num, y: Num, z: Num)
    requires
        counts(x),
        counts(y),
        counts(z),
        x.size() <= y.size(),
    ensures
        product_of(x, z).magnitude_bits() <= product_of(y, z).magnitude_bits(),
        counts(product_of(y, z)) ==> counts(product_of(x, z)) && product_of(x, z).size()
            <= product_of(y, z).size(),
{
    reveal(product_of);
    lemma_pow2_pos(1074);
    assert(x.size() * z.size() <= y.size() * z.size()) by (nonlinear_arith)
        requires
            x.size() <= y.size(),
    ;
    lemma_rounded_rises(x.size() * z.size(), y.size() * z.size(), one_unit());
    lemma_size_at_least(product_of(x, z), product_of(y, z));
}

/// What a sum of numbers that count is.
pub proof fn lemma_counting_sum(x: Num, y: Num)
    requires
        counts(x),
        counts(y),
    ensures
        sum_of(x, y) == rounded(false, x.size() + y.size(), 1),
{
    reveal(sum_of);
    if x.size() + y.size() == 0 {
        reveal(rounded);
        assert(magnitude(0, 1) == 0);
    }
}

/// Sums rise with their terms.
pub proof fn lemma_sum_rises(x: Num, y: Num, a: Num, b: Num)
    requires
        counts(x),
        counts(y),
        counts(a),
        counts(b),
        x.size() <= a.size(),
        y.size() <= b.size(),
    ensures
        counts(sum_of(a, b)) ==> counts(sum_of(x, y)) && sum_of(x, y).size() <= sum_of(a, b).size(),
{
    lemma_counting_sum(x, y);
    lemma_counting_sum(a, b);
    lemma_rounded_rises(x.size() + y.size(), a.size() + b.size(), 1);
    lemma_size_at_least(sum_of(x, y), sum_of(a, b));
}

/// Quotients rise with what is divided.
pub proof fn lemma_quotient_rises(x: Num, y: Num, z: Num)
    requires
        counts(x),
        counts(y),
        counts(z),
        !z.zero(),
        x.size() <= y.size(),
    ensures
        counts(quotient_of(y, z)) ==> counts(quotient_of(x, z)) && quotient_of(x, z).size()
            <= quotient_of(y, z).size(),
{
    reveal(quotient_of);
    lemma_size_zero(z);
    let u = one_unit();
    assert(x.size() * u <= y.size() * u) by (nonlinear_arith)
        requires
            x.size() <= y.size(),
    ;
    lemma_rounded_rises(x.size() * u, y.size() * u, z.size());
    lemma_size_at_least(quotient_of(x, z), quotient_of(y, z));
}

/// The whole number nearest to a number that counts, halves up.
pub open spec fn nearest_whole(x: Num) -> nat {
    (2 * x.size() + one_unit()) / (2 * one_unit())
}

/// A small number, rounded and taken as a byte, is the whole number nearest to it.
pub proof fn lemma_byte_of_rounded(x: Num)
    requires
        counts(x),
        nearest_whole(x) < 256,
    ensures
        to_byte_of(round_of(x)) == nearest_whole(x),
{
    reveal(round_of);
    reveal(to_u64_of);
    lemma_pow2_pos(1074);
    let u = one_unit();
    let k = nearest_whole(x);
    assert((k * pow2(1074)) * 1 == k * u);
    lemma_rounded_within(k * u, 1, k, k, 1074);
    let y = round_of(x);
    assert(y.size() == k * u);
    assert(k * u / u == k) by {
        vstd::arithmetic::div_mod::lemma_div_multiples_vanish(k as int, u as int);
        assert(k * u == u * k) by (nonlinear_arith);
    }
}

/// The nearest whole number rises with the number.
pub proof fn lemma_nearest_whole_rises(x: Num, y: Num)
    requires
        x.size() <= y.size(),
    ensures
        nearest_whole(x) <= nearest_whole(y),
{
    lemma_pow2_pos(1074);
    lemma_div_is_ordered(
        (2 * x.size() + one_unit()) as int,
        (2 * y.size() + one_unit()) as int,
        (2 * one_unit()) as int,
    );
}

/// A small whole number is a double.
pub proof fn lemma_whole_number(n: nat)
    requires
        n < 0x1_0000_0000,
    ensures
        counts(from_int(n as int)),
        from_int(n as int).size() == n * one_unit(),
{
    reveal(from_int);
    assert((n * pow2(1074)) * 1 == n * one_unit());
    lemma_rounded_within(n * one_unit(), 1, n, n, 1074);
}

/// The sign of a rounding is the one it was given.
pub(crate) proof fn lemma_rounded_sign(n: nat, d: nat)
    ensures
        rounded(true, n, d).magnitude_bits() == rounded(false, n, d).magnitude_bits(),
        rounded(true, n, d).negative() && !rounded(false, n, d).negative(),
        rounded(true, n, d).size() == rounded(false, n, d).size(),
{
    reveal(rounded);
    let (x, y) = (rounded(true, n, d), rounded(false, n, d));
    assert(x.magnitude_bits() == y.magnitude_bits());
    assert(x.step() == y.step() && x.mantissa() == y.mantissa());
}

/// A finite number between two bounds, in parts of 1024.
pub open spec fn between(x: Num, lo: int, hi: int) -> bool {
    x.finite() && lo * pow2(1064) <= x.units() <= hi * pow2(1064)
}

/// A sum lies between the sums of the bounds.
pub proof fn lemma_between_sum(x: Num, y: Num, a: int, b: int, c: int, d: int)
    requires
        between(x, a, b),
        between(y, c, d),
        -0x1_0000_0000 < a + c,
        b + d < 0x1_0000_0000,
    ensures
        between(sum_of(x, y), a + c, b + d),
{
    reveal(sum_of);
    lemma_pow2_pos(1064);
    let v = pow2(1064) as int;
    let s = x.units() + y.units();
    let (lo, hi) = (a + c, b + d);
    assert(lo * v == a * v + c * v) by (nonlinear_arith)
        requires
            lo == a + c,
    ;
    assert(hi * v == b * v + d * v) by (nonlinear_arith)
        requires
            hi == b + d,
    ;
    let z = sum_of(x, y);
    assert(lo <= hi) by (nonlinear_arith)
        requires
            lo * v <= hi * v,
            v > 0,
    ;
    if s > 0 {
        let under: nat = if lo > 0 {
            lo as nat
        } else {
            0
        };
        assert(hi > 0) by (nonlinear_arith)
            requires
                hi * v > 0,
                v > 0,
        ;
        assert(under * v <= s) by (nonlinear_arith)
            requires
                under == (if lo > 0 {
                    lo
                } else {
                    0
                }),
                lo * v <= s,
                s > 0,
        ;
        lemma_rounded_within(s as nat, 1, under, hi as nat, 1064);
        assert(lo * v <= under * v) by (nonlinear_arith)
            requires
                lo <= under,
                v > 0,
        ;
    } else if s < 0 {
        let under: nat = if hi < 0 {
            (-hi) as nat
        } else {
            0
        };
        assert(lo < 0) by (nonlinear_arith)
            requires
                lo * v < 0,
                v > 0,
        ;
        let n = (-s) as nat;
        assert(under * v <= n && n <= (-lo) * v) by (nonlinear_arith)
            requires
                under == (if hi < 0 {
                    -hi
                } else {
                    0
                }),
                n == -s,
                lo * v <= s <= hi * v,
                s < 0,
        ;
        lemma_rounded_within(n, 1, under, (-lo) as nat, 1064);
        lemma_rounded_sign(n, 1);
        assert(z == rounded(true, n, 1));
        let size = z.size() as int;
        assert(lo * v <= -size && -size <= hi * v) by (nonlinear_arith)
            requires
                under * v <= size <= (-lo) * v,
                under >= -hi,
                v > 0,
        ;
    } else {
        lemma_size_zero(z);
        assert(z.units() == 0);
    }
}

/// A product is at most as large as the bounds of its terms allow, and has the sign of the
/// exact product.
pub proof fn lemma_between_product(x: Num, y: Num, b: int, d: int, e: int)
    requires
        between(x, -b, b),
        between(y, -d, d),
        0 <= b < 0x1_0000,
        0 <= d < 0x1_0000,
        0 <= e < 0x1_0000_0000,
        b * d <= e * 1024,
    ensures
        between(product_of(x, y), -e, e),
        x.units() >= 0 && y.units() >= 0 || x.units() <= 0 && y.units() <= 0
            ==> product_of(x, y).units() >= 0,
        x.units() >= 0 && y.units() <= 0 || x.units() <= 0 && y.units() >= 0
            ==> product_of(x, y).units() <= 0,
{
    reveal(product_of);
    lemma_pow2_pos(1064);
    lemma_pow2_pos(1074);
    vstd::arithmetic::power2::lemma2_to64();
    vstd::arithmetic::power2::lemma_pow2_adds(10, 1064);
    let v = pow2(1064) as int;
    let u = one_unit() as int;
    assert(u == 1024 * v);
    let (p, q) = (x.size() as int, y.size() as int);
    let n = x.size() * y.size();
    assert((-b) * v == -(b * v) && (-d) * v == -(d * v)) by (nonlinear_arith);
    assert(n <= (e * v) * u) by (nonlinear_arith)
        requires
            n == p * q,
            0 <= p <= b * v,
            0 <= q <= d * v,
            b * d <= e * 1024,
            u == 1024 * v,
            v > 0,
            b >= 0,
            d >= 0,
    ;
    assert(0 * v == 0 && 0 * u == 0);
    lemma_rounded_within(n, one_unit(), 0, e as nat, 1064);
    lemma_rounded_sign(n, one_unit());
    let z = product_of(x, y);
    assert((-e) * v == -(e * v)) by (nonlinear_arith);
    assert(z.size() <= e * v);
    assert((p == 0 || q == 0) ==> n == 0) by (nonlinear_arith)
        requires
            n == p * q,
    ;
    if n == 0 {
        lemma_rounded_within(0, one_unit(), 0, 0, 1064);
        assert(z.units() == 0);
    }
    lemma_size_zero(x);
    lemma_size_zero(y);
}

/// The opposite lies between the opposite bounds.
pub proof fn lemma_between_opposite(x: Num, a: int, b: int)
    requires
        between(x, a, b),
    ensures
        between(opposite_of(x), -b, -a),
        opposite_of(x).units() == -x.units(),
{
    crate::arith::lemma_opposite(x);
    let v = pow2(1064) as int;
    assert((-a) * v == -(a * v) && (-b) * v == -(b * v)) by (nonlinear_arith);
}

} // verus!
