//! How a filament warms, cools and shines.

use crate::arith::{lemma_commutes, lemma_small_sizes, lemma_times_one};
use crate::exact::{
    is_whole, lemma_compare, lemma_compare_at, lemma_difference_at, lemma_product_at,
    lemma_small_whole, lemma_sum_at,
};
use crate::lamp::{heat, light, settled_at, whole_power, Filament, AMBIENT, DRIVE, LIGHT};
use crate::num::{
    at_most, clamp_of, equal, lemma_size_zero, less, num, one_unit, opposite_of, product_of,
    quotient_of, sum_of, Num,
};
use crate::order::{counts, lemma_product_rises, lemma_quotient_rises, lemma_rounded_within};
use crate::waves::{pow_of, ONE};
use vstd::arithmetic::power2::{lemma2_to64_rest, lemma_pow2_adds, lemma_pow2_pos, pow2};
use vstd::prelude::*;

verus! {

/// 300 kelvin.
proof fn lemma_ambient()
    ensures
        is_whole(num(AMBIENT), 300),
{
    let x = num(AMBIENT);
    lemma2_to64_rest();
    lemma_pow2_adds(44, 1030);
    assert(x.step() == 1030);
    assert(x.mantissa() == 300 * 0x1000_0000_0000);
    let p = pow2(1030) as int;
    assert((300 * 0x1000_0000_0000) * p == 300 * (0x1000_0000_0000 * p)) by (nonlinear_arith);
}

/// At full power a filament settles at its full temperature, and without any at that of the room.
#[verifier::rlimit(40)]
pub proof fn lemma_settles(lamp: Filament, f: int)
    requires
        is_whole(lamp.full, f),
        0 < f < 0x10_0000,
    ensures
        is_whole(settled_at(lamp, num(ONE)), f),
        is_whole(settled_at(lamp, num(0)), 300),
{
    reveal(settled_at);
    reveal(pow_of);
    lemma_ambient();
    lemma_small_whole();
    let (zero, one) = (num(0), num(ONE));
    lemma_compare_at(one, zero, 1, 0, 1074);
    lemma_compare_at(one, one, 1, 1, 1074);
    lemma_compare_at(zero, zero, 0, 0, 1074);
    lemma_compare_at(zero, one, 0, 1, 1074);
    lemma_compare_at(one, zero, 1, 0, 1074);
    lemma_size_zero(zero);
    let drive = num(DRIVE);
    assert(!drive.zero() && !drive.negative());
    let range = sum_of(lamp.full, opposite_of(num(AMBIENT)));
    lemma_difference_at(lamp.full, num(AMBIENT), f, 300, 1074);
    assert((f - 300) * 1 == f - 300 && (f - 300) * 0 == 0);
    lemma_product_at(range, one, f - 300, 1, 1074, 1074);
    lemma_product_at(range, zero, f - 300, 0, 1074, 1074);
    lemma_sum_at(num(AMBIENT), product_of(range, one), 300, f - 300, 1074);
    lemma_sum_at(num(AMBIENT), product_of(range, zero), 300, 0, 1074);
}

/// How fast a filament warms is its heating time alone, and how fast it cools its cooling time
/// alone: what counts is how many of them have gone by.
pub proof fn lemma_own_time(a: Filament, b: Filament, from: Num, power: Num, one: Num, other: Num)
    requires
        a.full == b.full,
        less(num(0), one) && less(num(0), other),
        if at_most(from, settled_at(a, power)) {
            quotient_of(opposite_of(one), a.heating) == quotient_of(opposite_of(other), b.heating)
        } else {
            quotient_of(opposite_of(one), a.cooling) == quotient_of(opposite_of(other), b.cooling)
        },
    ensures
        heat(a, from, power, one) == heat(b, from, power, other),
{
    reveal(heat);
    reveal(settled_at);
    reveal(less);
    reveal(equal);
}

/// Powers of what does not pass one rise with it, and do not pass one either.
proof fn lemma_powers_rise(x: Num, y: Num, n: nat)
    requires
        counts(x) && counts(y),
        x.size() <= y.size() <= one_unit(),
    ensures
        counts(whole_power(x, n)) && counts(whole_power(y, n)),
        whole_power(x, n).size() <= whole_power(y, n).size() <= one_unit(),
    decreases n,
{
    lemma_small_sizes();
    if n > 0 {
        let m = (n - 1) as nat;
        lemma_powers_rise(x, y, m);
        let (p, q) = (whole_power(x, m), whole_power(y, m));
        let one = num(ONE);
        lemma_product_rises(y, one, q);
        lemma_times_one(q);
        lemma_commutes(q, y);
        lemma_product_rises(p, q, y);
        lemma_product_rises(x, y, p);
        lemma_commutes(p, x);
        lemma_commutes(p, y);
    }
}

/// The hotter of two filaments of one kind is at least as bright.
#[verifier::rlimit(40)]
pub proof fn lemma_hotter_is_brighter(lamp: Filament, cold: Num, hot: Num)
    requires
        counts(cold) && counts(hot) && counts(lamp.full),
        at_most(cold, hot),
        quotient_of(hot, lamp.full).finite(),
    ensures
        at_most(light(lamp, cold), light(lamp, hot)),
{
    reveal(light);
    lemma_ambient();
    lemma_small_sizes();
    lemma_small_whole();
    lemma_compare(cold, hot);
    lemma_compare(cold, num(AMBIENT));
    lemma_compare(hot, num(AMBIENT));
    lemma_compare(lamp.full, num(AMBIENT));
    lemma_compare(num(0), num(0));
    let (zero, one) = (num(0), num(ONE));
    if at_most(lamp.full, num(AMBIENT)) || at_most(hot, num(AMBIENT)) {
    } else {
        let u = one_unit() as int;
        lemma_pow2_pos(1074);
        lemma_size_zero(lamp.full);
        let (p, q) = (quotient_of(cold, lamp.full), quotient_of(hot, lamp.full));
        assert(counts(q)) by {
            reveal(quotient_of);
            reveal(crate::num::rounded);
        }
        lemma_quotient_rises(cold, hot, lamp.full);
        let (x, y) = (clamp_of(p, zero, one), clamp_of(q, zero, one));
        lemma_size_zero(zero);
        lemma_compare(p, zero);
        lemma_compare(q, zero);
        lemma_compare(one, p);
        lemma_compare(one, q);
        assert(counts(x) && counts(y) && x.size() <= y.size() <= one_unit());
        lemma_powers_rise(x, y, LIGHT as nat);
        let (a, b) = (whole_power(x, LIGHT as nat), whole_power(y, LIGHT as nat));
        lemma_compare(a, b);
        lemma_compare(zero, b);
    }
}

/// A filament at its full temperature is as bright as it gets, and at that of the room it is dark.
pub proof fn lemma_full_light(lamp: Filament)
    requires
        counts(lamp.full),
        less(num(AMBIENT), lamp.full),
    ensures
        light(lamp, lamp.full) == num(ONE),
        light(lamp, num(AMBIENT)) == num(0),
{
    reveal(light);
    lemma_ambient();
    lemma_small_sizes();
    lemma_small_whole();
    lemma_compare(num(AMBIENT), lamp.full);
    lemma_compare(lamp.full, num(AMBIENT));
    lemma_compare(num(AMBIENT), num(AMBIENT));
    lemma_pow2_pos(1074);
    lemma_size_zero(lamp.full);
    let (zero, one) = (num(0), num(ONE));
    let d = lamp.full.size();
    let u = one_unit();
    let q = quotient_of(lamp.full, lamp.full);
    assert(q == one) by {
        reveal(quotient_of);
        assert(d * u == (1 * pow2(1074)) * d) by (nonlinear_arith)
            requires
                u == pow2(1074),
        ;
        lemma_rounded_within(d * u, d, 1, 1, 1074);
        lemma_compare_at(q, one, 1, 1, 1074);
    }
    lemma_compare(one, zero);
    lemma_compare(one, one);
    assert(clamp_of(one, zero, one) == one);
    lemma_power_of_one(LIGHT as nat);
}

proof fn lemma_power_of_one(n: nat)
    ensures
        whole_power(num(ONE), n) == num(ONE),
    decreases n,
{
    lemma_small_sizes();
    if n > 0 {
        lemma_power_of_one((n - 1) as nat);
        lemma_times_one(num(ONE));
    }
}

} // verus!
