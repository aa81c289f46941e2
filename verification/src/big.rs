//! Natural numbers of any size, as far as exact decimal conversion needs them.

use crate::num::{magnitude, nearest, HIDDEN, INFINITE};
use vstd::prelude::*;

verus! {

/// Two to the power 32: the weight of one limb.
pub const LIMB: u64 = 0x1_0000_0000;

/// The number that limbs stand for, the lowest one first.
pub open spec fn total(limbs: Seq<u32>) -> nat
    decreases limbs.len(),
{
    if limbs.len() == 0 {
        0
    } else {
        limbs[0] as nat + LIMB as nat * total(limbs.drop_first())
    }
}

proof fn lemma_total_push(limbs: Seq<u32>, top: u32)
    ensures
        total(limbs.push(top)) == total(limbs) + weight(limbs.len()) * top,
    decreases limbs.len(),
{
    let all = limbs.push(top);
    if limbs.len() == 0 {
        assert(all.drop_first() =~= Seq::<u32>::empty());
        assert(total(all.drop_first()) == 0);
        assert(weight(0) == 1);
    } else {
        assert(all.drop_first() =~= limbs.drop_first().push(top));
        lemma_total_push(limbs.drop_first(), top);
        let rest = total(limbs.drop_first());
        let w = weight((limbs.len() - 1) as nat);
        assert(LIMB * (rest + w * top) == LIMB * rest + (LIMB * w) * top) by (nonlinear_arith);
        assert(weight(limbs.len()) == LIMB * w);
    }
}

/// The weight of the limb at a place.
pub open spec fn weight(place: nat) -> nat
    decreases place,
{
    if place == 0 {
        1
    } else {
        LIMB as nat * weight((place - 1) as nat)
    }
}

proof fn lemma_weight_pos(place: nat)
    ensures
        weight(place) > 0,
    decreases place,
{
    if place > 0 {
        lemma_weight_pos((place - 1) as nat);
        assert(LIMB * weight((place - 1) as nat) > 0) by (nonlinear_arith)
            requires
                weight((place - 1) as nat) > 0,
        ;
    }
}

pub(crate) proof fn lemma_total_pos(limbs: Seq<u32>)
    requires
        limbs.len() > 0,
        limbs[0] > 0,
    ensures
        total(limbs) > 0,
{
    assert(LIMB * total(limbs.drop_first()) >= 0) by (nonlinear_arith);
}

/// A natural number.
#[derive(Debug)]
pub struct Big {
    limbs: Vec<u32>,
}

impl View for Big {
    type V = nat;

    closed spec fn view(&self) -> nat {
        total(self.limbs@)
    }
}

proof fn lemma_take_step(limbs: Seq<u32>, i: int)
    requires
        0 <= i < limbs.len(),
    ensures
        total(limbs.take(i + 1)) == total(limbs.take(i)) + weight(i as nat) * limbs[i],
{
    assert(limbs.take(i + 1) =~= limbs.take(i).push(limbs[i]));
    lemma_total_push(limbs.take(i), limbs[i]);
}

proof fn lemma_total_bound(limbs: Seq<u32>)
    ensures
        total(limbs) < weight(limbs.len()),
    decreases limbs.len(),
{
    if limbs.len() > 0 {
        lemma_total_bound(limbs.drop_first());
        let r = total(limbs.drop_first());
        let w = weight((limbs.len() - 1) as nat);
        assert(limbs[0] + LIMB * r < LIMB * w) by (nonlinear_arith)
            requires
                limbs[0] < LIMB,
                r + 1 <= w,
        ;
    }
}

impl Big {
    pub fn from_u64(n: u64) -> (r: Big)
        ensures
            r@ == n,
    {
        let mut limbs: Vec<u32> = Vec::new();
        limbs.push((n % LIMB) as u32);
        limbs.push((n / LIMB) as u32);
        proof {
            assert(limbs@.drop_first().drop_first() =~= Seq::<u32>::empty());
            assert(total(limbs@.drop_first().drop_first()) == 0);
            assert(total(limbs@.drop_first()) == (n / LIMB) as nat);
            assert(total(limbs@) == n % LIMB + LIMB * (n / LIMB));
        }
        Big { limbs }
    }

    /// The number that limbs stand for.
    pub(crate) fn from_limbs(limbs: Vec<u32>) -> (r: Big)
        ensures
            r@ == total(limbs@),
    {
        Big { limbs }
    }

    pub fn copy(&self) -> (r: Big)
        ensures
            r@ == self@,
    {
        let mut limbs: Vec<u32> = Vec::new();
        let mut i: usize = 0;
        while i < self.limbs.len()
            invariant
                i <= self.limbs.len(),
                limbs@ == self.limbs@.take(i as int),
            decreases self.limbs.len() - i,
        {
            limbs.push(self.limbs[i]);
            i = i + 1;
            assert(limbs@ =~= self.limbs@.take(i as int));
        }
        assert(limbs@ =~= self.limbs@);
        Big { limbs }
    }

    /// Times `m`, plus `more`.
    pub fn scale(&mut self, m: u32, more: u32)
        ensures
            final(self)@ == old(self)@ * m + more,
    {
        let ghost was = self.limbs@;
        let mut carry: u64 = more as u64;
        let mut i: usize = 0;
        proof {
            assert(was.take(0) =~= Seq::<u32>::empty());
            assert(self.limbs@.take(0) =~= Seq::<u32>::empty());
            assert(weight(0) == 1);
            assert(0 * m == 0);
        }
        while i < self.limbs.len()
            invariant
                i <= self.limbs.len(),
                self.limbs@.len() == was.len(),
                carry < LIMB,
                self.limbs@.skip(i as int) == was.skip(i as int),
                total(self.limbs@.take(i as int)) + weight(i as nat) * carry == total(
                    was.take(i as int),
                ) * m + more,
            decreases self.limbs.len() - i,
        {
            assert(self.limbs@[i as int] == self.limbs@.skip(i as int)[0]);
            assert(was[i as int] == was.skip(i as int)[0]);
            assert(was[i as int] * m <= 0xFFFF_FFFF * 0xFFFF_FFFF) by (nonlinear_arith)
                requires
                    0 <= was[i as int] <= 0xFFFF_FFFF,
                    0 <= m <= 0xFFFF_FFFF,
            ;
            let ghost old_carry = carry;
            let sum: u64 = self.limbs[i] as u64 * m as u64 + carry;
            let ghost before = self.limbs@;
            self.limbs.set(i, (sum % LIMB) as u32);
            carry = sum / LIMB;
            proof {
                lemma_take_step(was, i as int);
                lemma_take_step(self.limbs@, i as int);
                assert(self.limbs@.take(i as int) =~= before.take(i as int));
                let w = weight(i as nat);
                let lo = (sum % LIMB) as int;
                assert(weight((i + 1) as nat) == LIMB * w);
                assert(w * lo + (LIMB * w) * carry == w * old_carry + w * (was[i as int] * m))
                    by (nonlinear_arith)
                    requires
                        lo + LIMB * carry == was[i as int] * m + old_carry,
                ;
                let t = total(was.take(i as int));
                assert((t + w * was[i as int]) * m == t * m + w * (was[i as int] * m))
                    by (nonlinear_arith);
                assert(self.limbs@.skip(i as int + 1) =~= was.skip(i as int + 1)) by {
                    assert forall|j: int| i + 1 <= j < was.len() implies self.limbs@[j]
                        == was[j] by {
                        assert(before.skip(i as int)[j - i] == was.skip(i as int)[j - i]);
                    }
                }
            }
            i = i + 1;
        }
        let ghost before = self.limbs@;
        proof {
            assert(before.take(i as int) =~= before);
            assert(was.take(i as int) =~= was);
            lemma_total_push(before, carry as u32);
        }
        if carry > 0 {
            self.limbs.push(carry as u32);
        } else {
            assert(weight(i as nat) * carry == 0) by (nonlinear_arith)
                requires
                    carry == 0,
            ;
        }
    }

    fn limb(&self, i: usize) -> (r: u32)
        ensures
            i < self.limbs@.len() ==> r == self.limbs@[i as int],
            i >= self.limbs@.len() ==> r == 0,
    {
        if i < self.limbs.len() {
            self.limbs[i]
        } else {
            0
        }
    }

    /// The number below the limb at `i`.
    spec fn low(&self, i: int) -> nat {
        if i < self.limbs@.len() {
            total(self.limbs@.take(i))
        } else {
            total(self.limbs@)
        }
    }

    proof fn lemma_low_step(&self, i: int)
        requires
            i >= 0,
        ensures
            self.low(i) < weight(i as nat),
            self.low(i + 1) == self.low(i) + weight(i as nat) * (if i < self.limbs@.len() {
                self.limbs@[i] as int
            } else {
                0
            }),
    {
        if i < self.limbs@.len() {
            lemma_take_step(self.limbs@, i);
            lemma_total_bound(self.limbs@.take(i));
            assert(self.limbs@.take(self.limbs@.len() as int) =~= self.limbs@);
        } else {
            lemma_total_bound(self.limbs@);
            lemma_weight_grows(self.limbs@.len(), i as nat);
            assert(weight(i as nat) * 0 == 0);
        }
    }

    /// `self < other`.
    pub fn less(&self, other: &Big) -> (r: bool)
        ensures
            r == (self@ < other@),
    {
        let mut i: usize = if self.limbs.len() > other.limbs.len() {
            self.limbs.len()
        } else {
            other.limbs.len()
        };
        proof {
            assert(self.limbs@.take(self.limbs@.len() as int) =~= self.limbs@);
            assert(other.limbs@.take(other.limbs@.len() as int) =~= other.limbs@);
        }
        while i > 0
            invariant
                (self@ < other@) == (self.low(i as int) < other.low(i as int)),
            decreases i,
        {
            i = i - 1;
            let a: u32 = self.limb(i);
            let b: u32 = other.limb(i);
            proof {
                self.lemma_low_step(i as int);
                other.lemma_low_step(i as int);
                let w = weight(i as nat);
                let x = self.low(i as int);
                let y = other.low(i as int);
                if a < b {
                    assert(x + w * a < y + w * b) by (nonlinear_arith)
                        requires
                            x < w,
                            a + 1 <= b,
                            y >= 0,
                    ;
                }
                if a > b {
                    assert(x + w * a > y + w * b) by (nonlinear_arith)
                        requires
                            y < w,
                            b + 1 <= a,
                            x >= 0,
                    ;
                }
            }
            if a < b {
                return true;
            }
            if a > b {
                return false;
            }
        }
        proof {
            assert(self.limbs@.take(0) =~= Seq::<u32>::empty());
            assert(other.limbs@.take(0) =~= Seq::<u32>::empty());
            assert(self.low(0) == 0) by {
                if self.limbs@.len() == 0 {
                    assert(self.limbs@ =~= Seq::<u32>::empty());
                }
            }
            assert(other.low(0) == 0) by {
                if other.limbs@.len() == 0 {
                    assert(other.limbs@ =~= Seq::<u32>::empty());
                }
            }
        }
        false
    }

    /// Less `other`, which is not larger.
    pub fn subtract(&mut self, other: &Big)
        requires
            other@ <= old(self)@,
        ensures
            final(self)@ == old(self)@ - other@,
    {
        let ghost was = *self;
        let mut limbs: Vec<u32> = Vec::new();
        let mut borrow: u64 = 0;
        let mut i: usize = 0;
        proof {
            assert(limbs@ =~= Seq::<u32>::empty());
            assert(was.limbs@.take(0) =~= Seq::<u32>::empty());
            assert(other.limbs@.take(0) =~= Seq::<u32>::empty());
            if was.limbs@.len() == 0 {
                assert(was.limbs@ =~= Seq::<u32>::empty());
            }
            if other.limbs@.len() == 0 {
                assert(other.limbs@ =~= Seq::<u32>::empty());
            }
            assert(weight(0) * 0 == 0);
        }
        while i < self.limbs.len()
            invariant
                i <= self.limbs.len(),
                *self == was,
                borrow <= 1,
                limbs@.len() == i,
                total(limbs@) + other.low(i as int) == was.low(i as int) + weight(i as nat)
                    * borrow,
            decreases self.limbs.len() - i,
        {
            let a: u64 = self.limb(i) as u64;
            let b: u64 = other.limb(i) as u64 + borrow;
            let ghost old_borrow = borrow;
            let (d, next): (u64, u64) = if a >= b {
                (a - b, 0)
            } else {
                (a + LIMB - b, 1)
            };
            proof {
                was.lemma_low_step(i as int);
                other.lemma_low_step(i as int);
                lemma_total_push(limbs@, d as u32);
                let w = weight(i as nat);
                let bb = b - old_borrow;
                assert(weight((i + 1) as nat) == LIMB * w);
                assert(w * d + w * bb + w * old_borrow == w * a + (LIMB * w) * next)
                    by (nonlinear_arith)
                    requires
                        d + bb + old_borrow == a + LIMB * next,
                ;
            }
            limbs.push(d as u32);
            borrow = next;
            i = i + 1;
        }
        proof {
            lemma_total_bound(limbs@);
            lemma_other_low(other, i as nat);
            let w = weight(i as nat);
            assert(was.low(i as int) == was@);
            if borrow == 1 {
                assert(w * borrow == w) by (nonlinear_arith)
                    requires
                        borrow == 1,
                ;
                // total(limbs) < w, so the low part of `other` would exceed `self`
                assert(false);
            }
            assert(w * borrow == 0) by (nonlinear_arith)
                requires
                    borrow == 0,
            ;
            // what `other` has above `self`'s limbs is nothing
            lemma_total_bound(was.limbs@);
            lemma_low_exact(other, i as nat);
        }
        self.limbs = limbs;
    }

    /// Whether the number is odd.
    pub fn odd(&self) -> (r: bool)
        ensures
            r == (self@ % 2 == 1),
    {
        if self.limbs.len() == 0 {
            assert(self.limbs@ =~= Seq::<u32>::empty());
            false
        } else {
            proof {
                let r = total(self.limbs@.drop_first());
                assert((self.limbs@[0] + 0x1_0000_0000 * r) % 2 == self.limbs@[0] as int % 2)
                    by (nonlinear_arith)
                    requires
                        r >= 0,
                ;
            }
            self.limbs[0] % 2 == 1
        }
    }

    /// The number as a `u64`, where it fits.
    pub fn to_u64(&self) -> (r: Option<u64>)
        ensures
            match r {
                Some(n) => self@ == n,
                None => self@ > u64::MAX,
            },
    {
        let mut i: usize = self.limbs.len();
        assert(self.limbs@.take(i as int) =~= self.limbs@);
        let mut n: u64 = 0;
        while i > 0
            invariant
                i <= self.limbs.len(),
                total(self.limbs@.take(i as int)) + weight(i as nat) * n == self@,
            decreases i,
        {
            let ghost old_n = n;
            let ghost was = i;
            i = i - 1;
            proof {
                lemma_take_step(self.limbs@, i as int);
                let w = weight(i as nat);
                lemma_weight_pos(i as nat);
                assert(weight(was as nat) == LIMB * w);
                assert(w * self.limbs@[i as int] + (LIMB * w) * old_n == w * (self.limbs@[i as int]
                    + LIMB * old_n)) by (nonlinear_arith);
            }
            if n >= LIMB {
                proof {
                    let w = weight(i as nat);
                    assert(w * (self.limbs@[i as int] + LIMB * old_n) > u64::MAX)
                        by (nonlinear_arith)
                        requires
                            w >= 1,
                            old_n >= LIMB,
                            LIMB == 0x1_0000_0000,
                            self.limbs@[i as int] >= 0,
                            u64::MAX == 0xFFFF_FFFF_FFFF_FFFF,
                    ;
                }
                return None;
            }
            n = n * LIMB + self.limbs[i] as u64;
        }
        proof {
            assert(self.limbs@.take(0) =~= Seq::<u32>::empty());
            assert(weight(0) * n == n) by (nonlinear_arith)
                requires
                    weight(0) == 1,
            ;
        }
        Some(n)
    }

    /// Quotient and remainder by a small number.
    pub fn divide_small(&self, d: u32) -> (r: (Big, u32))
        requires
            d > 0,
        ensures
            self@ == r.0@ * d + r.1,
            r.1 < d,
    {
        // limbs of the quotient, the highest first
        let mut tops: Vec<u32> = Vec::new();
        let mut rem: u64 = 0;
        let mut i: usize = self.limbs.len();
        assert(self.limbs@.take(i as int) =~= self.limbs@);
        proof {
            assert(tops@.reverse() =~= Seq::<u32>::empty());
            assert(0 * d == 0);
            assert(weight(i as nat) * 0 == 0);
            assert(total(tops@.reverse()) == 0);
        }
        while i > 0
            invariant
                d > 0,
                i <= self.limbs.len(),
                rem < d,
                total(self.limbs@.take(i as int)) + weight(i as nat) * (rem + total(
                    tops@.reverse(),
                ) * d) == self@,
            decreases i,
        {
            let ghost old_rem = rem;
            let ghost t = total(tops@.reverse());
            let ghost was = i;
            i = i - 1;
            let here: u64 = rem * LIMB + self.limbs[i] as u64;
            proof {
                assert(here / (d as u64) < LIMB) by (nonlinear_arith)
                    requires
                        here < d * LIMB,
                        d > 0,
                ;
            }
            let q: u64 = here / d as u64;
            let next: u64 = here % d as u64;
            let ghost before = tops@;
            tops.push(q as u32);
            rem = next;
            proof {
                lemma_take_step(self.limbs@, i as int);
                let w = weight(i as nat);
                assert(weight(was as nat) == LIMB * w);
                let now = tops@.reverse();
                assert(now.drop_first() =~= before.reverse());
                assert(now[0] == q as u32);
                assert(total(now) == q + LIMB * t);
                assert(here == d * q + next) by {
                    vstd::arithmetic::div_mod::lemma_fundamental_div_mod(here as int, d as int);
                }
                assert(w * self.limbs@[i as int] + (LIMB * w) * (old_rem + t * d) == w * (next + (q
                    + LIMB * t) * d)) by (nonlinear_arith)
                    requires
                        old_rem * LIMB + self.limbs@[i as int] == d * q + next,
                ;
            }
        }
        let mut limbs: Vec<u32> = Vec::new();
        let mut j: usize = tops.len();
        while j > 0
            invariant
                j <= tops.len(),
                limbs@ == tops@.reverse().take(tops.len() - j),
            decreases j,
        {
            j = j - 1;
            limbs.push(tops[j]);
            assert(limbs@ =~= tops@.reverse().take(tops.len() - j));
        }
        proof {
            assert(limbs@ =~= tops@.reverse());
            assert(self.limbs@.take(0) =~= Seq::<u32>::empty());
            let t = total(limbs@);
            assert(weight(0) * (rem + t * d) == rem + t * d) by (nonlinear_arith)
                requires
                    weight(0) == 1,
            ;
        }
        (Big { limbs }, rem as u32)
    }

    /// Whether the number is 0.
    pub fn is_zero(&self) -> (r: bool)
        ensures
            r == (self@ == 0),
    {
        match self.to_u64() {
            Some(n) => n == 0,
            None => false,
        }
    }
}

proof fn lemma_weight_grows(a: nat, b: nat)
    requires
        a <= b,
    ensures
        weight(a) <= weight(b),
    decreases b,
{
    if a < b {
        lemma_weight_grows(a, (b - 1) as nat);
        let w = weight((b - 1) as nat);
        assert(LIMB * w >= w) by (nonlinear_arith)
            requires
                w >= 0,
                LIMB >= 1,
        ;
    }
}

proof fn lemma_other_low(other: &Big, i: nat)
    ensures
        other.low(i as int) <= other@,
{
    let n = other.limbs@.len();
    if i < n {
        lemma_total_split(other.limbs@, i as int);
    }
}

proof fn lemma_total_split(limbs: Seq<u32>, i: int)
    requires
        0 <= i <= limbs.len(),
    ensures
        total(limbs) == total(limbs.take(i)) + weight(i as nat) * total(limbs.skip(i)),
    decreases i,
{
    if i == 0 {
        assert(limbs.take(0) =~= Seq::<u32>::empty());
        assert(limbs.skip(0) =~= limbs);
        assert(weight(0) * total(limbs) == total(limbs)) by (nonlinear_arith)
            requires
                weight(0) == 1,
        ;
    } else {
        let rest = limbs.drop_first();
        lemma_total_split(rest, i - 1);
        assert(rest.take(i - 1) =~= limbs.take(i).drop_first());
        assert(rest.skip(i - 1) =~= limbs.skip(i));
        let a = total(rest.take(i - 1));
        let w = weight((i - 1) as nat);
        let b = total(limbs.skip(i));
        assert(LIMB * (a + w * b) == LIMB * a + (LIMB * w) * b) by (nonlinear_arith);
    }
}

/// A number no larger than a bound of `i` limbs keeps nothing above them.
proof fn lemma_low_exact(other: &Big, i: nat)
    requires
        other@ < weight(i),
    ensures
        other.low(i as int) == other@,
{
    if i < other.limbs@.len() {
        lemma_total_split(other.limbs@, i as int);
        let w = weight(i);
        let b = total(other.limbs@.skip(i as int));
        assert(b == 0) by (nonlinear_arith)
            requires
                w * b < w,
                b >= 0,
                w > 0,
        ;
        assert(w * b == 0) by (nonlinear_arith)
            requires
                b == 0,
        ;
    }
}

/// Quotient and remainder.
pub fn divide(n: Big, d: &Big) -> (r: (Big, Big))
    requires
        d@ > 0,
    ensures
        n@ == r.0@ * d@ + r.1@,
        r.1@ < d@,
    decreases (if n@ >= d@ { n@ - d@ + 1 } else { 0 }),
{
    if n.less(d) {
        assert(0 * d@ == 0);
        return (Big::from_u64(0), n);
    }
    let mut twice = d.copy();
    twice.scale(2, 0);
    let ghost whole = n@;
    let (mut q, mut r) = divide(n, &twice);
    let ghost q0 = q@;
    let ghost r0 = r@;
    if r.less(d) {
        q.scale(2, 0);
        assert(q0 * (2 * d@) == (q0 * 2) * d@) by (nonlinear_arith);
    } else {
        q.scale(2, 1);
        r.subtract(d);
        assert(q0 * (2 * d@) + r0 == (q0 * 2 + 1) * d@ + (r0 - d@)) by (nonlinear_arith);
    }
    (q, r)
}

/// Executable [`nearest`].
pub fn nearest_big(n: Big, d: &Big) -> (m: Big)
    requires
        d@ > 0,
    ensures
        m@ == nearest(n@, d@),
{
    let ghost whole = n@;
    let (mut q, mut r) = divide(n, d);
    proof {
        vstd::arithmetic::div_mod::lemma_fundamental_div_mod_converse(
            whole as int,
            d@ as int,
            q@ as int,
            r@ as int,
        );
    }
    r.scale(2, 0);
    if r.less(d) {
        q
    } else if d.less(&r) {
        q.scale(1, 1);
        q
    } else {
        if q.odd() {
            q.scale(1, 1);
        }
        q
    }
}

/// Executable [`magnitude`], held at the bits of infinity.
pub fn magnitude_big(n: Big, d: &Big) -> (m: u64)
    requires
        d@ > 0,
    ensures
        m == (if magnitude(n@, d@) < INFINITE {
            magnitude(n@, d@)
        } else {
            INFINITE as nat
        }),
{
    let mut unit = d.copy();
    let mut m: u64 = 0;
    let ghost whole = n@;
    let mut bound = d.copy();
    bound.scale(0x0400_0000, 0);
    bound.scale(0x0800_0000, 0);
    proof {
        assert(d@ * 0x0400_0000 * 0x0800_0000 == d@ * 2 * HIDDEN) by (nonlinear_arith)
            requires
                HIDDEN == 0x0010_0000_0000_0000,
        ;
    }
    while !n.less(&bound)
        invariant
            n@ == whole,
            unit@ > 0,
            bound@ == unit@ * 2 * HIDDEN,
            m < INFINITE,
            magnitude(whole, d@) == m + magnitude(whole, unit@),
            d@ > 0,
        decreases INFINITE - m,
    {
        let ghost u = unit@;
        m = m + HIDDEN;
        if m >= INFINITE {
            return INFINITE;
        }
        unit.scale(2, 0);
        bound.scale(2, 0);
        assert(u * 2 * HIDDEN * 2 == (u * 2) * 2 * HIDDEN) by (nonlinear_arith);
        assert(u * 2 == 2 * u);
    }
    let last = nearest_big(n, &unit);
    match last.to_u64() {
        Some(k) => {
            if k >= INFINITE - m {
                INFINITE
            } else {
                m + k
            }
        },
        None => INFINITE,
    }
}

} // verus!
