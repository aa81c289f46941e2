//! Double precision numbers as bit patterns, with their arithmetic.
//!
//! A [`Num`] holds the 64 bits of a double. Every finite double is a whole multiple of two to
//! the power -1074, so its value is an integer in that unit: [`Num::units`]. The operations are
//! stated over those integers: the exact result, rounded to the nearest double, ties to even.

use vstd::arithmetic::div_mod::{
    lemma_basic_div, lemma_div_multiples_vanish, lemma_fundamental_div_mod,
    lemma_fundamental_div_mod_converse, lemma_mod_multiples_basic, lemma_small_mod,
};
use vstd::arithmetic::power2::{
    lemma2_to64, lemma2_to64_rest, lemma_pow2_adds, lemma_pow2_pos, lemma_pow2_strictly_increases,
    lemma_pow2_unfold, pow2,
};
use vstd::prelude::*;

verus! {

/// Two to the power 52: the weight of the implied leading bit.
pub const HIDDEN: u64 = 0x0010_0000_0000_0000;

/// The sign bit.
pub const SIGN: u64 = 0x8000_0000_0000_0000;

/// The magnitude bits of infinity; anything above is not a number.
pub const INFINITE: u64 = 0x7FF0_0000_0000_0000;

/// The one pattern that operations return for "not a number".
pub const QUIET_NAN: u64 = 0x7FF8_0000_0000_0000;

/// A double, held as its bit pattern. `==` compares the patterns; [`Num::same`] is the
/// numeric equality.
#[derive(Clone, Copy, Debug, PartialEq, Eq, Structural)]
pub struct Num {
    pub bits: u64,
}

impl View for Num {
    type V = Num;

    open spec fn view(&self) -> Num {
        *self
    }
}

/// The number with a bit pattern.
#[verifier::allow_in_spec]
pub fn num(bits: u64) -> Num
    returns
        (Num { bits }),
{
    Num { bits }
}

/// The integer nearest to `n / d`; the even one of two equally near.
pub open spec fn nearest(n: nat, d: nat) -> nat {
    let q = n / d;
    let r = n % d;
    if 2 * r < d {
        q
    } else if 2 * r > d {
        q + 1
    } else {
        q + q % 2
    }
}

/// The magnitude bits of the double nearest to `n / d` units, before the largest exponent
/// cuts in: doubling the unit adds one to the exponent field until 53 bits suffice.
pub open spec fn magnitude(n: nat, d: nat) -> nat
    decreases (if n > d { n - d } else { 0 }),
{
    if d == 0 || n < d * 2 * HIDDEN {
        nearest(n, d)
    } else {
        HIDDEN as nat + magnitude(n, 2 * d)
    }
}

/// The double with the given sign nearest to `n / d` units; infinite past the largest double.
#[verifier::opaque]
pub open spec fn rounded(neg: bool, n: nat, d: nat) -> Num {
    let m = magnitude(n, d);
    let capped = if m < INFINITE { m } else { INFINITE as nat };
    Num { bits: (capped + if neg { SIGN as nat } else { 0 }) as u64 }
}

proof fn lemma_nearest_scale(n: nat, d: nat, c: nat)
    requires
        d > 0,
        c > 0,
    ensures
        d * c > 0,
        nearest(n * c, d * c) == nearest(n, d),
{
    let q = (n / d) as int;
    let r = (n % d) as int;
    lemma_fundamental_div_mod(n as int, d as int);
    assert(d * c > 0) by (nonlinear_arith)
        requires
            d > 0,
            c > 0,
    ;
    assert(n * c == (d * c) * q + r * c) by (nonlinear_arith)
        requires
            n == d * q + r,
    ;
    assert(0 <= r * c < d * c) by (nonlinear_arith)
        requires
            0 <= r < d,
            c > 0,
    ;
    assert(n * c == q * (d * c) + r * c) by (nonlinear_arith)
        requires
            n * c == (d * c) * q + r * c,
    ;
    lemma_fundamental_div_mod_converse((n * c) as int, (d * c) as int, q, r * c);
    assert((2 * r < d) == (2 * (r * c) < d * c)) by (nonlinear_arith)
        requires
            c > 0,
    ;
    assert((2 * r > d) == (2 * (r * c) > d * c)) by (nonlinear_arith)
        requires
            c > 0,
    ;
}

proof fn lemma_nearest_exact(m: nat, d: nat)
    requires
        d > 0,
    ensures
        nearest(m * d, d) == m,
{
    lemma_div_multiples_vanish(m as int, d as int);
    lemma_mod_multiples_basic(m as int, d as int);
    assert(m * d == d * m) by (nonlinear_arith);
}

/// With the exponent `k` that leaves 53 bits, the magnitude is `k` and the rounded quotient.
proof fn lemma_magnitude(n: nat, d: nat, k: nat)
    requires
        d > 0,
        n < d * 2 * HIDDEN * pow2(k),
        k > 0 ==> n >= d * HIDDEN * pow2(k),
    ensures
        magnitude(n, d) == k * HIDDEN + nearest(n, d * pow2(k)),
    decreases k,
{
    if k == 0 {
        assert(pow2(0) == 1) by {
            vstd::arithmetic::power2::lemma2_to64();
        }
        assert(n < d * 2 * HIDDEN) by (nonlinear_arith)
            requires
                n < d * 2 * HIDDEN * pow2(k),
                pow2(k) == 1,
        ;
        assert(d * pow2(k) == d) by (nonlinear_arith)
            requires
                pow2(k) == 1,
        ;
    } else {
        let j = (k - 1) as nat;
        lemma_pow2_unfold(k);
        lemma_pow2_pos(j);
        let p = pow2(j);
        assert(pow2(k) == 2 * p);
        assert(d * 2 * HIDDEN <= n) by (nonlinear_arith)
            requires
                n >= d * HIDDEN * pow2(k),
                pow2(k) == 2 * p,
                p >= 1,
        ;
        assert(n < (2 * d) * 2 * HIDDEN * p) by (nonlinear_arith)
            requires
                n < d * 2 * HIDDEN * pow2(k),
                pow2(k) == 2 * p,
        ;
        assert(n >= (2 * d) * HIDDEN * p) by (nonlinear_arith)
            requires
                n >= d * HIDDEN * pow2(k),
                pow2(k) == 2 * p,
        ;
        assert((2 * d) * p == d * pow2(k)) by (nonlinear_arith)
            requires
                pow2(k) == 2 * p,
        ;
        lemma_magnitude(n, 2 * d, j);
    }
}

/// Two to the power `s`.
pub(crate) fn two_to(s: u32) -> (r: u128)
    requires
        s < 128,
    ensures
        r == pow2(s as nat),
{
    let mut r: u128 = 1;
    let mut done: u32 = 0;
    assert(pow2(0) == 1 && pow2(16) == 65536) by {
        vstd::arithmetic::power2::lemma2_to64();
    }
    assert(pow2(127) == 0x8000_0000_0000_0000_0000_0000_0000_0000) by {
        vstd::arithmetic::power2::lemma2_to64();
        vstd::arithmetic::power2::lemma2_to64_rest();
        lemma_pow2_adds(64, 63);
    }
    while done + 16 <= s
        invariant
            done <= s < 128,
            r == pow2(done as nat),
            pow2(16) == 65536,
            pow2(127) == 0x8000_0000_0000_0000_0000_0000_0000_0000,
        decreases s - done,
    {
        proof {
            lemma_pow2_adds(done as nat, 16);
            if done + 16 < 127 {
                lemma_pow2_strictly_increases((done + 16) as nat, 127);
            }
        }
        r = r * 65536;
        done = done + 16;
    }
    while done < s
        invariant
            done <= s < 128,
            r == pow2(done as nat),
            pow2(127) == 0x8000_0000_0000_0000_0000_0000_0000_0000,
        decreases s - done,
    {
        proof {
            lemma_pow2_unfold((done + 1) as nat);
            if done + 1 < 127 {
                lemma_pow2_strictly_increases((done + 1) as nat, 127);
            }
        }
        r = r * 2;
        done = done + 1;
    }
    r
}

/// The number of bits that `n` takes.
pub(crate) fn bit_length(n: u128) -> (len: u32)
    requires
        n > 0,
    ensures
        0 < len <= 128,
        pow2((len - 1) as nat) <= n < pow2(len as nat),
{
    let mut top: u128 = n;
    let mut len: u32 = 0;
    assert(pow2(0) == 1 && pow2(16) == 65536) by {
        vstd::arithmetic::power2::lemma2_to64();
    }
    assert(n < pow2(128)) by {
        vstd::arithmetic::power2::lemma2_to64();
        vstd::arithmetic::power2::lemma2_to64_rest();
        lemma_pow2_adds(64, 64);
    }
    assert(n == n * pow2(0)) by (nonlinear_arith)
        requires
            pow2(0) == 1,
    ;
    while top >= 65536
        invariant
            top > 0,
            len <= 128,
            top * pow2(len as nat) <= n < (top + 1) * pow2(len as nat),
            n < pow2(128),
            pow2(16) == 65536,
        decreases top,
    {
        let ghost was = top;
        let ghost p = pow2(len as nat);
        proof {
            lemma_pow2_adds(len as nat, 16);
            lemma_pow2_pos(len as nat);
            assert(p * 65536 <= n) by (nonlinear_arith)
                requires
                    was * p <= n,
                    was >= 65536,
            ;
            if len + 16 >= 128 {
                if len + 16 > 128 {
                    lemma_pow2_strictly_increases(128, (len + 16) as nat);
                }
            }
        }
        top = top / 65536;
        len = len + 16;
        proof {
            assert(top * (65536 * p) <= n < (top + 1) * (65536 * p)) by (nonlinear_arith)
                requires
                    was * p <= n < (was + 1) * p,
                    top == was as int / 65536,
            ;
        }
    }
    while top > 0
        invariant
            len <= 128,
            top * pow2(len as nat) <= n < (top + 1) * pow2(len as nat),
            n < pow2(128),
            top == 0 ==> len > 0 && pow2((len - 1) as nat) <= n,
        decreases top,
    {
        let ghost was = top;
        let ghost p = pow2(len as nat);
        proof {
            lemma_pow2_unfold((len + 1) as nat);
            lemma_pow2_pos(len as nat);
            assert(p <= n) by (nonlinear_arith)
                requires
                    was * p <= n,
                    was >= 1,
            ;
            if len >= 128 {
                if len > 128 {
                    lemma_pow2_strictly_increases(128, len as nat);
                }
            }
        }
        top = top / 2;
        len = len + 1;
        proof {
            assert(top * (2 * p) <= n < (top + 1) * (2 * p)) by (nonlinear_arith)
                requires
                    was * p <= n < (was + 1) * p,
                    top == was as int / 2,
            ;
        }
    }
    assert(n < pow2(len as nat)) by (nonlinear_arith)
        requires
            n < (top + 1) * pow2(len as nat),
            top == 0,
    ;
    len
}

/// Executable [`nearest`].
fn nearest_of(n: u128, d: u128) -> (m: u128)
    requires
        0 < d <= 0x8000_0000_0000_0000_0000_0000_0000_0000,
        n < 0x8000_0000_0000_0000_0000_0000_0000_0000,
    ensures
        m == nearest(n as nat, d as nat),
        m <= n as int / d as int + 1,
{
    let q: u128 = n / d;
    let r: u128 = n % d;
    proof {
        assert(n as int / d as int <= n) by (nonlinear_arith)
            requires
                d >= 1,
                n >= 0,
        ;
    }
    if r < d - r {
        q
    } else if r > d - r {
        q + 1
    } else {
        q + q % 2
    }
}

/// Packs an exponent step and a rounded mantissa.
fn pack(neg: bool, k: u32, m: u64) -> (r: Num)
    requires
        k <= 4000,
        m <= 2 * HIDDEN,
    ensures
        ({
            let raw = k * HIDDEN + m;
            let capped = if raw < INFINITE { raw } else { INFINITE as int };
            r.bits == capped + if neg { SIGN as int } else { 0 }
        }),
{
    let raw: u64 = k as u64 * HIDDEN + m;
    let capped: u64 = if raw < INFINITE { raw } else { INFINITE };
    if neg {
        Num { bits: capped + SIGN }
    } else {
        Num { bits: capped }
    }
}

/// The double nearest to `n` times two to the power `x`, in units.
pub(crate) fn round_scaled(neg: bool, n: u128, x: i32) -> (r: Num)
    requires
        n < 0x0100_0000_0000_0000_0000_0000_0000_0000,
        -3100 <= x <= 3100,
    ensures
        x >= 0 ==> r == rounded(neg, n as nat * pow2(x as nat), 1),
        x < 0 ==> r == rounded(neg, n as nat, pow2((-x) as nat)),
{
    let ghost num: nat = if x >= 0 { n as nat * pow2(x as nat) } else { n as nat };
    let ghost den: nat = if x >= 0 { 1 } else { pow2((-x) as nat) };
    proof {
        lemma_pow2_pos((if x >= 0 { x as int } else { -x }) as nat);
        reveal(rounded);
    }
    if n == 0 {
        assert(num == 0) by (nonlinear_arith)
            requires
                num == n * pow2(x as nat) || num == n,
                n == 0,
        ;
        assert(den * 2 * HIDDEN > 0) by (nonlinear_arith)
            requires
                den > 0,
        ;
        assert(nearest(0, den) == 0) by {
            lemma_nearest_exact(0, den);
            assert(0 * den == 0) by (nonlinear_arith);
        }
        return pack(neg, 0, 0);
    }
    let len: u32 = bit_length(n);
    assert(pow2(120) == 0x0100_0000_0000_0000_0000_0000_0000_0000) by {
        vstd::arithmetic::power2::lemma2_to64();
        vstd::arithmetic::power2::lemma2_to64_rest();
        lemma_pow2_adds(64, 56);
    }
    assert(pow2(52) == HIDDEN && pow2(53) == 2 * HIDDEN) by {
        vstd::arithmetic::power2::lemma2_to64_rest();
    }
    assert(len <= 120) by {
        if len > 121 {
            lemma_pow2_strictly_increases(120, (len - 1) as nat);
        }
    }
    let top: i32 = len as i32 + x;
    let k: i32 = if top > 53 { top - 53 } else { 0 };
    let s: i32 = k - x;
    proof {
        lemma_round_window(n as nat, x as int, len as nat, k as nat);
    }
    if s <= 0 {
        let up: u128 = two_to((-s) as u32);
        proof {
            // n < 2^len and len + (x - k) <= 53
            lemma_pow2_adds(len as nat, (-s) as nat);
            lemma_pow2_pos((-s) as nat);
            if len + (-s) < 53 {
                lemma_pow2_strictly_increases((len + (-s)) as nat, 53);
            }
            assert(n * up < pow2(len as nat) * up) by (nonlinear_arith)
                requires
                    n < pow2(len as nat),
                    up > 0,
            ;
            lemma_pow2_adds((-s) as nat, k as nat);
            lemma_pow2_pos(k as nat);
            assert(num == (n * up) * pow2(k as nat)) by (nonlinear_arith)
                requires
                    num == n * pow2(x as nat),
                    pow2(x as nat) == up * pow2(k as nat),
            ;
            lemma_nearest_exact((n * up) as nat, pow2(k as nat));
            lemma_magnitude(num, den, k as nat);
            assert(den * pow2(k as nat) == pow2(k as nat)) by (nonlinear_arith)
                requires
                    den == 1,
            ;
        }
        pack(neg, k as u32, (n * up) as u64)
    } else {
        proof {
            lemma_magnitude(num, den, k as nat);
            lemma_pow2_pos(s as nat);
            if x >= 0 {
                lemma_pow2_adds(s as nat, x as nat);
                lemma_nearest_scale(n as nat, pow2(s as nat), pow2(x as nat));
                assert(den * pow2(k as nat) == pow2(k as nat)) by (nonlinear_arith)
                    requires
                        den == 1,
                ;
            } else {
                lemma_pow2_adds((-x) as nat, k as nat);
            }
            assert(magnitude(num, den) == k * HIDDEN + nearest(n as nat, pow2(s as nat)));
        }
        if s > 126 {
            proof {
                lemma_pow2_strictly_increases(120, s as nat);
                lemma_pow2_strictly_increases(120, 121);
                lemma_pow2_unfold(121);
                lemma_pow2_strictly_increases(121, s as nat);
                vstd::arithmetic::div_mod::lemma_basic_div(n as int, pow2(s as nat) as int);
                vstd::arithmetic::div_mod::lemma_small_mod(n as nat, pow2(s as nat));
                assert(k == 0);
            }
            pack(neg, k as u32, 0)
        } else {
            let down: u128 = two_to(s as u32);
            proof {
                if s < 127 {
                    lemma_pow2_strictly_increases(s as nat, 127);
                }
                vstd::arithmetic::power2::lemma2_to64();
                vstd::arithmetic::power2::lemma2_to64_rest();
                lemma_pow2_adds(64, 63);
                // n < 2^len and len - s <= 53, so the quotient is below 2^53
                lemma_pow2_adds(53, s as nat);
                if len < 53 + s {
                    lemma_pow2_strictly_increases(len as nat, (53 + s) as nat);
                }
                assert(n as int / down as int <= 2 * HIDDEN - 1) by (nonlinear_arith)
                    requires
                        n < (2 * HIDDEN) * down,
                        down > 0,
                        n >= 0,
                ;
            }
            let m: u128 = nearest_of(n, down);
            pack(neg, k as u32, m as u64)
        }
    }
}

/// The exponent step chosen from the bit length leaves 53 bits.
proof fn lemma_round_window(n: nat, x: int, len: nat, k: nat)
    requires
        len > 0,
        pow2((len - 1) as nat) <= n < pow2(len),
        k == (if len + x > 53 { len + x - 53 } else { 0 }),
        pow2(52) == HIDDEN,
        pow2(53) == 2 * HIDDEN,
    ensures
        ({
            let num: nat = if x >= 0 { n * pow2(x as nat) } else { n };
            let den: nat = if x >= 0 { 1 } else { pow2((-x) as nat) };
            &&& den > 0
            &&& num < den * 2 * HIDDEN * pow2(k)
            &&& k > 0 ==> num >= den * HIDDEN * pow2(k)
        }),
{
    let num: nat = if x >= 0 { n * pow2(x as nat) } else { n };
    let den: nat = if x >= 0 { 1 } else { pow2((-x) as nat) };
    let xp: nat = if x >= 0 { x as nat } else { 0 };
    let xn: nat = if x >= 0 { 0 } else { (-x) as nat };
    lemma_pow2_pos(xp);
    lemma_pow2_pos(xn);
    assert(pow2(0) == 1) by {
        vstd::arithmetic::power2::lemma2_to64();
    }
    assert(num == n * pow2(xp)) by (nonlinear_arith)
        requires
            num == n * pow2(xp) || (num == n && pow2(xp) == 1),
    ;
    assert(den == pow2(xn));
    lemma_pow2_adds(len, xp);
    lemma_pow2_adds((len - 1) as nat, xp);
    lemma_pow2_adds(53, k);
    lemma_pow2_adds(52, k);
    lemma_pow2_adds(xn, 53 + k);
    lemma_pow2_adds(xn, 52 + k);
    let a = len + xp;
    let b = xn + 53 + k;
    if a < b {
        lemma_pow2_strictly_increases(a, b);
    }
    assert(num < pow2(a)) by (nonlinear_arith)
        requires
            num == n * pow2(xp),
            n < pow2(len),
            pow2(a) == pow2(len) * pow2(xp),
            pow2(xp) > 0,
    ;
    assert(den * 2 * HIDDEN * pow2(k) == pow2(b)) by (nonlinear_arith)
        requires
            den == pow2(xn),
            pow2(b) == pow2(xn) * pow2(53 + k),
            pow2(53 + k) == (2 * HIDDEN) * pow2(k),
    ;
    if k > 0 {
        assert((len - 1) + xp == xn + 52 + k);
        assert(num >= pow2((len - 1 + xp) as nat)) by (nonlinear_arith)
            requires
                num == n * pow2(xp),
                n >= pow2((len - 1) as nat),
                pow2((len - 1 + xp) as nat) == pow2((len - 1) as nat) * pow2(xp),
        ;
        assert(den * HIDDEN * pow2(k) == pow2(xn + 52 + k)) by (nonlinear_arith)
            requires
                den == pow2(xn),
                pow2(xn + 52 + k) == pow2(xn) * pow2(52 + k),
                pow2(52 + k) == HIDDEN * pow2(k),
        ;
    }
}

pub(crate) proof fn lemma_magnitude_scale(n: nat, d: nat, c: nat)
    requires
        d > 0,
        c > 0,
    ensures
        d * c > 0,
        magnitude(n * c, d * c) == magnitude(n, d),
    decreases (if n > d { n - d } else { 0 }),
{
    lemma_nearest_scale(n, d, c);
    assert((n < d * 2 * HIDDEN) == (n * c < (d * c) * 2 * HIDDEN)) by (nonlinear_arith)
        requires
            c > 0,
    ;
    if n >= d * 2 * HIDDEN {
        lemma_magnitude_scale(n, 2 * d, c);
        assert((2 * d) * c == 2 * (d * c)) by (nonlinear_arith);
    }
}

/// `a` times two to the power `e`, over `b`, rounded; both mantissas are normalized.
fn round_ratio(neg: bool, a: u64, b: u64, e: i32) -> (r: Num)
    requires
        HIDDEN <= a < 2 * HIDDEN,
        HIDDEN <= b < 2 * HIDDEN,
        -2000 <= e <= 4000,
    ensures
        e >= 0 ==> r == rounded(neg, a as nat * pow2(e as nat), b as nat),
        e < 0 ==> r == rounded(neg, a as nat, b as nat * pow2((-e) as nat)),
{
    let t: i32 = if a >= b { 52 } else { 53 };
    let k: i32 = if e > t { e - t } else { 0 };
    proof {
        reveal(rounded);
        assert(pow2(52) == HIDDEN && pow2(53) == 2 * HIDDEN && pow2(0) == 1) by {
            vstd::arithmetic::power2::lemma2_to64();
            vstd::arithmetic::power2::lemma2_to64_rest();
        }
    }
    if e >= 0 {
        let s: i32 = e - k;
        let up: u128 = two_to(s as u32);
        proof {
            let pk = pow2(k as nat);
            let num = a as nat * pow2(e as nat);
            lemma_pow2_pos(k as nat);
            lemma_pow2_pos(s as nat);
            lemma_pow2_adds(s as nat, k as nat);
            if s < t {
                lemma_pow2_strictly_increases(s as nat, t as nat);
            }
            assert(a * up <= a * pow2(t as nat)) by (nonlinear_arith)
                requires
                    up <= pow2(t as nat),
            ;
            assert(a * pow2(t as nat) < b * (2 * HIDDEN)) by (nonlinear_arith)
                requires
                    (pow2(t as nat) == HIDDEN && a < 2 * b) || (pow2(t as nat) == 2 * HIDDEN && a
                        < b),
            ;
            assert(num == (a * up) * pk) by (nonlinear_arith)
                requires
                    num == a * pow2(e as nat),
                    pow2(e as nat) == up * pk,
            ;
            assert(num < b as nat * 2 * HIDDEN * pk) by (nonlinear_arith)
                requires
                    num == (a * up) * pk,
                    a * up < b * (2 * HIDDEN),
                    pk > 0,
            ;
            if k > 0 {
                assert(a * up >= b * HIDDEN) by (nonlinear_arith)
                    requires
                        (up == HIDDEN && a >= b) || (up == 2 * HIDDEN && 2 * a >= b),
                ;
                assert(num >= b as nat * HIDDEN * pk) by (nonlinear_arith)
                    requires
                        num == (a * up) * pk,
                        a * up >= b * HIDDEN,
                        pk > 0,
                ;
            }
            lemma_magnitude(num, b as nat, k as nat);
            lemma_nearest_scale((a * up) as nat, b as nat, pk);
            assert(a * up < 0x4000_0000_0000_0000_0000_0000_0000) by (nonlinear_arith)
                requires
                    a * up < b * (2 * HIDDEN),
                    b < 2 * HIDDEN,
                    HIDDEN == 0x0010_0000_0000_0000,
            ;
            assert((a * up) / (b as int) <= 2 * HIDDEN - 1) by (nonlinear_arith)
                requires
                    a * up < b * (2 * HIDDEN),
                    a * up >= 0,
                    b > 0,
            ;
        }
        let m: u128 = nearest_of(a as u128 * up, b as u128);
        pack(neg, k as u32, m as u64)
    } else {
        let s: i32 = -e;
        proof {
            let ps = pow2(s as nat);
            lemma_pow2_pos(s as nat);
            assert(b as nat * ps > 0) by (nonlinear_arith)
                requires
                    b > 0,
                    ps > 0,
            ;
            assert(a < (b * ps) * 2 * HIDDEN * 1) by (nonlinear_arith)
                requires
                    a < 2 * HIDDEN,
                    b >= 1,
                    ps >= 1,
            ;
            lemma_magnitude(a as nat, b as nat * ps, 0);
            assert((b as nat * ps) * pow2(0) == b * ps) by (nonlinear_arith)
                requires
                    pow2(0) == 1,
            ;
        }
        if s > 60 {
            proof {
                let ps = pow2(s as nat);
                vstd::arithmetic::power2::lemma2_to64_rest();
                lemma_pow2_strictly_increases(60, s as nat);
                assert(b * ps > 2 * a) by (nonlinear_arith)
                    requires
                        b >= 1,
                        ps >= 0x1000_0000_0000_0000,
                        a < 0x20_0000_0000_0000,
                ;
                vstd::arithmetic::div_mod::lemma_basic_div(a as int, (b * ps) as int);
                vstd::arithmetic::div_mod::lemma_small_mod(a as nat, (b * ps) as nat);
            }
            pack(neg, 0, 0)
        } else {
            let up: u128 = two_to(s as u32);
            proof {
                vstd::arithmetic::power2::lemma2_to64_rest();
                if s < 60 {
                    lemma_pow2_strictly_increases(s as nat, 60);
                }
                assert(b * up <= 0x20_0000_0000_0000 * 0x1000_0000_0000_0000) by (nonlinear_arith)
                    requires
                        b <= 0x20_0000_0000_0000,
                        0 <= up <= 0x1000_0000_0000_0000,
                ;
                assert((a as int) / (b * up) <= a) by (nonlinear_arith)
                    requires
                        b * up > 0,
                        a >= 0,
                ;
            }
            let m: u128 = nearest_of(a as u128, b as u128 * up);
            pack(neg, 0, m as u64)
        }
    }
}

/// A far smaller term does not move a sum off the larger one.
proof fn lemma_negligible(m: nat, k: nat, e: nat)
    requires
        HIDDEN <= m < 2 * HIDDEN,
        k >= 4,
        4 * e < pow2(k),
    ensures
        magnitude(m * pow2(k) + e, 1) == k * HIDDEN + m,
        m * pow2(k) >= e,
        magnitude((m * pow2(k) - e) as nat, 1) == k * HIDDEN + m,
{
    let p = pow2(k);
    lemma_pow2_pos(k);
    let n = m * p + e;
    assert(n < 1 * 2 * HIDDEN * p) by (nonlinear_arith)
        requires
            n == m * p + e,
            m + 1 <= 2 * HIDDEN,
            e < p,
    ;
    assert(n >= 1 * HIDDEN * p) by (nonlinear_arith)
        requires
            n == m * p + e,
            m >= HIDDEN,
            e >= 0,
    ;
    lemma_magnitude(n, 1, k);
    assert(1 * p == p);
    lemma_fundamental_div_mod_converse(n as int, p as int, m as int, e as int);
    assert(m * p >= e) by (nonlinear_arith)
        requires
            m >= 1,
            e < p,
    ;
    let d = (m * p - e) as nat;
    if e == 0 {
    } else if m > HIDDEN {
        assert(d < 1 * 2 * HIDDEN * p) by (nonlinear_arith)
            requires
                d == m * p - e,
                m < 2 * HIDDEN,
                e > 0,
                p > 0,
        ;
        assert(d >= 1 * HIDDEN * p) by (nonlinear_arith)
            requires
                d == m * p - e,
                m >= HIDDEN + 1,
                e < p,
        ;
        lemma_magnitude(d, 1, k);
        assert(d == (m - 1) * p + (p - e)) by (nonlinear_arith)
            requires
                d == m * p - e,
        ;
        lemma_fundamental_div_mod_converse(d as int, p as int, m - 1, p - e);
    } else {
        let j = (k - 1) as nat;
        let h = pow2(j);
        lemma_pow2_unfold(k);
        assert(p == 2 * h);
        assert(d == (2 * HIDDEN - 1) * h + (h - e)) by (nonlinear_arith)
            requires
                d == HIDDEN * p - e,
                p == 2 * h,
        ;
        assert(d < 1 * 2 * HIDDEN * h && d >= 1 * HIDDEN * h) by (nonlinear_arith)
            requires
                d == (2 * HIDDEN - 1) * h + (h - e),
                0 < e < h,
        ;
        lemma_magnitude(d, 1, j);
        assert(1 * h == h);
        lemma_fundamental_div_mod_converse(d as int, h as int, 2 * HIDDEN - 1, h - e);
        assert(j * HIDDEN + 2 * HIDDEN == k * HIDDEN + HIDDEN) by (nonlinear_arith)
            requires
                j == k - 1,
        ;
    }
}

proof fn lemma_magnitude_bound(n: nat, d: nat, k: nat)
    requires
        d > 0,
        n < d * 2 * HIDDEN * pow2(k),
    ensures
        magnitude(n, d) <= (k + 2) * HIDDEN,
    decreases k,
{
    if n < d * 2 * HIDDEN {
        let q = n as int / d as int;
        lemma_fundamental_div_mod(n as int, d as int);
        assert(q < 2 * HIDDEN) by (nonlinear_arith)
            requires
                n == d * q + n % d,
                n % d >= 0,
                n < d * 2 * HIDDEN,
                d > 0,
        ;
        assert(nearest(n, d) <= 2 * HIDDEN);
        assert((k + 2) * HIDDEN >= 2 * HIDDEN) by (nonlinear_arith);
    } else {
        if k == 0 {
            vstd::arithmetic::power2::lemma2_to64();
            assert(d * 2 * HIDDEN * pow2(0) == d * 2 * HIDDEN) by (nonlinear_arith)
                requires
                    pow2(0) == 1,
            ;
        } else {
            let j = (k - 1) as nat;
            lemma_pow2_unfold(k);
            assert(n < (2 * d) * 2 * HIDDEN * pow2(j)) by (nonlinear_arith)
                requires
                    n < d * 2 * HIDDEN * pow2(k),
                    pow2(k) == 2 * pow2(j),
            ;
            lemma_magnitude_bound(n, 2 * d, j);
            assert((j + 2) * HIDDEN + HIDDEN == (k + 2) * HIDDEN) by (nonlinear_arith)
                requires
                    k == j + 1,
            ;
        }
    }
}

/// What is not too large rounds to a finite number.
pub(crate) proof fn lemma_rounds_finite(neg: bool, n: nat, d: nat, k: nat)
    requires
        d > 0,
        k <= 2000,
        n < d * 2 * HIDDEN * pow2(k),
    ensures
        rounded(neg, n, d).finite(),
        rounded(neg, n, d).step() <= k + 2,
{
    reveal(rounded);
    lemma_magnitude_bound(n, d, k);
    assert((k + 2) * HIDDEN <= 2002 * HIDDEN) by (nonlinear_arith)
        requires
            k <= 2000,
    ;
    let r = rounded(neg, n, d);
    assert(r.magnitude_bits() == magnitude(n, d));
    let e = r.magnitude_bits() / HIDDEN as int;
    assert(e <= k + 2) by (nonlinear_arith)
        requires
            e == r.magnitude_bits() / HIDDEN as int,
            r.magnitude_bits() <= (k + 2) * HIDDEN,
            HIDDEN > 0,
    ;
}

/// A quotient that is `a / b` times a power of two, with 53 bits before the point, rounds to
/// that power and the nearest whole number.
pub(crate) proof fn lemma_rounds_to(n: nat, d: nat, a: nat, b: nat, k: nat)
    requires
        d > 0,
        b > 0,
        n * b == a * (d * pow2(k)),
        HIDDEN * b <= a < 2 * HIDDEN * b,
        k <= 2000,
    ensures
        rounded(false, n, d).bits == k * HIDDEN + nearest(a, b),
{
    lemma_pow2_pos(k);
    let p = pow2(k);
    let e = d * p;
    assert(e > 0) by (nonlinear_arith)
        requires
            e == d * p,
            d > 0,
            p > 0,
    ;
    assert(n < 2 * HIDDEN * e) by (nonlinear_arith)
        requires
            n * b == a * e,
            a < 2 * HIDDEN * b,
            e > 0,
            b > 0,
    ;
    assert(n >= HIDDEN * e) by (nonlinear_arith)
        requires
            n * b == a * e,
            a >= HIDDEN * b,
            e > 0,
            b > 0,
    ;
    assert(2 * HIDDEN * e == d * 2 * HIDDEN * p) by (nonlinear_arith)
        requires
            e == d * p,
    ;
    assert(HIDDEN * e == d * HIDDEN * p) by (nonlinear_arith)
        requires
            e == d * p,
    ;
    lemma_magnitude(n, d, k);
    lemma_nearest_scale(n, e, b);
    lemma_nearest_scale(a, b, e);
    assert(e * b == b * e) by (nonlinear_arith);
    lemma_rounds_finite(false, n, d, k);
    reveal(rounded);
    lemma_magnitude_bound(n, d, k);
    assert((k + 2) * HIDDEN <= 2002 * HIDDEN) by (nonlinear_arith)
        requires
            k <= 2000,
    ;
}

/// One is many units.
pub(crate) proof fn lemma_large_unit()
    ensures
        one_unit() >= 0x1_0000_0000_0000_0000,
{
    vstd::arithmetic::power2::lemma2_to64();
    lemma_pow2_strictly_increases(64, 1074);
}

/// From one unit on a quotient has a magnitude.
pub(crate) proof fn lemma_some_magnitude(n: nat, d: nat)
    requires
        d > 0,
        n >= d,
    ensures
        magnitude(n, d) >= 1,
{
    if n < d * 2 * HIDDEN {
        lemma_fundamental_div_mod(n as int, d as int);
        let q = n as int / d as int;
        assert(q >= 1) by (nonlinear_arith)
            requires
                n == d * q + n % d,
                n % d < d,
                n >= d,
                d > 0,
        ;
    }
}

/// One, in units.
pub open spec fn one_unit() -> nat {
    pow2(1074)
}

impl Num {
    /// The sign bit is set.
    pub open spec fn negative(self) -> bool {
        self.bits >= SIGN
    }

    /// The bits below the sign.
    pub open spec fn magnitude_bits(self) -> int {
        self.bits as int % SIGN as int
    }

    pub open spec fn nan(self) -> bool {
        self.magnitude_bits() > INFINITE
    }

    pub open spec fn infinite(self) -> bool {
        self.magnitude_bits() == INFINITE
    }

    pub open spec fn finite(self) -> bool {
        self.magnitude_bits() < INFINITE
    }

    pub open spec fn zero(self) -> bool {
        self.magnitude_bits() == 0
    }

    /// How often the unit is doubled under the mantissa.
    pub open spec fn step(self) -> nat {
        let e = self.magnitude_bits() / HIDDEN as int;
        if e == 0 {
            0
        } else {
            (e - 1) as nat
        }
    }

    /// The mantissa, with its implied leading bit.
    pub open spec fn mantissa(self) -> nat {
        let e = self.magnitude_bits() / HIDDEN as int;
        let f = self.magnitude_bits() % HIDDEN as int;
        (if e == 0 {
            f
        } else {
            f + HIDDEN
        }) as nat
    }

    /// The absolute value of a finite double, in units.
    pub open spec fn size(self) -> nat {
        self.mantissa() * pow2(self.step())
    }

    /// The value of a finite double, in units.
    pub open spec fn units(self) -> int {
        if self.negative() {
            -(self.size() as int)
        } else {
            self.size() as int
        }
    }

    /// Where the number stands in the order of the doubles.
    pub open spec fn rank(self) -> int {
        if self.negative() {
            -self.magnitude_bits()
        } else {
            self.magnitude_bits()
        }
    }
}

pub open spec fn not_a_number() -> Num {
    Num { bits: QUIET_NAN }
}

pub open spec fn infinity(neg: bool) -> Num {
    Num { bits: (INFINITE + if neg { SIGN as int } else { 0 }) as u64 }
}

pub open spec fn signed_zero(neg: bool) -> Num {
    Num { bits: if neg { SIGN } else { 0 } }
}

/// The sum: exact, then rounded.
#[verifier::opaque]
pub open spec fn sum_of(x: Num, y: Num) -> Num {
    if x.nan() || y.nan() {
        not_a_number()
    } else if x.infinite() {
        if y.infinite() && x.negative() != y.negative() {
            not_a_number()
        } else {
            x
        }
    } else if y.infinite() {
        y
    } else {
        let s = x.units() + y.units();
        if s == 0 {
            signed_zero(x.negative() && y.negative())
        } else {
            rounded(s < 0, (if s < 0 { -s } else { s }) as nat, 1)
        }
    }
}

/// The opposite.
#[verifier::opaque]
pub open spec fn opposite_of(x: Num) -> Num {
    Num { bits: (if x.negative() { x.bits - SIGN } else { x.bits + SIGN }) as u64 }
}

/// The product: exact, then rounded.
#[verifier::opaque]
pub open spec fn product_of(x: Num, y: Num) -> Num {
    let neg = x.negative() != y.negative();
    if x.nan() || y.nan() {
        not_a_number()
    } else if x.infinite() || y.infinite() {
        if x.zero() || y.zero() {
            not_a_number()
        } else {
            infinity(neg)
        }
    } else {
        rounded(neg, x.size() * y.size(), one_unit())
    }
}

/// The quotient: exact, then rounded.
#[verifier::opaque]
pub open spec fn quotient_of(x: Num, y: Num) -> Num {
    let neg = x.negative() != y.negative();
    if x.nan() || y.nan() {
        not_a_number()
    } else if x.infinite() {
        if y.infinite() {
            not_a_number()
        } else {
            infinity(neg)
        }
    } else if y.infinite() {
        signed_zero(neg)
    } else if y.zero() {
        if x.zero() {
            not_a_number()
        } else {
            infinity(neg)
        }
    } else {
        rounded(neg, x.size() * one_unit(), y.size())
    }
}

/// The remainder of the division that truncates, with the sign of `x`.
#[verifier::opaque]
pub open spec fn remainder_of(x: Num, y: Num) -> Num {
    if x.nan() || y.nan() || x.infinite() || y.zero() {
        not_a_number()
    } else if y.infinite() {
        x
    } else {
        rounded(x.negative(), x.size() % y.size(), 1)
    }
}

/// The largest whole number at or below `x`.
#[verifier::opaque]
pub open spec fn floor_of(x: Num) -> Num {
    if x.nan() {
        not_a_number()
    } else if x.infinite() {
        x
    } else if x.negative() {
        rounded(true, ((x.size() + one_unit() - 1) as nat / one_unit()) * one_unit(), 1)
    } else {
        rounded(false, (x.size() / one_unit()) * one_unit(), 1)
    }
}

/// The nearest whole number, halves away from zero.
#[verifier::opaque]
pub open spec fn round_of(x: Num) -> Num {
    if x.nan() {
        not_a_number()
    } else if x.infinite() {
        x
    } else {
        rounded(x.negative(), ((2 * x.size() + one_unit()) / (2 * one_unit())) * one_unit(), 1)
    }
}

/// The whole part of the absolute value of a finite number.
pub open spec fn whole(x: Num) -> nat {
    x.size() / one_unit()
}

/// Truncated to a `u64`, held within its range; 0 for what is not a number.
#[verifier::opaque]
pub open spec fn to_u64_of(x: Num) -> u64 {
    if x.nan() || x.negative() {
        0
    } else if x.infinite() || whole(x) > u64::MAX {
        u64::MAX
    } else {
        whole(x) as u64
    }
}

/// Truncated to a byte, held within its range; 0 for what is not a number.
pub open spec fn to_byte_of(x: Num) -> u8 {
    if to_u64_of(x) > 255 {
        255
    } else {
        to_u64_of(x) as u8
    }
}

/// Truncated to an `i64`, held within its range; 0 for what is not a number.
#[verifier::opaque]
pub open spec fn to_i64_of(x: Num) -> i64 {
    if x.nan() {
        0
    } else if x.negative() {
        if x.infinite() || whole(x) > i64::MAX {
            i64::MIN
        } else {
            (-(whole(x) as int)) as i64
        }
    } else {
        if x.infinite() || whole(x) > i64::MAX {
            i64::MAX
        } else {
            whole(x) as i64
        }
    }
}

/// The double nearest to a whole number.
#[verifier::opaque]
pub open spec fn from_int(n: int) -> Num {
    rounded(n < 0, (if n < 0 { -n } else { n }) as nat * one_unit(), 1)
}

/// How many binary digits of a mantissa a number of single precision lacks.
pub open spec fn single_lacks(step: nat) -> nat {
    if step + 29 < 925 {
        (925 - step) as nat
    } else {
        29
    }
}

/// The number of single precision nearest to a number; the even one of two equally near,
/// infinite past the largest.
#[verifier::opaque]
pub open spec fn single_of(x: Num) -> Num {
    if x.nan() {
        not_a_number()
    } else if x.infinite() {
        x
    } else {
        let lacks = single_lacks(x.step());
        let size = nearest(x.mantissa(), pow2(lacks)) * pow2(lacks + x.step());
        if size >= pow2(1202) {
            infinity(x.negative())
        } else {
            rounded(x.negative(), size, 1)
        }
    }
}

/// `x < y`, as numbers.
#[verifier::opaque]
pub open spec fn less(x: Num, y: Num) -> bool {
    !x.nan() && !y.nan() && x.rank() < y.rank()
}

/// `x == y`, as numbers: zeros are equal, what is not a number equals nothing.
#[verifier::opaque]
pub open spec fn equal(x: Num, y: Num) -> bool {
    !x.nan() && !y.nan() && x.rank() == y.rank()
}

/// `x <= y`, as numbers.
pub open spec fn at_most(x: Num, y: Num) -> bool {
    less(x, y) || equal(x, y)
}

/// The absolute value.
#[verifier::opaque]
pub open spec fn abs_of(x: Num) -> Num {
    Num { bits: x.magnitude_bits() as u64 }
}

/// The smaller one; the other one where one is not a number.
pub open spec fn min_of(x: Num, y: Num) -> Num {
    if x.nan() || less(y, x) {
        y
    } else {
        x
    }
}

/// The larger one; the other one where one is not a number.
pub open spec fn max_of(x: Num, y: Num) -> Num {
    if x.nan() || less(x, y) {
        y
    } else {
        x
    }
}

/// Held within two bounds.
pub open spec fn clamp_of(x: Num, lo: Num, hi: Num) -> Num {
    if less(x, lo) {
        lo
    } else if less(hi, x) {
        hi
    } else {
        x
    }
}

/// The remainder that is never negative.
pub open spec fn rem_euclid_of(x: Num, y: Num) -> Num {
    let r = remainder_of(x, y);
    if less(r, signed_zero(false)) {
        sum_of(r, abs_of(y))
    } else {
        r
    }
}

/// The next whole number, upwards.
pub open spec fn ceil_of(x: Num) -> Num {
    opposite_of(floor_of(opposite_of(x)))
}

/// The fraction bits left after the whole part is taken away, towards zero.
pub open spec fn trunc_of(x: Num) -> Num {
    if x.negative() {
        opposite_of(floor_of(opposite_of(x)))
    } else {
        floor_of(x)
    }
}

proof fn lemma_parts(x: Num)
    ensures
        x.finite() ==> x.mantissa() < 2 * HIDDEN,
        x.finite() ==> x.step() <= 2045,
        x.magnitude_bits() == x.step() * HIDDEN + x.mantissa(),
        x.step() > 0 ==> x.mantissa() >= HIDDEN,
        x.bits == x.magnitude_bits() + if x.negative() { SIGN as int } else { 0 },
        0 <= x.magnitude_bits() < SIGN,
{
    let b = x.magnitude_bits();
    lemma_fundamental_div_mod(b, HIDDEN as int);
    assert(x.bits < 2 * SIGN);
    let e = b / HIDDEN as int;
    if e > 0 {
        assert(HIDDEN * e == (e - 1) * HIDDEN + HIDDEN) by (nonlinear_arith);
    } else {
        assert(HIDDEN * e == 0) by (nonlinear_arith)
            requires
                e == 0,
        ;
        assert(0 * HIDDEN == 0);
    }
}

pub(crate) proof fn lemma_mantissa_bound(x: Num)
    requires
        x.finite(),
    ensures
        x.mantissa() < 2 * HIDDEN,
{
    lemma_parts(x);
}

/// A finite number is its own rounding.
pub proof fn lemma_exact(x: Num)
    requires
        x.finite(),
    ensures
        rounded(x.negative(), x.size(), 1) == x,
{
    reveal(rounded);
    lemma_parts(x);
    let p = pow2(x.step());
    lemma_pow2_pos(x.step());
    let m = x.mantissa();
    let n = x.size();
    assert(n < 1 * 2 * HIDDEN * p) by (nonlinear_arith)
        requires
            n == m * p,
            m < 2 * HIDDEN,
            p > 0,
    ;
    if x.step() > 0 {
        assert(n >= 1 * HIDDEN * p) by (nonlinear_arith)
            requires
                n == m * p,
                m >= HIDDEN,
    ;
    }
    lemma_magnitude(n, 1, x.step());
    lemma_nearest_exact(m, p);
    assert(1 * p == p);
}

impl Num {
    /// The sign bit is set.
    pub fn is_negative(self) -> (r: bool)
        ensures
            r == self.negative(),
    {
        self.bits >= SIGN
    }

    /// Neither infinite nor "not a number".
    pub fn is_finite(self) -> (r: bool)
        ensures
            r == self.finite(),
    {
        self.bits % SIGN < INFINITE
    }

    pub fn is_nan(self) -> (r: bool)
        ensures
            r == self.nan(),
    {
        self.bits % SIGN > INFINITE
    }

    pub fn is_infinite(self) -> (r: bool)
        ensures
            r == self.infinite(),
    {
        self.bits % SIGN == INFINITE
    }

    pub fn is_zero(self) -> (r: bool)
        ensures
            r == self.zero(),
    {
        self.bits % SIGN == 0
    }

    pub(crate) fn parts(self) -> (r: (u64, u32))
        requires
            self.finite(),
        ensures
            r.0 == self.mantissa(),
            r.1 == self.step(),
            r.0 < 2 * HIDDEN,
            r.1 <= 2045,
            r.1 > 0 ==> r.0 >= HIDDEN,
    {
        proof {
            lemma_parts(self);
        }
        let b: u64 = self.bits % SIGN;
        let e: u64 = b / HIDDEN;
        let f: u64 = b % HIDDEN;
        if e == 0 {
            (f, 0)
        } else {
            (f + HIDDEN, (e - 1) as u32)
        }
    }

    fn nothing(neg: bool) -> (r: Num)
        ensures
            r == signed_zero(neg),
    {
        Num { bits: if neg { SIGN } else { 0 } }
    }

    fn endless(neg: bool) -> (r: Num)
        ensures
            r == infinity(neg),
    {
        Num { bits: if neg { INFINITE + SIGN } else { INFINITE } }
    }

    /// The sum of two finite numbers.
    fn finite_sum(self, other: Num) -> (r: Num)
        requires
            self.finite(),
            other.finite(),
            self.units() + other.units() != 0,
            self.step() >= other.step(),
        ensures
            ({
                let s = self.units() + other.units();
                r == rounded(s < 0, (if s < 0 { -s } else { s }) as nat, 1)
            }),
    {
        let (ma, ka) = self.parts();
        let (mb, kb) = other.parts();
        let gap: u32 = ka - kb;
        let ghost pa = pow2(ka as nat);
        let ghost pb = pow2(kb as nat);
        let ghost s = self.units() + other.units();
        let ghost abs = (if s < 0 { -s } else { s }) as nat;
        proof {
            lemma_pow2_pos(ka as nat);
            lemma_pow2_pos(kb as nat);
            lemma_parts(self);
            lemma_parts(other);
        }
        if gap > 64 {
            proof {
                let e = other.size();
                lemma_pow2_adds(kb as nat, gap as nat);
                vstd::arithmetic::power2::lemma2_to64_rest();
                lemma_pow2_strictly_increases(64, gap as nat);
                assert(4 * e < pa) by (nonlinear_arith)
                    requires
                        e == mb * pb,
                        mb < 0x20_0000_0000_0000,
                        pa == pb * pow2(gap as nat),
                        pow2(gap as nat) > 0x1_0000_0000_0000_0000,
                        pb > 0,
                ;
                lemma_negligible(ma as nat, ka as nat, e);
                assert(ma * pa >= pa) by (nonlinear_arith)
                    requires
                        ma >= 1,
                ;
                assert(abs == self.size() + e || abs == self.size() - e);
                assert((s < 0) == self.negative());
                reveal(rounded);
            }
            self
        } else {
            let up: u128 = two_to(gap);
            proof {
                lemma_pow2_adds(kb as nat, gap as nat);
                lemma_pow2_pos(gap as nat);
                vstd::arithmetic::power2::lemma2_to64();
                vstd::arithmetic::power2::lemma2_to64_rest();
                if gap < 64 {
                    lemma_pow2_strictly_increases(gap as nat, 64);
                }
                assert(ma * up <= 0x20_0000_0000_0000 * 0x1_0000_0000_0000_0000) by (nonlinear_arith)
                    requires
                        ma <= 0x20_0000_0000_0000,
                        up <= 0x1_0000_0000_0000_0000,
                ;
                assert(self.size() == (ma * up) * pb) by (nonlinear_arith)
                    requires
                        self.size() == ma * pa,
                        pa == pb * up,
                ;
                assert(other.size() == mb * pb);
            }
            let a: u128 = ma as u128 * up;
            let b: u128 = mb as u128;
            if self.is_negative() == other.is_negative() {
                assert(abs == (a + b) * pb) by (nonlinear_arith)
                    requires
                        abs == a * pb + b * pb,
                ;
                assert((s < 0) == self.negative());
                let r = round_scaled(self.is_negative(), a + b, kb as i32);
                r
            } else if a >= b {
                assert(abs == (a - b) * pb && a * pb >= b * pb) by (nonlinear_arith)
                    requires
                        abs == a * pb - b * pb || abs == b * pb - a * pb,
                        abs >= 0,
                        a >= b,
                        pb > 0,
                ;
                assert((s < 0) == self.negative());
                round_scaled(self.is_negative(), a - b, kb as i32)
            } else {
                assert(abs == (b - a) * pb && b * pb > a * pb) by (nonlinear_arith)
                    requires
                        abs == a * pb - b * pb || abs == b * pb - a * pb,
                        abs >= 0,
                        a < b,
                        pb > 0,
                ;
                assert((s < 0) == other.negative());
                round_scaled(other.is_negative(), b - a, kb as i32)
            }
        }
    }

    /// The sum of two numbers.
    pub fn plus(self, other: Num) -> (r: Num)
        ensures
            r == sum_of(self, other),
    {
        proof {
            reveal(sum_of);
        }
        if self.is_nan() || other.is_nan() {
            Num { bits: QUIET_NAN }
        } else if self.is_infinite() {
            if other.is_infinite() && self.is_negative() != other.is_negative() {
                Num { bits: QUIET_NAN }
            } else {
                self
            }
        } else if other.is_infinite() {
            other
        } else {
            let (ma, ka) = self.parts();
            let (mb, kb) = other.parts();
            proof {
                lemma_parts(self);
                lemma_parts(other);
                lemma_size_zero(self);
                lemma_size_zero(other);
                lemma_same_size(self, other);
            }
            if self.bits % SIGN == other.bits % SIGN && (ma == 0 || self.is_negative()
                != other.is_negative()) {
                Num::nothing(self.is_negative() && other.is_negative())
            } else if ka >= kb {
                self.finite_sum(other)
            } else {
                other.finite_sum(self)
            }
        }
    }

    /// The opposite number.
    pub fn neg(self) -> (r: Num)
        ensures
            r == opposite_of(self),
    {
        proof {
            reveal(opposite_of);
        }
        if self.bits >= SIGN {
            Num { bits: self.bits - SIGN }
        } else {
            Num { bits: self.bits + SIGN }
        }
    }

    pub open spec fn difference(self, other: Num) -> Num {
        sum_of(self, opposite_of(other))
    }

    /// The difference of two numbers.
    pub fn minus(self, other: Num) -> (r: Num)
        ensures
            r == self.difference(other),
    {
        self.plus(other.neg())
    }

    /// The product of two numbers.
    pub fn times(self, other: Num) -> (r: Num)
        ensures
            r == product_of(self, other),
    {
        proof {
            reveal(product_of);
        }
        let neg: bool = self.is_negative() != other.is_negative();
        if self.is_nan() || other.is_nan() {
            Num { bits: QUIET_NAN }
        } else if self.is_infinite() || other.is_infinite() {
            if self.is_zero() || other.is_zero() {
                Num { bits: QUIET_NAN }
            } else {
                Num::endless(neg)
            }
        } else {
            let (ma, ka) = self.parts();
            let (mb, kb) = other.parts();
            assert(ma * mb < 0x0100_0000_0000_0000_0000_0000_0000_0000) by (nonlinear_arith)
                requires
                    ma < 0x20_0000_0000_0000,
                    mb < 0x20_0000_0000_0000,
            ;
            let n: u128 = ma as u128 * mb as u128;
            let x: i32 = ka as i32 + kb as i32 - 1074;
            proof {
                let pa = pow2(ka as nat);
                let pb = pow2(kb as nat);
                let all = pow2((ka + kb) as nat);
                lemma_pow2_adds(ka as nat, kb as nat);
                assert(self.size() * other.size() == n * all) by (nonlinear_arith)
                    requires
                        self.size() == ma * pa,
                        other.size() == mb * pb,
                        n == ma * mb,
                        all == pa * pb,
                ;
                lemma_pow2_pos(1074);
                lemma_pow2_pos((ka + kb) as nat);
                reveal(rounded);
                if x >= 0 {
                    lemma_pow2_adds(x as nat, 1074);
                    assert((n as nat * pow2(x as nat)) * pow2(1074) == n * all)
                        by (nonlinear_arith)
                        requires
                            all == pow2(x as nat) * pow2(1074),
                    ;
                    lemma_magnitude_scale(n as nat * pow2(x as nat), 1, pow2(1074));
                    assert(1 * pow2(1074) == pow2(1074));
                } else {
                    lemma_pow2_adds((-x) as nat, (ka + kb) as nat);
                    lemma_pow2_pos((-x) as nat);
                    lemma_magnitude_scale(n as nat, pow2((-x) as nat), all);
                }
            }
            round_scaled(neg, n, x)
        }
    }

    /// The quotient of two numbers.
    pub fn over(self, other: Num) -> (r: Num)
        ensures
            r == quotient_of(self, other),
    {
        proof {
            reveal(quotient_of);
        }
        let neg: bool = self.is_negative() != other.is_negative();
        if self.is_nan() || other.is_nan() {
            Num { bits: QUIET_NAN }
        } else if self.is_infinite() {
            if other.is_infinite() {
                Num { bits: QUIET_NAN }
            } else {
                Num::endless(neg)
            }
        } else if other.is_infinite() {
            Num::nothing(neg)
        } else if other.is_zero() {
            if self.is_zero() {
                Num { bits: QUIET_NAN }
            } else {
                Num::endless(neg)
            }
        } else if self.is_zero() {
            proof {
                lemma_parts(other);
                lemma_size_zero(other);
                lemma_size_zero(self);
                assert(self.size() * one_unit() == 0) by (nonlinear_arith)
                    requires
                        self.size() == 0,
                ;
                reveal(rounded);
                assert(other.size() * 2 * HIDDEN > 0) by (nonlinear_arith)
                    requires
                        other.size() > 0,
                ;
                lemma_nearest_exact(0, other.size());
                assert(0 * other.size() == 0) by (nonlinear_arith);
            }
            Num::nothing(neg)
        } else {
            let (ma, ka) = self.parts();
            let (mb, kb) = other.parts();
            proof {
                lemma_parts(self);
                lemma_parts(other);
                assert(0 * HIDDEN == 0);
            }
            let (a, p) = normalized(ma);
            let (b, q) = normalized(mb);
            let e: i32 = (ka as i32 + 1074 + q as i32) - (kb as i32 + p as i32);
            proof {
                lemma_ratio(self.size(), other.size(), ma as nat, ka as nat, mb as nat, kb as nat,
                    a as nat, p as nat, b as nat, q as nat, e as int);
                reveal(rounded);
            }
            round_ratio(neg, a, b, e)
        }
    }
}

pub(crate) proof fn lemma_size_zero(x: Num)
    ensures
        (x.size() == 0) == x.zero(),
{
    lemma_parts(x);
    lemma_pow2_pos(x.step());
    let m = x.mantissa();
    let p = pow2(x.step());
    assert((m * p == 0) == (m == 0)) by (nonlinear_arith)
        requires
            p > 0,
    ;
    assert((x.step() * HIDDEN == 0) == (x.step() == 0)) by (nonlinear_arith);
}

proof fn lemma_size_order(x: Num, y: Num)
    requires
        x.magnitude_bits() < y.magnitude_bits(),
    ensures
        x.size() < y.size(),
{
    lemma_parts(x);
    lemma_parts(y);
    let (mx, kx) = (x.mantissa(), x.step());
    let (my, ky) = (y.mantissa(), y.step());
    lemma_pow2_pos(kx);
    if kx == ky {
        assert(mx * pow2(kx) < my * pow2(kx)) by (nonlinear_arith)
            requires
                mx < my,
                pow2(kx) > 0,
        ;
    } else {
        assert(x.magnitude_bits() / HIDDEN as int <= y.magnitude_bits() / HIDDEN as int);
        assert(kx < ky);
        lemma_pow2_unfold(kx + 1);
        if kx + 1 < ky {
            lemma_pow2_strictly_increases(kx + 1, ky);
        }
        assert(mx < 2 * HIDDEN);
        assert(mx * pow2(kx) < my * pow2(ky)) by (nonlinear_arith)
            requires
                mx < 2 * HIDDEN,
                my >= HIDDEN,
                pow2(ky) >= 2 * pow2(kx),
                pow2(kx) > 0,
        ;
    }
}

pub(crate) proof fn lemma_size_at_least(x: Num, y: Num)
    requires
        x.magnitude_bits() <= y.magnitude_bits(),
    ensures
        x.size() <= y.size(),
{
    if x.magnitude_bits() < y.magnitude_bits() {
        lemma_size_order(x, y);
    } else {
        lemma_same_size(x, y);
    }
}

pub(crate) proof fn lemma_size_at_most(x: Num, y: Num)
    requires
        x.size() <= y.size(),
    ensures
        x.magnitude_bits() <= y.magnitude_bits(),
{
    if y.magnitude_bits() < x.magnitude_bits() {
        lemma_size_order(y, x);
    }
}

proof fn lemma_same_size(x: Num, y: Num)
    ensures
        (x.size() == y.size()) == (x.magnitude_bits() == y.magnitude_bits()),
{
    if x.magnitude_bits() < y.magnitude_bits() {
        lemma_size_order(x, y);
    } else if y.magnitude_bits() < x.magnitude_bits() {
        lemma_size_order(y, x);
    }
}

fn normalized(m: u64) -> (r: (u64, u32))
    requires
        0 < m < 2 * HIDDEN,
    ensures
        HIDDEN <= r.0 < 2 * HIDDEN,
        r.1 <= 52,
        r.0 == m * pow2(r.1 as nat),
{
    let len: u32 = bit_length(m as u128);
    proof {
        vstd::arithmetic::power2::lemma2_to64();
        vstd::arithmetic::power2::lemma2_to64_rest();
        if len > 54 {
            lemma_pow2_strictly_increases(53, (len - 1) as nat);
        }
    }
    let p: u32 = 53 - len;
    let up: u128 = two_to(p);
    proof {
        lemma_pow2_adds(p as nat, len as nat);
        lemma_pow2_adds(p as nat, (len - 1) as nat);
        lemma_pow2_pos(p as nat);
        assert(HIDDEN <= m * up < 2 * HIDDEN) by (nonlinear_arith)
            requires
                pow2((len - 1) as nat) <= m < pow2(len as nat),
                up * pow2((len - 1) as nat) == HIDDEN,
                up * pow2(len as nat) == 2 * HIDDEN,
                up > 0,
        ;
    }
    ((m as u128 * up) as u64, p)
}

proof fn lemma_ratio(
    sx: nat,
    sy: nat,
    ma: nat,
    ka: nat,
    mb: nat,
    kb: nat,
    a: nat,
    p: nat,
    b: nat,
    q: nat,
    e: int,
)
    requires
        sx == ma * pow2(ka),
        sy == mb * pow2(kb),
        a == ma * pow2(p),
        b == mb * pow2(q),
        a > 0,
        b > 0,
        mb > 0,
        e == (ka + 1074 + q) - (kb + p),
    ensures
        e >= 0 ==> magnitude(sx * one_unit(), sy) == magnitude(a * pow2(e as nat), b),
        e < 0 ==> magnitude(sx * one_unit(), sy) == magnitude(a, b * pow2((-e) as nat)),
{
    let n = sx * one_unit();
    let c = pow2(p + q);
    lemma_pow2_adds(p, q);
    lemma_pow2_pos(p + q);
    lemma_pow2_pos(kb);
    assert(sy > 0) by (nonlinear_arith)
        requires
            sy == mb * pow2(kb),
            mb > 0,
            pow2(kb) > 0,
    ;
    lemma_magnitude_scale(n, sy, c);
    let e1 = ka + 1074 + q;
    let e2 = kb + p;
    lemma_pow2_adds(ka, 1074);
    lemma_pow2_adds(ka + 1074, q);
    lemma_pow2_adds(kb, p);
    assert(n * c == a * pow2(e1)) by (nonlinear_arith)
        requires
            n == (ma * pow2(ka)) * pow2(1074),
            c == pow2(p) * pow2(q),
            a == ma * pow2(p),
            pow2(ka + 1074) == pow2(ka) * pow2(1074),
            pow2(e1) == pow2(ka + 1074) * pow2(q),
    ;
    assert(sy * c == b * pow2(e2)) by (nonlinear_arith)
        requires
            sy == mb * pow2(kb),
            c == pow2(p) * pow2(q),
            b == mb * pow2(q),
            pow2(e2) == pow2(kb) * pow2(p),
    ;
    lemma_pow2_pos(e1);
    lemma_pow2_pos(e2);
    if e >= 0 {
        lemma_pow2_adds(e as nat, e2);
        assert((a * pow2(e as nat)) * pow2(e2) == a * pow2(e1)) by (nonlinear_arith)
            requires
                pow2(e1) == pow2(e as nat) * pow2(e2),
        ;
        lemma_magnitude_scale(a * pow2(e as nat), b, pow2(e2));
    } else {
        lemma_pow2_adds((-e) as nat, e1);
        lemma_pow2_pos((-e) as nat);
        assert((b * pow2((-e) as nat)) * pow2(e1) == b * pow2(e2)) by (nonlinear_arith)
            requires
                pow2(e2) == pow2((-e) as nat) * pow2(e1),
        ;
        assert(b * pow2((-e) as nat) > 0) by (nonlinear_arith)
            requires
                b > 0,
                pow2((-e) as nat) > 0,
        ;
        lemma_magnitude_scale(a, b * pow2((-e) as nat), pow2(e1));
    }
}

proof fn lemma_double_mod(n: int, m: int)
    requires
        m > 0,
        n >= 0,
    ensures
        (2 * n) % m == (2 * (n % m)) % m,
{
    vstd::arithmetic::div_mod::lemma_mul_mod_noop_right(2, n, m);
}

impl Num {
    /// The remainder of the division that truncates.
    pub fn rem(self, other: Num) -> (r: Num)
        ensures
            r == remainder_of(self, other),
    {
        proof {
            reveal(remainder_of);
            lemma_size_zero(other);
        }
        if self.is_nan() || other.is_nan() || self.is_infinite() || other.is_zero() {
            return Num { bits: QUIET_NAN };
        }
        if other.is_infinite() {
            return self;
        }
        proof {
            lemma_exact(self);
            lemma_parts(self);
            lemma_parts(other);
        }
        if self.bits % SIGN < other.bits % SIGN {
            proof {
                lemma_size_order(self, other);
                vstd::arithmetic::div_mod::lemma_small_mod(self.size(), other.size());
            }
            return self;
        }
        let (ma, ka) = self.parts();
        let (mb, kb) = other.parts();
        assert(ka >= kb) by {
            if ka < kb {
                assert(ka * HIDDEN + 2 * HIDDEN <= kb * HIDDEN + HIDDEN) by (nonlinear_arith)
                    requires
                        ka + 1 <= kb,
                ;
            }
        }
        assert(mb > 0) by {
            assert(0 * pow2(kb as nat) == 0) by (nonlinear_arith);
        }
        let mut left: u64 = ma % mb;
        let mut done: u32 = 0;
        proof {
            assert(pow2(0) == 1) by {
                vstd::arithmetic::power2::lemma2_to64();
            }
            assert(ma * pow2(0) == ma) by (nonlinear_arith)
                requires
                    pow2(0) == 1,
            ;
        }
        while done < ka - kb
            invariant
                done <= ka - kb,
                ka <= 2045,
                0 < mb < 2 * HIDDEN,
                left < mb,
                left == (ma * pow2(done as nat)) % (mb as int),
            decreases ka - kb - done,
        {
            proof {
                lemma_pow2_unfold((done + 1) as nat);
                let n = ma * pow2(done as nat);
                assert(n >= 0) by (nonlinear_arith)
                    requires
                        n == ma * pow2(done as nat),
                ;
                lemma_double_mod(n, mb as int);
                assert(ma * pow2((done + 1) as nat) == 2 * n) by (nonlinear_arith)
                    requires
                        n == ma * pow2(done as nat),
                        pow2((done + 1) as nat) == 2 * pow2(done as nat),
                ;
            }
            left = (2 * left) % mb;
            done = done + 1;
        }
        proof {
            let g = (ka - kb) as nat;
            let pb = pow2(kb as nat);
            lemma_pow2_adds(g, kb as nat);
            lemma_pow2_pos(kb as nat);
            let n = ma * pow2(g);
            let q = n / (mb as int);
            lemma_fundamental_div_mod(n, mb as int);
            assert(self.size() == q * other.size() + left * pb) by (nonlinear_arith)
                requires
                    self.size() == ma * pow2(ka as nat),
                    pow2(ka as nat) == pow2(g) * pb,
                    n == ma * pow2(g),
                    n == mb * q + left,
                    other.size() == mb * pb,
            ;
            assert(0 <= left * pb < other.size()) by (nonlinear_arith)
                requires
                    other.size() == mb * pb,
                    left < mb,
                    pb > 0,
            ;
            lemma_fundamental_div_mod_converse(self.size() as int, other.size() as int, q, (left
                * pb) as int);
        }
        round_scaled(self.is_negative(), left as u128, kb as i32)
    }

    /// The remainder that is never negative.
    /// The nearest number of single precision.
    pub fn single(self) -> (r: Num)
        ensures
            r == single_of(self),
    {
        proof {
            reveal(single_of);
        }
        if self.is_nan() {
            return Num { bits: QUIET_NAN };
        }
        if self.is_infinite() {
            return self;
        }
        let (m, k): (u64, u32) = self.parts();
        let neg = self.is_negative();
        let lacks: u32 = if k + 29 < 925 {
            925 - k
        } else {
            29
        };
        let q: u128 = if lacks > 100 {
            proof {
                let d = pow2(lacks as nat);
                lemma2_to64_rest();
                lemma_pow2_strictly_increases(54, lacks as nat);
                assert(pow2(54) == 0x40_0000_0000_0000);
                lemma_basic_div(m as int, d as int);
                lemma_small_mod(m as nat, d);
                assert(nearest(m as nat, d) == 0);
            }
            0
        } else {
            let d: u128 = two_to(lacks);
            proof {
                lemma2_to64_rest();
                lemma_pow2_pos(lacks as nat);
                lemma_pow2_strictly_increases(lacks as nat, 127);
                assert(pow2(127) == 0x8000_0000_0000_0000_0000_0000_0000_0000) by {
                    lemma_pow2_adds(63, 64);
                    lemma2_to64();
                }
                assert(m as int / d as int <= m) by (nonlinear_arith)
                    requires
                        d >= 1,
                        m >= 0,
                ;
            }
            nearest_of(m as u128, d)
        };
        let e: u32 = lacks + k;
        let past: bool = if e >= 1202 {
            q > 0
        } else if 1202 - e > 100 {
            false
        } else {
            q >= two_to(1202 - e)
        };
        proof {
            let p = pow2(e as nat);
            lemma_pow2_pos(e as nat);
            if e >= 1202 {
                if e > 1202 {
                    lemma_pow2_strictly_increases(1202, e as nat);
                }
                lemma_pow2_pos(1202);
                assert((q * p >= pow2(1202)) == (q > 0)) by (nonlinear_arith)
                    requires
                        p >= pow2(1202) > 0,
                        q >= 0,
                ;
            } else {
                let t = pow2((1202 - e) as nat);
                lemma_pow2_adds(e as nat, (1202 - e) as nat);
                assert((q * p >= p * t) == (q >= t)) by (nonlinear_arith)
                    requires
                        p > 0,
                ;
                if 1202 - e > 100 {
                    lemma2_to64_rest();
                    lemma_pow2_strictly_increases(60, (1202 - e) as nat);
                    assert(q < pow2(60));
                }
            }
        }
        if past {
            Num::endless(neg)
        } else {
            round_scaled(neg, q, e as i32)
        }
    }

    pub fn rem_euclid(self, other: Num) -> (r: Num)
        ensures
            r == rem_euclid_of(self, other),
    {
        let r = self.rem(other);
        if r.lt(Num::nothing(false)) {
            r.plus(other.abs())
        } else {
            r
        }
    }

    /// `self < other`, as numbers.
    pub fn lt(self, other: Num) -> (r: bool)
        ensures
            r == less(self, other),
    {
        proof {
            reveal(less);
        }
        if self.is_nan() || other.is_nan() {
            return false;
        }
        let a: u64 = self.bits % SIGN;
        let b: u64 = other.bits % SIGN;
        if self.is_negative() {
            if other.is_negative() {
                b < a
            } else {
                a > 0 || b > 0
            }
        } else {
            !other.is_negative() && a < b
        }
    }

    /// `self == other`, as numbers.
    pub fn same(self, other: Num) -> (r: bool)
        ensures
            r == equal(self, other),
    {
        proof {
            reveal(equal);
        }
        if self.is_nan() || other.is_nan() {
            return false;
        }
        let a: u64 = self.bits % SIGN;
        let b: u64 = other.bits % SIGN;
        a == b && (a == 0 || self.is_negative() == other.is_negative())
    }

    /// `self <= other`, as numbers.
    pub fn le(self, other: Num) -> (r: bool)
        ensures
            r == at_most(self, other),
    {
        self.lt(other) || self.same(other)
    }

    /// The absolute value.
    pub fn abs(self) -> (r: Num)
        ensures
            r == abs_of(self),
    {
        proof {
            reveal(abs_of);
        }
        Num { bits: self.bits % SIGN }
    }

    /// The smaller one of two numbers.
    pub fn min(self, other: Num) -> (r: Num)
        ensures
            r == min_of(self, other),
    {
        if self.is_nan() || other.lt(self) {
            other
        } else {
            self
        }
    }

    /// The larger one of two numbers.
    pub fn max(self, other: Num) -> (r: Num)
        ensures
            r == max_of(self, other),
    {
        if self.is_nan() || self.lt(other) {
            other
        } else {
            self
        }
    }

    /// The number held within two bounds.
    pub fn clamp(self, lo: Num, hi: Num) -> (r: Num)
        ensures
            r == clamp_of(self, lo, hi),
    {
        if self.lt(lo) {
            lo
        } else if hi.lt(self) {
            hi
        } else {
            self
        }
    }

    /// The largest whole number at or below this one.
    pub fn floor(self) -> (r: Num)
        ensures
            r == floor_of(self),
    {
        proof {
            reveal(floor_of);
        }
        if self.is_nan() {
            return Num { bits: QUIET_NAN };
        }
        if self.is_infinite() {
            return self;
        }
        let (m, k) = self.parts();
        let ghost u = one_unit();
        proof {
            lemma_pow2_pos(1074);
        }
        if k >= 1074 {
            proof {
                let w = lemma_whole_above(m as nat, k as nat);
                lemma_exact(self);
                assert((self.size() + u - 1) as nat / u == w) by {
                    lemma_fundamental_div_mod_converse(
                        (self.size() + u - 1) as int,
                        u as int,
                        w as int,
                        u - 1,
                    );
                }
            }
            return self;
        }
        let s: u32 = 1074 - k;
        proof {
            lemma_pow2_adds(k as nat, s as nat);
            lemma_pow2_pos(k as nat);
            lemma_pow2_pos(s as nat);
        }
        let ghost p = pow2(k as nat);
        let ghost ps = pow2(s as nat);
        let w: u128 = self.whole_small(m, k);
        proof {
            let r = self.size() - w * u;
            assert(self.size() == w * u + r);
            lemma_fundamental_div_mod_converse(self.size() as int, u as int, w as int, r);
            if r == 0 {
                lemma_fundamental_div_mod_converse(
                    (self.size() + u - 1) as int,
                    u as int,
                    w as int,
                    u - 1,
                );
            } else {
                assert(self.size() + u - 1 == (w + 1) * u + (r - 1)) by (nonlinear_arith)
                    requires
                        self.size() == w * u + r,
                ;
                lemma_fundamental_div_mod_converse(
                    (self.size() + u - 1) as int,
                    u as int,
                    w + 1,
                    r - 1,
                );
            }
        }
        if self.is_negative() && !self.is_whole(m, k, w) {
            round_scaled(true, w + 1, 1074)
        } else {
            round_scaled(self.is_negative(), w, 1074)
        }
    }

    fn whole_small(self, m: u64, k: u32) -> (w: u128)
        requires
            self.finite(),
            m == self.mantissa(),
            k == self.step(),
            k < 1074,
        ensures
            w <= 2 * HIDDEN,
            0 <= self.size() - w * one_unit() < one_unit(),
            w == whole(self),
    {
        let s: u32 = 1074 - k;
        let ghost p = pow2(k as nat);
        let ghost u = one_unit();
        proof {
            lemma_parts(self);
            lemma_pow2_adds(k as nat, s as nat);
            lemma_pow2_pos(k as nat);
            lemma_pow2_pos(1074);
        }
        if s > 60 {
            proof {
                vstd::arithmetic::power2::lemma2_to64_rest();
                lemma_pow2_strictly_increases(60, s as nat);
                assert(m * p < u) by (nonlinear_arith)
                    requires
                        u == p * pow2(s as nat),
                        m < 0x20_0000_0000_0000,
                        pow2(s as nat) >= 0x1000_0000_0000_0000,
                        p > 0,
                ;
                assert(0 * u == 0) by (nonlinear_arith);
                vstd::arithmetic::div_mod::lemma_basic_div(self.size() as int, u as int);
            }
            0
        } else {
            let down: u128 = two_to(s);
            proof {
                lemma_pow2_pos(s as nat);
            }
            let w: u128 = m as u128 / down;
            proof {
                lemma_fundamental_div_mod(m as int, down as int);
                let r = m as int % down as int;
                assert(w <= m) by (nonlinear_arith)
                    requires
                        w == m as int / down as int,
                        down >= 1,
                        m >= 0,
                ;
                assert(self.size() == w * u + r * p && 0 <= r * p < u) by (nonlinear_arith)
                    requires
                        self.size() == m * p,
                        m == down * w + r,
                        u == p * down,
                        0 <= r < down,
                        p > 0,
                ;
                lemma_fundamental_div_mod_converse(self.size() as int, u as int, w as int, r * p);
            }
            w
        }
    }

    fn is_whole(self, m: u64, k: u32, w: u128) -> (r: bool)
        requires
            self.finite(),
            m == self.mantissa(),
            k == self.step(),
            k < 1074,
            0 <= self.size() - w * one_unit() < one_unit(),
            w <= 2 * HIDDEN,
        ensures
            r == (self.size() == w * one_unit()),
    {
        let s: u32 = 1074 - k;
        proof {
            lemma_parts(self);
            lemma_pow2_adds(k as nat, s as nat);
            lemma_pow2_pos(k as nat);
        }
        if s > 60 {
            proof {
                vstd::arithmetic::power2::lemma2_to64_rest();
                lemma_pow2_strictly_increases(60, s as nat);
                let p = pow2(k as nat);
                let u = one_unit();
                assert(m * p < u) by (nonlinear_arith)
                    requires
                        u == p * pow2(s as nat),
                        m < 0x20_0000_0000_0000,
                        pow2(s as nat) >= 0x1000_0000_0000_0000,
                        p > 0,
                ;
                assert(w == 0) by (nonlinear_arith)
                    requires
                        m * p >= w * u,
                        m * p < u,
                        w >= 0,
                ;
                assert(w * u == 0) by (nonlinear_arith)
                    requires
                        w == 0,
                ;
                assert((m * p == 0) == (m == 0)) by (nonlinear_arith)
                    requires
                        p > 0,
                ;
            }
            m == 0
        } else {
            let down: u128 = two_to(s);
            proof {
                let p = pow2(k as nat);
                let u = one_unit();
                lemma_pow2_strictly_increases(s as nat, 61);
                vstd::arithmetic::power2::lemma2_to64_rest();
                assert(w * down <= 0x20_0000_0000_0000 * 0x2000_0000_0000_0000)
                    by (nonlinear_arith)
                    requires
                        0 <= w <= 0x20_0000_0000_0000,
                        0 <= down <= 0x2000_0000_0000_0000,
                ;
                assert((m * p == w * u) == (m == w * down)) by (nonlinear_arith)
                    requires
                        u == p * down,
                        p > 0,
                ;
            }
            m as u128 == w * down
        }
    }

    /// The smallest whole number at or above this one.
    pub fn ceil(self) -> (r: Num)
        ensures
            r == ceil_of(self),
    {
        self.neg().floor().neg()
    }

    /// The whole part.
    pub fn trunc(self) -> (r: Num)
        ensures
            r == trunc_of(self),
    {
        if self.is_negative() {
            self.neg().floor().neg()
        } else {
            self.floor()
        }
    }

    /// What is left of the number beside its whole part.
    pub fn fract(self) -> (r: Num)
        ensures
            r == sum_of(self, opposite_of(trunc_of(self))),
    {
        self.minus(self.trunc())
    }

    /// The nearest whole number, halves away from zero.
    pub fn round(self) -> (r: Num)
        ensures
            r == round_of(self),
    {
        proof {
            reveal(round_of);
        }
        if self.is_nan() {
            return Num { bits: QUIET_NAN };
        }
        if self.is_infinite() {
            return self;
        }
        let (m, k) = self.parts();
        let ghost u = one_unit();
        proof {
            lemma_pow2_pos(1074);
        }
        if k >= 1074 {
            proof {
                let w = lemma_whole_above(m as nat, k as nat);
                lemma_exact(self);
                assert(2 * self.size() + u == w * (2 * u) + u) by (nonlinear_arith)
                    requires
                        self.size() == w * u,
                ;
                lemma_fundamental_div_mod_converse(
                    (2 * self.size() + u) as int,
                    (2 * u) as int,
                    w as int,
                    u as int,
                );
            }
            return self;
        }
        let w: u128 = self.whole_small(m, k);
        let up: bool = self.past_half(m, k, w);
        proof {
            let r = self.size() - w * u;
            let w2 = if up { w + 1 } else { w as int };
            let r2 = if up { 2 * r - u } else { 2 * r + u };
            assert(2 * self.size() + u == w2 * (2 * u) + r2) by (nonlinear_arith)
                requires
                    self.size() == w * u + r,
                    (w2 == w && r2 == 2 * r + u) || (w2 == w + 1 && r2 == 2 * r - u),
            ;
            lemma_fundamental_div_mod_converse(
                (2 * self.size() + u) as int,
                (2 * u) as int,
                w2,
                r2,
            );
        }
        if up {
            round_scaled(self.is_negative(), w + 1, 1074)
        } else {
            round_scaled(self.is_negative(), w, 1074)
        }
    }

    fn past_half(self, m: u64, k: u32, w: u128) -> (r: bool)
        requires
            self.finite(),
            m == self.mantissa(),
            k == self.step(),
            k < 1074,
            0 <= self.size() - w * one_unit() < one_unit(),
            w <= 2 * HIDDEN,
        ensures
            r == (2 * (self.size() - w * one_unit()) >= one_unit()),
    {
        let s: u32 = 1074 - k;
        proof {
            lemma_parts(self);
            lemma_pow2_adds(k as nat, s as nat);
            lemma_pow2_pos(k as nat);
        }
        let ghost p = pow2(k as nat);
        let ghost u = one_unit();
        if s > 60 {
            proof {
                vstd::arithmetic::power2::lemma2_to64_rest();
                lemma_pow2_strictly_increases(60, s as nat);
                assert(2 * (m * p) < u) by (nonlinear_arith)
                    requires
                        u == p * pow2(s as nat),
                        m < 0x20_0000_0000_0000,
                        pow2(s as nat) >= 0x1000_0000_0000_0000,
                        p > 0,
                ;
                assert(w * u >= 0) by (nonlinear_arith)
                    requires
                        w >= 0,
                        u >= 0,
                ;
            }
            false
        } else {
            let down: u128 = two_to(s);
            proof {
                lemma_pow2_strictly_increases(s as nat, 61);
                vstd::arithmetic::power2::lemma2_to64_rest();
                assert(0 <= w * down <= 0x20_0000_0000_0000 * 0x2000_0000_0000_0000)
                    by (nonlinear_arith)
                    requires
                        0 <= w <= 0x20_0000_0000_0000,
                        0 <= down <= 0x2000_0000_0000_0000,
                ;
                assert(self.size() - w * u == (m - w * down) * p) by (nonlinear_arith)
                    requires
                        self.size() == m * p,
                        u == p * down,
                ;
                assert(m >= w * down) by (nonlinear_arith)
                    requires
                        (m - w * down) * p >= 0,
                        p > 0,
                ;
                assert((2 * ((m - w * down) * p) >= p * down) == (2 * (m - w * down) >= down))
                    by (nonlinear_arith)
                    requires
                        p > 0,
                ;
            }
            2 * (m as u128 - w * down) >= down
        }
    }

    /// The whole part of the absolute value, held at two to the power 64.
    fn whole_capped(self) -> (r: u128)
        requires
            self.finite(),
        ensures
            whole(self) <= 0xFFFF_FFFF_FFFF_FFFF ==> r == whole(self),
            whole(self) > 0xFFFF_FFFF_FFFF_FFFF ==> r == 0x1_0000_0000_0000_0000,
    {
        let (m, k) = self.parts();
        proof {
            lemma_parts(self);
        }
        if k < 1074 {
            return self.whole_small(m, k);
        }
        let s: u32 = k - 1074;
        let ghost u = one_unit();
        proof {
            lemma_pow2_pos(1074);
            lemma_pow2_pos(s as nat);
            let w = lemma_whole_above(m as nat, k as nat);
            lemma_fundamental_div_mod_converse(self.size() as int, u as int, w as int, 0);
            assert(w == m * pow2(s as nat));
        }
        if s >= 12 {
            proof {
                vstd::arithmetic::power2::lemma2_to64();
                if s > 12 {
                    lemma_pow2_strictly_increases(12, s as nat);
                }
                assert(m * pow2(s as nat) > 0xFFFF_FFFF_FFFF_FFFF) by (nonlinear_arith)
                    requires
                        m >= 0x10_0000_0000_0000,
                        pow2(s as nat) >= 0x1000,
                ;
            }
            0x1_0000_0000_0000_0000
        } else {
            let up: u128 = two_to(s);
            proof {
                vstd::arithmetic::power2::lemma2_to64();
                lemma_pow2_strictly_increases(s as nat, 12);
                assert(m * up < 0x20_0000_0000_0000 * 0x1000) by (nonlinear_arith)
                    requires
                        m < 0x20_0000_0000_0000,
                        0 < up <= 0x1000,
                ;
            }
            let w: u128 = m as u128 * up;
            if w > 0xFFFF_FFFF_FFFF_FFFF {
                0x1_0000_0000_0000_0000
            } else {
                w
            }
        }
    }

    /// Truncated to a `u64`, held within its range.
    pub fn to_u64(self) -> (r: u64)
        ensures
            r == to_u64_of(self),
    {
        proof {
            reveal(to_u64_of);
        }
        if self.is_nan() || self.is_negative() {
            0
        } else if self.is_infinite() {
            u64::MAX
        } else {
            let w: u128 = self.whole_capped();
            if w > 0xFFFF_FFFF_FFFF_FFFF {
                u64::MAX
            } else {
                w as u64
            }
        }
    }

    /// Truncated to a byte, held within its range.
    pub fn to_u8(self) -> (r: u8)
        ensures
            r == to_byte_of(self),
    {
        let n: u64 = self.to_u64();
        if n > 255 {
            255
        } else {
            n as u8
        }
    }

    /// Truncated to an `i64`, held within its range.
    pub fn to_i64(self) -> (r: i64)
        ensures
            r == to_i64_of(self),
    {
        proof {
            reveal(to_i64_of);
        }
        if self.is_nan() {
            return 0;
        }
        if self.is_infinite() {
            return if self.is_negative() {
                i64::MIN
            } else {
                i64::MAX
            };
        }
        let w: u128 = self.whole_capped();
        if self.is_negative() {
            if w > 0x7FFF_FFFF_FFFF_FFFF {
                i64::MIN
            } else {
                -(w as i64)
            }
        } else if w > 0x7FFF_FFFF_FFFF_FFFF {
            i64::MAX
        } else {
            w as i64
        }
    }

    /// The double nearest to a whole number.
    pub fn from_u64(n: u64) -> (r: Num)
        ensures
            r == from_int(n as int),
    {
        proof {
            reveal(from_int);
        }
        round_scaled(false, n as u128, 1074)
    }

    /// The double nearest to a whole number of up to 100 bits.
    pub fn from_wide(n: i128) -> (r: Num)
        requires
            -0x10_0000_0000_0000_0000_0000_0000 < n < 0x10_0000_0000_0000_0000_0000_0000,
        ensures
            r == from_int(n as int),
    {
        proof {
            reveal(from_int);
        }
        let abs: u128 = if n < 0 {
            (-n) as u128
        } else {
            n as u128
        };
        round_scaled(n < 0, abs, 1074)
    }

    /// The double nearest to a whole number.
    pub fn from_i64(n: i64) -> (r: Num)
        ensures
            r == from_int(n as int),
    {
        proof {
            reveal(from_int);
        }
        let abs: u128 = if n < 0 {
            (-(n as i128)) as u128
        } else {
            n as u128
        };
        round_scaled(n < 0, abs, 1074)
    }
}

/// At and above the step of one, every double is whole.
proof fn lemma_whole_above(m: nat, k: nat) -> (w: nat)
    requires
        k >= 1074,
    ensures
        w == m * pow2((k - 1074) as nat),
        m * pow2(k) == w * one_unit(),
        (m * pow2(k)) / one_unit() == w,
{
    lemma_pow2_pos(1074);
    lemma_pow2_adds((k - 1074) as nat, 1074);
    let w = m * pow2((k - 1074) as nat);
    assert(m * pow2(k) == w * one_unit()) by (nonlinear_arith)
        requires
            w == m * pow2((k - 1074) as nat),
            pow2(k) == pow2((k - 1074) as nat) * one_unit(),
    ;
    lemma_fundamental_div_mod_converse((m * pow2(k)) as int, one_unit() as int, w as int, 0);
    w
}

} // verus!
