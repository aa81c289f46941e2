//! Doubles as decimal text, and decimal numbers as doubles.

use crate::big::{divide, magnitude_big, nearest_big, Big};
use crate::num::{magnitude, nearest, one_unit, rounded, Num, HIDDEN, INFINITE, SIGN};
use crate::text::{decimal, digit, digit_of};
use vstd::arithmetic::power2::{lemma_pow2_unfold, pow2};
use vstd::prelude::*;

verus! {

/// Ten to the power `n`.
pub open spec fn pow10(n: nat) -> nat
    decreases n,
{
    if n == 0 {
        1
    } else {
        10 * pow10((n - 1) as nat)
    }
}

proof fn lemma_pow10_pos(n: nat)
    ensures
        pow10(n) > 0,
    decreases n,
{
    if n > 0 {
        lemma_pow10_pos((n - 1) as nat);
    }
}

pub(crate) proof fn lemma_pow10_adds(a: nat, b: nat)
    ensures
        pow10(a + b) == pow10(a) * pow10(b),
    decreases b,
{
    if b == 0 {
        assert(pow10(a) * 1 == pow10(a));
    } else {
        lemma_pow10_adds(a, (b - 1) as nat);
        let p = pow10((b - 1) as nat);
        assert(10 * (pow10(a) * p) == pow10(a) * (10 * p)) by (nonlinear_arith);
    }
}

/// The last `width` decimal digits of `n`.
pub open spec fn padded(n: nat, width: nat) -> Seq<char>
    decreases width,
{
    if width == 0 {
        Seq::empty()
    } else {
        padded(n / 10, (width - 1) as nat).push(digit(n % 10))
    }
}

/// `d` over ten to the power `places`, with that many digits behind the point.
pub open spec fn fixed_text(d: nat, places: nat) -> Seq<char> {
    if places == 0 {
        decimal(d)
    } else {
        decimal(d / pow10(places)).push('.') + padded(d % pow10(places), places)
    }
}

/// `d` with `n` zeros behind it.
pub open spec fn zeros(n: nat) -> Seq<char> {
    Seq::new(n, |i: int| '0')
}

/// What decimal exponents are counted from, so that they are never negative: no double needs
/// more places behind the point before its first digit.
pub const BASE: u32 = 330;

/// Where the digits of `s` units end before the point, counted from [`BASE`].
pub open spec fn reach(s: nat, t: nat) -> nat
    decreases 700 - t,
{
    if t >= 700 || s * pow10(BASE as nat) < one_unit() * pow10(t) {
        t
    } else {
        reach(s, t + 1)
    }
}

/// The magnitude bits that the decimal `c` with `n` digits is read as.
pub open spec fn read_back(c: nat, t: nat, n: nat) -> nat {
    magnitude(c * (one_unit() * pow10(t)), pow10(BASE as nat + n))
}

/// The first `n` digits of `s` units, rounded down or up to a decimal that is read back as
/// the magnitude `m`; the nearer one of two.
pub open spec fn digits_at(s: nat, m: nat, t: nat, n: nat) -> Option<nat> {
    let a = s * pow10(BASE as nat + n);
    let b = one_unit() * pow10(t);
    let low = a / b;
    let low_fits = read_back(low, t, n) == m;
    let high_fits = read_back(low + 1, t, n) == m;
    if high_fits && (!low_fits || 2 * (a % b) >= b) {
        Some(low + 1)
    } else if low_fits {
        Some(low)
    } else {
        None
    }
}

/// The fewest digits, from `n` on, that tell the number from every other double; 17 always
/// do. The digits, and how many were taken.
pub open spec fn shortest(s: nat, m: nat, t: nat, n: nat) -> (nat, nat)
    decreases 17 - n,
{
    match digits_at(s, m, t, n) {
        Some(d) => (d, n),
        None => if n >= 17 {
            ((s * pow10(BASE as nat + n)) / (one_unit() * pow10(t)), n)
        } else {
            shortest(s, m, t, n + 1)
        },
    }
}

/// The shortest decimal of `s` units, whose magnitude bits are `m`.
pub open spec fn shortest_text(s: nat, m: nat) -> Seq<char> {
    let t = reach(s, 0);
    let (d, n) = shortest(s, m, t, 1);
    if t >= BASE + n {
        decimal(d) + zeros((t - BASE - n) as nat)
    } else {
        fixed_text(d, (BASE + n - t) as nat)
    }
}

pub open spec fn sign_text(neg: bool) -> Seq<char> {
    if neg {
        seq!['-']
    } else {
        Seq::empty()
    }
}

/// A double in its shortest decimal form, never with an exponent.
#[verifier::opaque]
pub open spec fn display_text(x: Num) -> Seq<char> {
    if x.nan() {
        seq!['N', 'a', 'N']
    } else if x.infinite() {
        sign_text(x.negative()) + seq!['i', 'n', 'f']
    } else if x.zero() {
        sign_text(x.negative()) + seq!['0']
    } else {
        sign_text(x.negative()) + shortest_text(x.size(), x.magnitude_bits() as nat)
    }
}

/// A double with `places` digits behind the point, exactly rounded, ties to even.
#[verifier::opaque]
pub open spec fn places_text(x: Num, places: nat) -> Seq<char> {
    if x.nan() {
        seq!['N', 'a', 'N']
    } else if x.infinite() {
        sign_text(x.negative()) + seq!['i', 'n', 'f']
    } else {
        sign_text(x.negative()) + fixed_text(
            nearest(x.size() * pow10(places), one_unit()),
            places,
        )
    }
}

/// The double nearest to `d` times ten to the power `e`.
#[verifier::opaque]
pub open spec fn read_decimal(neg: bool, d: nat, e: int) -> Num {
    if e >= 0 {
        rounded(neg, d * pow10(e as nat) * one_unit(), 1)
    } else {
        rounded(neg, d * one_unit(), pow10((-e) as nat))
    }
}

fn raise_two(n: &mut Big, k: u32)
    ensures
        final(n)@ == old(n)@ * pow2(k as nat),
{
    let ghost was = n@;
    let mut done: u32 = 0;
    assert(pow2(0) == 1) by {
        vstd::arithmetic::power2::lemma2_to64();
    }
    assert(was * pow2(0) == was) by (nonlinear_arith)
        requires
            pow2(0) == 1,
    ;
    while done < k
        invariant
            done <= k,
            n@ == was * pow2(done as nat),
        decreases k - done,
    {
        n.scale(2, 0);
        proof {
            lemma_pow2_unfold((done + 1) as nat);
            let p = pow2(done as nat);
            assert((was * p) * 2 == was * (2 * p)) by (nonlinear_arith);
        }
        done = done + 1;
    }
}

fn raise_ten(n: &mut Big, k: u128)
    ensures
        final(n)@ == old(n)@ * pow10(k as nat),
{
    let ghost was = n@;
    let mut done: u128 = 0;
    assert(was * pow10(0) == was) by (nonlinear_arith)
        requires
            pow10(0) == 1,
    ;
    while done < k
        invariant
            done <= k,
            n@ == was * pow10(done as nat),
        decreases k - done,
    {
        n.scale(10, 0);
        proof {
            let p = pow10(done as nat);
            assert((was * p) * 10 == was * (10 * p)) by (nonlinear_arith);
            assert(pow10((done + 1) as nat) == 10 * p);
        }
        done = done + 1;
    }
}

fn big_size(x: Num) -> (r: Big)
    requires
        x.finite(),
    ensures
        r@ == x.size(),
{
    let b: u64 = x.bits % SIGN;
    let e: u64 = b / HIDDEN;
    let f: u64 = b % HIDDEN;
    let (m, k): (u64, u32) = if e == 0 {
        (f, 0)
    } else {
        (f + HIDDEN, (e - 1) as u32)
    };
    let mut r = Big::from_u64(m);
    raise_two(&mut r, k);
    r
}

/// The decimal digits of a number.
fn push_decimal(out: &mut String, n: &Big)
    ensures
        final(out)@ == old(out)@ + decimal(n@),
    decreases n@,
{
    let (q, r) = n.divide_small(10);
    let ghost was = out@;
    proof {
        vstd::arithmetic::div_mod::lemma_fundamental_div_mod_converse(
            n@ as int,
            10,
            q@ as int,
            r as int,
        );
    }
    if !q.is_zero() {
        push_decimal(out, &q);
        out.push(digit_of(r as u8));
        assert(out@ =~= was + decimal(n@));
    } else {
        out.push(digit_of(r as u8));
        assert(out@ =~= was + decimal(n@));
    }
}

/// The last digits of a number, and what is above them.
fn push_padded(out: &mut String, n: &Big, width: u32)
    ensures
        final(out)@ == old(out)@ + padded(n@, width as nat),
    decreases width,
{
    let ghost was = out@;
    if width == 0 {
        assert(out@ =~= was + padded(n@, 0));
        return;
    }
    let (q, r) = n.divide_small(10);
    proof {
        vstd::arithmetic::div_mod::lemma_fundamental_div_mod_converse(
            n@ as int,
            10,
            q@ as int,
            r as int,
        );
    }
    push_padded(out, &q, width - 1);
    out.push(digit_of(r as u8));
    assert(out@ =~= was + padded(n@, width as nat));
}

fn push_fixed(out: &mut String, d: Big, places: u32)
    ensures
        final(out)@ == old(out)@ + fixed_text(d@, places as nat),
{
    let ghost was = out@;
    if places == 0 {
        push_decimal(out, &d);
        return;
    }
    let mut unit = Big::from_u64(1);
    raise_ten(&mut unit, places as u128);
    let ghost all = d@;
    proof {
        lemma_pow10_pos(places as nat);
        assert(1 * pow10(places as nat) == pow10(places as nat));
    }
    let (q, r) = divide(d, &unit);
    proof {
        vstd::arithmetic::div_mod::lemma_fundamental_div_mod_converse(
            all as int,
            pow10(places as nat) as int,
            q@ as int,
            r@ as int,
        );
    }
    push_decimal(out, &q);
    out.push('.');
    push_padded(out, &r, places);
    assert(out@ =~= was + fixed_text(all, places as nat));
}

fn push_zeros(out: &mut String, n: u32)
    ensures
        final(out)@ == old(out)@ + zeros(n as nat),
{
    let ghost was = out@;
    let mut i: u32 = 0;
    assert(out@ =~= was + zeros(0));
    while i < n
        invariant
            i <= n,
            out@ == was + zeros(i as nat),
        decreases n - i,
    {
        out.push('0');
        i = i + 1;
        assert(out@ =~= was + zeros(i as nat));
    }
}

fn push_sign(out: &mut String, neg: bool)
    ensures
        final(out)@ == old(out)@ + sign_text(neg),
{
    let ghost was = out@;
    if neg {
        out.push('-');
    }
    assert(out@ =~= was + sign_text(neg));
}

/// The magnitude that a candidate is read as.
fn reads_as(c: &Big, unit: &Big, t: u32, n: u32, m: u64) -> (r: bool)
    requires
        unit@ == one_unit() * pow10(t as nat),
        m < INFINITE,
        n <= 17,
    ensures
        r == (read_back(c@, t as nat, n as nat) == m),
{
    let mut num = c.copy();
    raise_ten(&mut num, t as u128);
    raise_two(&mut num, 1074);
    proof {
        let p = pow10(t as nat);
        assert((c@ * p) * pow2(1074) == c@ * (one_unit() * p)) by (nonlinear_arith)
            requires
                one_unit() == pow2(1074),
        ;
        lemma_pow10_pos((BASE + n) as nat);
    }
    let mut den = Big::from_u64(1);
    raise_ten(&mut den, (BASE + n) as u128);
    assert(1 * pow10((BASE + n) as nat) == pow10((BASE + n) as nat));
    magnitude_big(num, &den) == m
}

fn digits_of(size: &Big, m: u64, unit: &Big, t: u32, n: u32) -> (r: (Big, bool))
    requires
        unit@ == one_unit() * pow10(t as nat),
        m < INFINITE,
        n <= 17,
    ensures
        match digits_at(size@, m as nat, t as nat, n as nat) {
            Some(d) => r.1 && r.0@ == d,
            None => !r.1 && r.0@ == (size@ * pow10((BASE + n) as nat)) / (one_unit() * pow10(
                t as nat,
            )),
        },
{
    let mut a = size.copy();
    raise_ten(&mut a, (BASE + n) as u128);
    let ghost whole = a@;
    proof {
        lemma_pow10_pos(t as nat);
        vstd::arithmetic::power2::lemma_pow2_pos(1074);
        assert(one_unit() * pow10(t as nat) > 0) by (nonlinear_arith)
            requires
                one_unit() > 0,
                pow10(t as nat) > 0,
        ;
    }
    let (low, mut rest) = divide(a, unit);
    proof {
        vstd::arithmetic::div_mod::lemma_fundamental_div_mod_converse(
            whole as int,
            unit@ as int,
            low@ as int,
            rest@ as int,
        );
    }
    let low_fits = reads_as(&low, unit, t, n, m);
    let mut high = low.copy();
    high.scale(1, 1);
    let high_fits = reads_as(&high, unit, t, n, m);
    rest.scale(2, 0);
    if high_fits && (!low_fits || !rest.less(unit)) {
        (high, true)
    } else {
        (low, low_fits)
    }
}

fn push_shortest(out: &mut String, size: Big, m: u64)
    requires
        m < INFINITE,
    ensures
        final(out)@ == old(out)@ + shortest_text(size@, m as nat),
{
    let ghost was = out@;
    let mut all = size.copy();
    raise_ten(&mut all, BASE as u128);
    let mut unit = Big::from_u64(1);
    raise_two(&mut unit, 1074);
    let mut t: u32 = 0;
    proof {
        assert(1 * pow2(1074) == one_unit());
        assert(one_unit() * pow10(0) == one_unit()) by (nonlinear_arith)
            requires
                pow10(0) == 1,
        ;
    }
    while t < 700 && !all.less(&unit)
        invariant
            t <= 700,
            all@ == size@ * pow10(BASE as nat),
            unit@ == one_unit() * pow10(t as nat),
            reach(size@, 0) == reach(size@, t as nat),
        decreases 700 - t,
    {
        unit.scale(10, 0);
        proof {
            let p = pow10(t as nat);
            assert((one_unit() * p) * 10 == one_unit() * (10 * p)) by (nonlinear_arith);
            assert(pow10((t + 1) as nat) == 10 * p);
        }
        t = t + 1;
    }
    let ghost goal = shortest(size@, m as nat, t as nat, 1);
    let mut n: u32 = 1;
    let (mut d, mut found) = digits_of(&size, m, &unit, t, n);
    while !found && n < 17
        invariant
            1 <= n <= 17,
            m < INFINITE,
            unit@ == one_unit() * pow10(t as nat),
            goal == shortest(size@, m as nat, t as nat, n as nat),
            match digits_at(size@, m as nat, t as nat, n as nat) {
                Some(x) => found && d@ == x,
                None => !found && d@ == (size@ * pow10((BASE + n) as nat)) / (one_unit() * pow10(
                    t as nat,
                )),
            },
        decreases 17 - n,
    {
        n = n + 1;
        let (next, ok) = digits_of(&size, m, &unit, t, n);
        d = next;
        found = ok;
    }
    assert(goal == (d@, n as nat));
    if t >= BASE + n {
        push_decimal(out, &d);
        push_zeros(out, t - BASE - n);
        assert(out@ =~= was + shortest_text(size@, m as nat));
    } else {
        push_fixed(out, d, BASE + n - t);
    }
}

fn push_nan(out: &mut String)
    ensures
        final(out)@ == old(out)@ + seq!['N', 'a', 'N'],
{
    let ghost was = out@;
    out.push('N');
    out.push('a');
    out.push('N');
    assert(out@ =~= was + seq!['N', 'a', 'N']);
}

fn push_inf(out: &mut String)
    ensures
        final(out)@ == old(out)@ + seq!['i', 'n', 'f'],
{
    let ghost was = out@;
    out.push('i');
    out.push('n');
    out.push('f');
    assert(out@ =~= was + seq!['i', 'n', 'f']);
}

/// A double in its shortest decimal form.
pub fn display(x: Num) -> (r: String)
    ensures
        r@ == display_text(x),
{
    proof {
        reveal(display_text);
    }
    let mut out = String::new();
    if x.is_nan() {
        push_nan(&mut out);
        assert(out@ =~= seq!['N', 'a', 'N']);
        return out;
    }
    push_sign(&mut out, x.is_negative());
    if x.is_infinite() {
        push_inf(&mut out);
    } else if x.is_zero() {
        out.push('0');
    } else {
        push_shortest(&mut out, big_size(x), x.bits % SIGN);
    }
    assert(out@ =~= display_text(x));
    out
}

/// A double with a fixed number of digits behind the point.
pub fn display_places(x: Num, places: u32) -> (r: String)
    ensures
        r@ == places_text(x, places as nat),
{
    proof {
        reveal(places_text);
    }
    let mut out = String::new();
    if x.is_nan() {
        push_nan(&mut out);
        assert(out@ =~= seq!['N', 'a', 'N']);
        return out;
    }
    push_sign(&mut out, x.is_negative());
    if x.is_infinite() {
        push_inf(&mut out);
    } else {
        let mut n = big_size(x);
        raise_ten(&mut n, places as u128);
        let mut unit = Big::from_u64(1);
        raise_two(&mut unit, 1074);
        proof {
            assert(1 * pow2(1074) == one_unit());
            vstd::arithmetic::power2::lemma_pow2_pos(1074);
        }
        let d = nearest_big(n, &unit);
        push_fixed(&mut out, d, places);
    }
    assert(out@ =~= places_text(x, places as nat));
    out
}

/// The double nearest to `d` times ten to the power `e`.
pub fn from_decimal(neg: bool, d: &Big, e: i128) -> (r: Num)
    requires
        -0x1000_0000_0000_0000_0000 <= e <= 0x1000_0000_0000_0000_0000,
    ensures
        r == read_decimal(neg, d@, e as int),
{
    proof {
        reveal(read_decimal);
        reveal(rounded);
    }
    let mut num = d.copy();
    let mut den = Big::from_u64(1);
    if e >= 0 {
        raise_ten(&mut num, e as u128);
        raise_two(&mut num, 1074);
    } else {
        raise_two(&mut num, 1074);
        raise_ten(&mut den, (-e) as u128);
        proof {
            lemma_pow10_pos((-e) as nat);
            assert(1 * pow10((-e) as nat) == pow10((-e) as nat));
        }
    }
    let m: u64 = magnitude_big(num, &den);
    if neg {
        Num { bits: m + SIGN }
    } else {
        Num { bits: m }
    }
}

proof fn lemma_pow10_large(n: nat)
    ensures
        pow10(n) >= pow2(3 * n),
    decreases n,
{
    if n == 0 {
        vstd::arithmetic::power2::lemma2_to64();
    } else {
        lemma_pow10_large((n - 1) as nat);
        vstd::arithmetic::power2::lemma_pow2_adds(3, (3 * (n - 1)) as nat);
        vstd::arithmetic::power2::lemma2_to64();
        assert(3 + 3 * (n - 1) == 3 * n);
    }
}

proof fn lemma_pow10_grows(a: nat, b: nat)
    requires
        a <= b,
    ensures
        pow10(a) <= pow10(b),
    decreases b,
{
    if a < b {
        lemma_pow10_grows(a, (b - 1) as nat);
    }
}

proof fn lemma_magnitude_large(n: nat, d: nat, j: nat)
    requires
        d > 0,
        n >= d * 2 * HIDDEN * pow2(j),
    ensures
        magnitude(n, d) >= (j + 1) * HIDDEN,
    decreases j,
{
    vstd::arithmetic::power2::lemma_pow2_pos(j);
    assert(n >= d * 2 * HIDDEN) by (nonlinear_arith)
        requires
            n >= d * 2 * HIDDEN * pow2(j),
            pow2(j) >= 1,
    ;
    if j > 0 {
        lemma_pow2_unfold(j);
        let p = pow2((j - 1) as nat);
        assert(n >= (2 * d) * 2 * HIDDEN * p) by (nonlinear_arith)
            requires
                n >= d * 2 * HIDDEN * pow2(j),
                pow2(j) == 2 * p,
        ;
        lemma_magnitude_large(n, 2 * d, (j - 1) as nat);
    }
}

/// Past the largest double a decimal is infinite.
proof fn lemma_decimal_large(neg: bool, d: nat, e: int)
    requires
        d >= 1,
        e >= 400,
    ensures
        read_decimal(neg, d, e) == crate::num::infinity(neg),
{
    reveal(read_decimal);
    reveal(rounded);
    let p = pow10(e as nat);
    lemma_pow10_large(400);
    lemma_pow10_grows(400, e as nat);
    vstd::arithmetic::power2::lemma_pow2_strictly_increases(1200, 1074 + 1200);
    vstd::arithmetic::power2::lemma_pow2_adds(1200, 1074);
    vstd::arithmetic::power2::lemma_pow2_adds(53, 2046);
    vstd::arithmetic::power2::lemma2_to64_rest();
    vstd::arithmetic::power2::lemma_pow2_strictly_increases(2099, 2274);
    let n = d * p * one_unit();
    assert(n >= pow2(1200) * one_unit()) by (nonlinear_arith)
        requires
            n == d * p * one_unit(),
            d >= 1,
            p >= pow2(1200),
    ;
    assert(1 * 2 * HIDDEN * pow2(2046) == pow2(2099)) by (nonlinear_arith)
        requires
            pow2(2099) == pow2(53) * pow2(2046),
            pow2(53) == 2 * HIDDEN,
    ;
    lemma_magnitude_large(n, 1, 2046);
}

/// Far below the smallest double a decimal is zero.
proof fn lemma_decimal_small(neg: bool, d: nat, n: nat, e: int)
    requires
        d < pow10(n),
        e <= -(n + 400),
    ensures
        read_decimal(neg, d, e) == crate::num::signed_zero(neg),
{
    reveal(read_decimal);
    reveal(rounded);
    let q = pow10((-e) as nat);
    lemma_pow10_adds(n, 400);
    lemma_pow10_large(400);
    lemma_pow10_grows(n + 400, (-e) as nat);
    vstd::arithmetic::power2::lemma_pow2_strictly_increases(1075, 1200);
    lemma_pow2_unfold(1075);
    let m = d * one_unit();
    assert(2 * m < q) by (nonlinear_arith)
        requires
            m == d * one_unit(),
            q >= pow10(n) * pow10(400),
            pow10(400) > 2 * one_unit(),
            d < pow10(n),
            one_unit() > 0 || one_unit() == 0,
    ;
    assert(m < q * 2 * HIDDEN) by (nonlinear_arith)
        requires
            2 * m < q,
            m >= 0,
            HIDDEN >= 1,
    ;
    vstd::arithmetic::div_mod::lemma_basic_div(m as int, q as int);
    vstd::arithmetic::div_mod::lemma_small_mod(m, q);
}

proof fn lemma_decimal_zero(neg: bool, e: int)
    ensures
        read_decimal(neg, 0, e) == crate::num::signed_zero(neg),
{
    reveal(read_decimal);
    reveal(rounded);
    let p = pow10((if e >= 0 { e } else { -e }) as nat);
    lemma_pow10_pos((if e >= 0 { e } else { -e }) as nat);
    assert(0 * p * one_unit() == 0) by (nonlinear_arith);
    assert(0 * one_unit() == 0) by (nonlinear_arith);
    let den = if e >= 0 {
        1
    } else {
        p
    };
    assert(0 < den * 2 * HIDDEN) by (nonlinear_arith)
        requires
            den > 0,
            HIDDEN >= 1,
    ;
    vstd::arithmetic::div_mod::lemma_basic_div(0, den as int);
    vstd::arithmetic::div_mod::lemma_small_mod(0, den);
}

/// The double nearest to `d`, a number of at most `digits` digits, times ten to the power
/// `e`.
pub fn from_digits(neg: bool, d: &Big, digits: u64, e: i128) -> (r: Num)
    requires
        d@ < pow10(digits as nat),
        -0x4000_0000_0000_0000_0000_0000_0000 <= e <= 0x4000_0000_0000_0000_0000_0000_0000,
    ensures
        r == read_decimal(neg, d@, e as int),
{
    if d.is_zero() {
        proof {
            lemma_decimal_zero(neg, e as int);
        }
        return if neg {
            Num { bits: SIGN }
        } else {
            Num { bits: 0 }
        };
    }
    if e >= 400 {
        proof {
            lemma_decimal_large(neg, d@, e as int);
        }
        return if neg {
            Num { bits: INFINITE + SIGN }
        } else {
            Num { bits: INFINITE }
        };
    }
    if e <= -(digits as i128 + 400) {
        proof {
            lemma_decimal_small(neg, d@, digits as nat, e as int);
        }
        return if neg {
            Num { bits: SIGN }
        } else {
            Num { bits: 0 }
        };
    }
    from_decimal(neg, d, e)
}

/// Exponents that are both far out read as the same number.
pub(crate) proof fn lemma_decimal_same(neg: bool, d: nat, n: nat, e1: int, e2: int)
    requires
        d < pow10(n),
        (e1 >= 400 && e2 >= 400) || (e1 <= -(n + 400) && e2 <= -(n + 400)),
    ensures
        read_decimal(neg, d, e1) == read_decimal(neg, d, e2),
{
    if d == 0 {
        lemma_decimal_zero(neg, e1);
        lemma_decimal_zero(neg, e2);
    } else if e1 >= 400 {
        lemma_decimal_large(neg, d, e1);
        lemma_decimal_large(neg, d, e2);
    } else {
        lemma_decimal_small(neg, d, n, e1);
        lemma_decimal_small(neg, d, n, e2);
    }
}

} // verus!
