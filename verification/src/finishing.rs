//! What the last steps before the screen do to a color, and how a text's ink is centred.

use crate::arith::lemma_zero_rounds;
use crate::curves::lemma_top;
use crate::draw::styled_as;
use crate::exact::{
    is_at, is_whole, lemma_compare, lemma_difference_at, lemma_finer, lemma_from_int_at,
    lemma_product_at, lemma_quotient_at, lemma_same_size, lemma_small_whole,
};
use crate::frame::faded;
use crate::lamp::TOP;
use crate::names::lookup;
use crate::num::{
    clamp_of, from_int, lemma_size_zero, num, one_unit, opposite_of, product_of, quotient_of,
    round_of, sum_of, to_byte_of, to_u64_of, whole, Num, HIDDEN,
};
use crate::order::lemma_rounded_within;
use crate::output::OutputColor;
use crate::placing::at_fine;
use crate::rows::lemma_fine_whole;
use crate::state::State;
use crate::waves::{ONE, TWO};
use vstd::arithmetic::div_mod::{lemma_fundamental_div_mod, lemma_fundamental_div_mod_converse};
use vstd::arithmetic::power2::{lemma2_to64, lemma_pow2_adds, lemma_pow2_pos, pow2};
use vstd::prelude::*;

verus! {

/// What is rounded is off by half at most; a byte is what it was rounded to.
proof fn lemma_round_error(z: Num) -> (r: int)
    requires
        z.finite(),
        0 <= z.units() <= 255 * one_unit(),
    ensures
        0 <= r <= 255,
        -one_unit() <= 2 * (r * one_unit() - z.units()) <= one_unit(),
        is_whole(round_of(z), r),
        to_byte_of(round_of(z)) == r,
{
    reveal(round_of);
    reveal(to_u64_of);
    lemma_pow2_pos(1074);
    let u = one_unit() as int;
    let s = z.size() as int;
    let m = 2 * s + u;
    let r = m / (2 * u);
    lemma_fundamental_div_mod(m, 2 * u);
    assert(0 <= r <= 255 && m - 2 * u < (2 * u) * r <= m) by (nonlinear_arith)
        requires
            m == (2 * u) * r + m % (2 * u),
            0 <= m % (2 * u) < 2 * u,
            0 <= m <= 2 * (255 * u) + u,
            u > 0,
    ;
    assert((2 * u) * r == 2 * (r * u) && r * u >= 0) by (nonlinear_arith)
        requires
            r >= 0,
            u > 0,
    ;
    let n = (r * u) as nat;
    let out = round_of(z);
    if z.negative() {
        assert(s == 0);
        lemma_fundamental_div_mod_converse(u, 2 * u, 0, u);
        assert(r == 0);
        lemma_zero_rounds(true, 1);
        lemma_size_zero(out);
    } else {
        lemma_rounded_within(n, 1, r as nat, r as nat, 1074);
        assert(out.size() == r * u);
        lemma_fundamental_div_mod_converse(r * u, u, r, 0);
        assert(whole(out) == r);
    }
    r
}

/// A channel of a tint at a level is the nearest there is to that share of it: all of it at the
/// top level, and nothing at the bottom one.
#[verifier::rlimit(40)]
pub proof fn lemma_channel_share(c: u8, level: u8, max: u8)
    requires
        max == 3 || max == 15,
        level <= max,
    ensures
        ({
            let r = OutputColor::channel(c, level, max) as int;
            &&& -(max as int) < 2 * (max * r - c * level) < max
            &&& level == max ==> r == c
            &&& level == 0 ==> r == 0
        }),
{
    reveal(quotient_of);
    let (a, b, m) = (c as int, level as int, max as int);
    lemma_from_int_at(a);
    lemma_from_int_at(b);
    lemma_from_int_at(m);
    let n = a * b;
    assert(0 <= n <= 255 * m) by (nonlinear_arith)
        requires
            n == a * b,
            0 <= a <= 255,
            0 <= b <= m,
    ;
    let x = product_of(from_int(a), from_int(b));
    let y = from_int(m);
    lemma_product_at(from_int(a), from_int(b), a, b, 1074, 1074);
    lemma2_to64();
    lemma_pow2_pos(1064);
    lemma_pow2_pos(1074);
    lemma_pow2_adds(10, 1064);
    let (p, u) = (pow2(1064) as int, one_unit() as int);
    assert(n * u >= 0 && m * u > 0) by (nonlinear_arith)
        requires
            n >= 0,
            m > 0,
            u > 0,
    ;
    lemma_size_zero(y);
    assert(!y.negative());
    let q = quotient_of(x, y);
    let lo = (1024 * n) / m;
    let hi = if (1024 * n) % m == 0 {
        lo
    } else {
        lo + 1
    };
    lemma_fundamental_div_mod(1024 * n, m);
    let (top, d) = (x.size() * one_unit(), y.size());
    assert((lo * p) * d <= top <= (hi * p) * d) by (nonlinear_arith)
        requires
            top == (n * u) * u,
            d == m * u,
            u == 1024 * p,
            p > 0,
            m * lo <= 1024 * n <= m * hi,
    ;
    assert(0 <= lo && hi <= 1024 * 255) by (nonlinear_arith)
        requires
            1024 * n == m * lo + (1024 * n) % m,
            0 <= (1024 * n) % m < m,
            0 <= n <= 255 * m,
            m > 0,
            hi == (if (1024 * n) % m == 0 {
                lo
            } else {
                lo + 1
            }),
    ;
    lemma_rounded_within(top, d, lo as nat, hi as nat, 1064);
    lemma_same_size(x.negative(), top, d);
    assert(lo * p <= q.size() <= hi * p);
    assert(q.size() == 0 || !q.negative()) by {
        if x.negative() {
            assert(n * u == 0);
            assert(top == 0) by (nonlinear_arith)
                requires
                    top == (n * u) * u,
                    n * u == 0,
            ;
            lemma_zero_rounds(true, d);
            lemma_size_zero(q);
        }
    }
    assert(hi * p <= 255 * u && lo * p >= 0) by (nonlinear_arith)
        requires
            hi <= 1024 * 255,
            u == 1024 * p,
            p > 0,
            lo >= 0,
    ;
    let r = lemma_round_error(q);
    assert(2 * lo - 1024 <= 2048 * r <= 2 * hi + 1024) by (nonlinear_arith)
        requires
            -u <= 2 * (r * u - q.units()) <= u,
            lo * p <= q.units() <= hi * p,
            u == 1024 * p,
            p > 0,
    ;
    if m == 3 {
        assert(-3 < 2 * (3 * r - n) < 3);
    } else {
        assert(-15 < 2 * (15 * r - n) < 15);
    }
    assert(b == m ==> n == a * m);
    assert(b == 0 ==> n == 0) by (nonlinear_arith)
        requires
            n == a * b,
    ;
    assert(a * 3 == 3 * a && a * 15 == 15 * a);
}

/// A color at an opacity keeps its hue, and its own opacity is cut to that share of it, as near
/// as can be. At full opacity it stays as it is.
#[verifier::rlimit(40)]
pub proof fn lemma_faded(color: [u8; 4], opacity: Num, k: int)
    requires
        is_at(opacity, k, 1064),
        0 <= k <= 1024,
    ensures
        ({
            let r = faded(color, opacity);
            &&& r[0] == color[0] && r[1] == color[1] && r[2] == color[2]
            &&& -513 <= 1024 * r[3] - color[3] * k <= 513
            &&& k == 1024 ==> r == color
            &&& k == 0 ==> r[3] == 0
        }),
{
    let a = color[3] as int;
    let (x, top) = (from_int(a), num(TOP));
    lemma_from_int_at(a);
    lemma_top();
    lemma_small_whole();
    lemma2_to64();
    lemma_pow2_pos(1044);
    lemma_pow2_adds(20, 1054);
    lemma_pow2_adds(30, 1044);
    lemma_pow2_pos(1054);
    lemma_pow2_pos(1074);
    lemma_pow2_pos(1064);
    let u = one_unit() as int;
    // Its own opacity as a share.
    let lo = (0x10_0000 * a) / 255;
    let hi = if (0x10_0000 * a) % 255 == 0 {
        lo
    } else {
        lo + 1
    };
    let own = quotient_of(x, top);
    lemma_share_bounds(x, top, a, lo, hi);
    // That share of it.
    assert(0 <= lo * k <= hi * k <= 0x4000_0000) by (nonlinear_arith)
        requires
            0 <= lo <= hi <= 0x10_0000,
            0 <= k <= 1024,
    ;
    let y = product_of(own, opacity);
    lemma_product_bounds(own, opacity, lo, hi, k, k, 1054, 1064);
    let v = pow2(1044) as int;
    assert((hi * k) * v <= u && (lo * k) * v >= 0) by (nonlinear_arith)
        requires
            0 <= lo * k,
            hi * k <= 0x4000_0000,
            u == 0x4000_0000 * v,
            v > 0,
    ;
    lemma_compare(y, num(0));
    lemma_compare(num(ONE), y);
    assert(clamp_of(y, num(0), num(ONE)) == y);
    // In bytes.
    let z = product_of(y, top);
    lemma_product_bounds(y, top, lo * k, hi * k, 255, 255, 1044, 1074);
    assert(((hi * k) * 255) * v <= 255 * u && ((lo * k) * 255) * v >= 0) by (nonlinear_arith)
        requires
            (hi * k) * v <= u,
            (lo * k) * v >= 0,
    ;
    let r = lemma_round_error(z);
    let (p, q) = ((lo * k) * 255, (hi * k) * 255);
    assert(2 * p - 0x4000_0000 <= 0x8000_0000 * r <= 2 * q + 0x4000_0000) by (nonlinear_arith)
        requires
            -u <= 2 * (r * u - z.units()) <= u,
            p * v <= z.units() <= q * v,
            u == 0x4000_0000 * v,
            v > 0,
    ;
    assert(p >= (0x10_0000 * a - 254) * k && q <= (0x10_0000 * a + 254) * k) by (nonlinear_arith)
        requires
            p == (lo * k) * 255,
            q == (hi * k) * 255,
            255 * lo >= 0x10_0000 * a - 254,
            255 * hi <= 0x10_0000 * a + 254,
            0 <= k,
    ;
    let m = a * k;
    assert((0x10_0000 * a - 254) * k == 0x10_0000 * m - 254 * k && (0x10_0000 * a + 254) * k
        == 0x10_0000 * m + 254 * k) by (nonlinear_arith)
        requires
            m == a * k,
    ;
    if k == 1024 {
        assert(faded(color, opacity) =~= color);
    }
}

#[verifier::rlimit(40)]
proof fn lemma_share_bounds(x: Num, top: Num, a: int, lo: int, hi: int)
    requires
        is_whole(x, a),
        is_whole(top, 255),
        0 <= a <= 255,
        lo == (0x10_0000 * a) / 255,
        hi == (if (0x10_0000 * a) % 255 == 0 {
            lo
        } else {
            lo + 1
        }),
    ensures
        0 <= lo <= hi <= 0x10_0000,
        quotient_of(x, top).finite(),
        lo * pow2(1054) <= quotient_of(x, top).units() <= hi * pow2(1054),
{
    reveal(quotient_of);
    lemma2_to64();
    lemma_pow2_pos(1054);
    lemma_pow2_pos(1074);
    lemma_pow2_adds(20, 1054);
    let (p, u) = (pow2(1054) as int, one_unit() as int);
    assert(a * u >= 0 && 255 * u > 0) by (nonlinear_arith)
        requires
            a >= 0,
            u > 0,
    ;
    lemma_size_zero(top);
    let (n, d) = (x.size() * one_unit(), top.size());
    assert((lo * p) * d <= n <= (hi * p) * d) by (nonlinear_arith)
        requires
            n == (a * u) * u,
            d == 255 * u,
            u == 0x10_0000 * p,
            p > 0,
            255 * lo <= 0x10_0000 * a <= 255 * hi,
    ;
    lemma_rounded_within(n, d, lo as nat, hi as nat, 1054);
    lemma_same_size(x.negative(), n, d);
    if x.negative() {
        assert(n == 0) by (nonlinear_arith)
            requires
                n == (a * u) * u,
                a * u == 0,
        ;
        lemma_zero_rounds(true, d);
        lemma_size_zero(quotient_of(x, top));
        assert(a == 0) by (nonlinear_arith)
            requires
                a * u == 0,
                u > 0,
        ;
    }
}

/// A product of what is not below nothing lies between the products of the bounds.
#[verifier::rlimit(40)]
proof fn lemma_product_bounds(x: Num, y: Num, a: int, b: int, c: int, d: int, s: nat, t: nat)
    requires
        x.finite() && y.finite(),
        0 <= a <= b && 0 <= c <= d,
        a * pow2(s) <= x.units() <= b * pow2(s),
        c * pow2(t) <= y.units() <= d * pow2(t),
        b * d < 2 * HIDDEN,
        1074 <= s + t <= 3074,
    ensures
        product_of(x, y).finite(),
        (a * c) * pow2((s + t - 1074) as nat) <= product_of(x, y).units() <= (b * d) * pow2(
            (s + t - 1074) as nat,
        ),
{
    reveal(product_of);
    let w = (s + t - 1074) as nat;
    lemma_pow2_pos(s);
    lemma_pow2_pos(t);
    lemma_pow2_pos(w);
    lemma_pow2_pos(1074);
    lemma_pow2_adds(s, t);
    lemma_pow2_adds(w, 1074);
    let (p, q, r, u) = (pow2(s) as int, pow2(t) as int, pow2(w) as int, one_unit() as int);
    assert(p * q == r * u);
    let (i, j) = (x.size() as int, y.size() as int);
    assert(0 <= a * p && 0 <= c * q) by (nonlinear_arith)
        requires
            0 <= a,
            0 <= c,
            p > 0,
            q > 0,
    ;
    assert(i == x.units() && j == y.units());
    let n = x.size() * y.size();
    assert(((a * c) * r) * u <= n <= ((b * d) * r) * u) by (nonlinear_arith)
        requires
            n == i * j,
            0 <= a * p <= i <= b * p,
            0 <= c * q <= j <= d * q,
            p * q == r * u,
            0 <= a,
            0 <= c,
            p > 0,
            q > 0,
    ;
    assert(0 <= a * c <= b * d) by (nonlinear_arith)
        requires
            0 <= a <= b,
            0 <= c <= d,
    ;
    lemma_rounded_within(n, one_unit(), (a * c) as nat, (b * d) as nat, w);
    let neg = x.negative() != y.negative();
    lemma_same_size(neg, n, one_unit());
    if neg {
        assert(n == 0) by (nonlinear_arith)
            requires
                n == i * j,
                i == 0 || j == 0,
        ;
        lemma_zero_rounds(true, one_unit());
        lemma_size_zero(product_of(x, y));
        assert((a * c) * r <= 0) by (nonlinear_arith)
            requires
                ((a * c) * r) * u <= 0,
                u > 0,
        ;
        assert((b * d) * r >= 0) by (nonlinear_arith)
            requires
                b * d >= 0,
                r > 0,
        ;
    }
}

/// A text's ink is moved so that as much of the line is left above it as below it.
pub proof fn lemma_ink_centred(
    s: State,
    style_name: Seq<char>,
    characters: Seq<char>,
    t: int,
    b: int,
    l: int,
)
    requires
        s.style(style_name) matches Some(style) && match s.outline_ink(
            style,
            style_name,
            characters,
        ) {
            Some((top, bottom, line)) => at_fine(top, t) && at_fine(bottom, b) && at_fine(line, l),
            None => lookup(s.fonts, style.file@) matches Some(font) && {
                let styled = styled_as(style, font, false);
                &&& styled.ink_of(characters, characters.len()) matches Some((top, bottom)) && t
                    == 1024 * top && b == 1024 * bottom
                &&& l == 1024 * styled.face.line_height
                &&& -0x4000 < t < 0x4000 && -0x4000 < b < 0x4000 && -0x4000 < l < 0x4000
            },
        },
    ensures
        is_at(s.ink_centring(style_name, characters), (l - b) - t, 1063),
{
    let style = s.style(style_name)->0;
    match s.outline_ink(style, style_name, characters) {
        Some((top, bottom, line)) => {
            lemma_centred(top, bottom, line, t, b, l);
        },
        None => {
            let font = lookup(s.fonts, style.file@)->0;
            let styled = styled_as(style, font, false);
            let (top, bottom) = styled.ink_of(characters, characters.len())->0;
            let line = styled.face.line_height as int;
            lemma_fine_whole(top);
            lemma_fine_whole(bottom);
            lemma_fine_whole(line);
            lemma_centred(from_int(top), from_int(bottom), from_int(line), t, b, l);
        },
    }
}

proof fn lemma_centred(top: Num, bottom: Num, line: Num, t: int, b: int, l: int)
    requires
        at_fine(top, t) && at_fine(bottom, b) && at_fine(line, l),
    ensures
        is_at(
            sum_of(
                quotient_of(
                    sum_of(line, opposite_of(sum_of(bottom, opposite_of(top)))),
                    num(TWO),
                ),
                opposite_of(top),
            ),
            (l - b) - t,
            1063,
        ),
{
    lemma_small_whole();
    lemma2_to64();
    let ink = sum_of(bottom, opposite_of(top));
    lemma_difference_at(bottom, top, b, t, 1064);
    let free = sum_of(line, opposite_of(ink));
    lemma_difference_at(line, ink, l, b - t, 1064);
    let n = l - (b - t);
    lemma_finer(free, n, 1064, 1063);
    assert(n * pow2(1) == n * 2);
    lemma_quotient_at(free, num(TWO), n, 2, 1063, 1074);
    lemma_finer(top, t, 1064, 1063);
    lemma_difference_at(quotient_of(free, num(TWO)), top, n, t * 2, 1063);
}

} // verus!
