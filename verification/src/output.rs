//! How finished frames are converted for the display.

use crate::color::{color_of, parse_color};
use crate::model::{Output, OutputMode, OutputSet};
use crate::num::{
    from_int, lemma_size_zero, num, one_unit, product_of, quotient_of, round_of, rounded, sum_of,
    to_byte_of, Num, HIDDEN,
};
use crate::order::{
    counts, lemma_byte_of_rounded, lemma_counting_sum, lemma_nearest_whole_rises,
    lemma_product_rises, lemma_quotient_rises, lemma_rounded_within, lemma_sum_rises,
    lemma_whole_number, nearest_whole,
};
use vstd::arithmetic::div_mod::lemma_fundamental_div_mod_converse;
use vstd::arithmetic::power2::{lemma2_to64, lemma2_to64_rest, lemma_pow2_adds, lemma_pow2_pos, pow2};
use vstd::prelude::*;

verus! {

/// 0.2126: how much red counts for the brightness of a color.
pub const LUMA_RED: u64 = 0x3FCB_367A_0F90_96BC;

/// 0.7152: how much green counts for the brightness of a color.
pub const LUMA_GREEN: u64 = 0x3FE6_E2EB_1C43_2CA5;

/// 0.0722: how much blue counts for the brightness of a color.
pub const LUMA_BLUE: u64 = 0x3FB2_7BB2_FEC5_6D5D;

/// 255.0
pub const FULL_CHANNEL: u64 = 0x406F_E000_0000_0000;

/// Resolved output color handling for the current frame.
#[derive(Clone, Copy, Debug, PartialEq, Eq)]
pub struct OutputColor {
    pub mode: OutputMode,
    /// RGB that full luminance maps to in the gray modes.
    pub tint: [u8; 3],
}

/// Full color: frames pass through unchanged.
pub open spec fn full_color() -> OutputColor {
    OutputColor { mode: OutputMode::Rgb, tint: [255, 255, 255] }
}

/// What a set of output settings resolves to; nothing where its tint is no color.
pub open spec fn resolved_output(set: OutputSet) -> Option<OutputColor> {
    let tint: Option<[u8; 3]> = match set.tint {
        Some(t) => match color_of(t) {
            Some(c) => Some([c[0], c[1], c[2]]),
            None => None,
        },
        None => Some([255, 255, 255]),
    };
    match tint {
        None => None,
        Some(tint) => match set.mode {
            Some(OutputMode::Gray2) => Some(OutputColor { mode: OutputMode::Gray2, tint }),
            Some(OutputMode::Gray4) => Some(OutputColor { mode: OutputMode::Gray4, tint }),
            _ => Some(full_color()),
        },
    }
}

/// The brightness of a color, 0 to 1.
pub open spec fn luma(rgb: [u8; 3]) -> Num {
    quotient_of(
        sum_of(
            sum_of(
                product_of(from_int(rgb[0] as int), num(LUMA_RED)),
                product_of(from_int(rgb[1] as int), num(LUMA_GREEN)),
            ),
            product_of(from_int(rgb[2] as int), num(LUMA_BLUE)),
        ),
        num(FULL_CHANNEL),
    )
}

impl OutputColor {
    pub open spec fn top(self) -> Option<u8> {
        match self.mode {
            OutputMode::Rgb => None,
            OutputMode::Gray2 => Some(3),
            OutputMode::Gray4 => Some(15),
        }
    }

    pub open spec fn quantized(self, rgb: [u8; 3]) -> Option<u8> {
        match self.top() {
            None => None,
            Some(max) => Some(
                to_byte_of(round_of(product_of(luma(rgb), from_int(max as int)))),
            ),
        }
    }

    /// One channel of the tint at a level.
    pub open spec fn channel(c: u8, level: u8, max: u8) -> u8 {
        to_byte_of(
            round_of(
                quotient_of(
                    product_of(from_int(c as int), from_int(level as int)),
                    from_int(max as int),
                ),
            ),
        )
    }

    pub open spec fn converted(self, px: [u8; 4]) -> [u8; 4] {
        match (self.quantized([px[0], px[1], px[2]]), self.top()) {
            (Some(level), Some(max)) => [
                OutputColor::channel(self.tint[0], level, max),
                OutputColor::channel(self.tint[1], level, max),
                OutputColor::channel(self.tint[2], level, max),
                px[3],
            ],
            _ => px,
        }
    }

    /// Full color, frames pass through unchanged.
    pub fn rgb() -> (r: OutputColor)
        ensures
            r == full_color(),
    {
        OutputColor { mode: OutputMode::Rgb, tint: [255, 255, 255] }
    }

    /// Resolve a show document's output description; `None` when the tint is not a valid
    /// color.
    pub fn from_output(output: &Output) -> (r: Option<OutputColor>)
        ensures
            r == resolved_output(output@),
    {
        let tint: [u8; 3] = match &output.tint {
            Some(tint) => match parse_color(tint.as_str()) {
                Some(c) => [c[0], c[1], c[2]],
                None => {
                    return None;
                },
            },
            None => [255, 255, 255],
        };
        match output.mode {
            Some(OutputMode::Gray2) => Some(OutputColor { mode: OutputMode::Gray2, tint }),
            Some(OutputMode::Gray4) => Some(OutputColor { mode: OutputMode::Gray4, tint }),
            // The tint plays no part in full color.
            _ => Some(OutputColor::rgb()),
        }
    }

    /// Highest luminance level of the gray modes (levels run 0..=max), or `None` in full-color
    /// mode.
    pub fn max_level(&self) -> (r: Option<u8>)
        ensures
            r == self.top(),
    {
        match self.mode {
            OutputMode::Rgb => None,
            OutputMode::Gray2 => Some(3),
            OutputMode::Gray4 => Some(15),
        }
    }

    /// The quantized luminance level (0..=max) of an RGB color, or `None` in full-color mode.
    pub fn level(&self, rgb: [u8; 3]) -> (r: Option<u8>)
        ensures
            r == self.quantized(rgb),
    {
        match self.max_level() {
            None => None,
            Some(max) => {
                let r = Num::from_u64(rgb[0] as u64).times(num(LUMA_RED));
                let g = Num::from_u64(rgb[1] as u64).times(num(LUMA_GREEN));
                let b = Num::from_u64(rgb[2] as u64).times(num(LUMA_BLUE));
                let luminance = r.plus(g).plus(b).over(num(FULL_CHANNEL));
                Some(luminance.times(Num::from_u64(max as u64)).round().to_u8())
            },
        }
    }

    fn scaled(c: u8, level: u8, max: u8) -> (r: u8)
        ensures
            r == OutputColor::channel(c, level, max),
    {
        Num::from_u64(c as u64).times(Num::from_u64(level as u64)).over(
            Num::from_u64(max as u64),
        ).round().to_u8()
    }

    /// Convert one RGBA pixel; alpha is kept.
    pub fn apply_pixel(&self, px: [u8; 4]) -> (r: [u8; 4])
        ensures
            r == self.converted(px),
    {
        match (self.level([px[0], px[1], px[2]]), self.max_level()) {
            (Some(level), Some(max)) => [
                OutputColor::scaled(self.tint[0], level, max),
                OutputColor::scaled(self.tint[1], level, max),
                OutputColor::scaled(self.tint[2], level, max),
                px[3],
            ],
            _ => px,
        }
    }

    /// Where a byte of converted pixels comes from.
    pub open spec fn converted_byte(self, rgba: Seq<u8>, i: int) -> u8 {
        let at = 4 * (i / 4);
        if at + 4 <= rgba.len() {
            self.converted([rgba[at], rgba[at + 1], rgba[at + 2], rgba[at + 3]])[i % 4]
        } else {
            rgba[i]
        }
    }

    /// Convert tightly packed RGBA8 pixels in place.
    pub fn apply(&self, rgba: &mut [u8])
        ensures
            final(rgba)@.len() == old(rgba)@.len(),
            forall|i: int|
                0 <= i < old(rgba)@.len() ==> #[trigger] final(rgba)@[i] == self.converted_byte(
                    old(rgba)@,
                    i,
                ),
    {
        let ghost was = rgba@;
        if self.mode == OutputMode::Rgb {
            proof {
                assert forall|i: int| 0 <= i < was.len() implies #[trigger] was[i]
                    == self.converted_byte(was, i) by {
                    let at = 4 * (i / 4);
                    assert(i % 4 == i - at);
                }
            }
            return ;
        }
        let mut i: usize = 0;
        while rgba.len() - i >= 4
            invariant
                rgba@.len() == was.len(),
                i <= was.len(),
                i % 4 == 0,
                forall|j: int| i <= j < was.len() ==> rgba@[j] == was[j],
                forall|j: int|
                    0 <= j < i ==> #[trigger] rgba@[j] == self.converted_byte(was, j),
            decreases was.len() - i,
        {
            let px = self.apply_pixel([rgba[i], rgba[i + 1], rgba[i + 2], rgba[i + 3]]);
            rgba[i] = px[0];
            rgba[i + 1] = px[1];
            rgba[i + 2] = px[2];
            rgba[i + 3] = px[3];
            proof {
                assert forall|j: int| 0 <= j < i + 4 implies #[trigger] rgba@[j]
                    == self.converted_byte(was, j) by {
                    if j >= i {
                        assert(4 * (j / 4) == i);
                        assert(j % 4 == j - i);
                    }
                }
            }
            i = i + 4;
        }
        proof {
            assert forall|j: int| 0 <= j < was.len() implies #[trigger] rgba@[j]
                == self.converted_byte(was, j) by {
                if j >= i {
                    assert(4 * (j / 4) + 4 > was.len());
                }
            }
        }
    }
}

impl Default for OutputColor {
    fn default() -> (r: OutputColor)
        ensures
            r == full_color(),
    {
        OutputColor::rgb()
    }
}

/// Converting keeps the alpha of every pixel, and full color keeps the pixel.
pub proof fn lemma_alpha_kept(output: OutputColor, px: [u8; 4])
    ensures
        output.converted(px)[3] == px[3],
        output.mode == OutputMode::Rgb ==> output.converted(px) == px,
{
}

/// The weights of the channels, to three digits.
proof fn lemma_weights()
    ensures
        ({
            let v = pow2(1064);
            &&& v > 0
            &&& one_unit() == 1024 * v
            &&& counts(num(LUMA_RED)) && 217 * v <= num(LUMA_RED).size() <= 218 * v
            &&& counts(num(LUMA_GREEN)) && 732 * v <= num(LUMA_GREEN).size() <= 733 * v
            &&& counts(num(LUMA_BLUE)) && 73 * v <= num(LUMA_BLUE).size() <= 74 * v
            &&& counts(num(FULL_CHANNEL)) && num(FULL_CHANNEL).size() == 255 * one_unit()
            &&& !num(FULL_CHANNEL).zero()
        }),
{
    lemma2_to64();
    lemma2_to64_rest();
    lemma_pow2_pos(1064);
    lemma_pow2_adds(10, 1064);
    lemma_pow2_adds(45, 1019);
    lemma_pow2_adds(43, 1021);
    lemma_pow2_adds(46, 1018);
    lemma_pow2_adds(45, 1029);
    let (r, g, b, full) = (num(LUMA_RED), num(LUMA_GREEN), num(LUMA_BLUE), num(FULL_CHANNEL));
    assert(r.step() == 1019 && r.mantissa() == 0x1B_367A_0F90_96BC);
    assert(g.step() == 1021 && g.mantissa() == 0x16_E2EB_1C43_2CA5);
    assert(b.step() == 1018 && b.mantissa() == 0x12_7BB2_FEC5_6D5D);
    assert(full.step() == 1029 && full.mantissa() == 255 * 0x2000_0000_0000);
    lemma_pow2_pos(1019);
    lemma_pow2_pos(1021);
    lemma_pow2_pos(1018);
    let (p, q, o, w) = (pow2(1019), pow2(1021), pow2(1018), pow2(1029));
    assert(217 * (0x2000_0000_0000 * p) <= 0x1B_367A_0F90_96BC * p <= 218 * (0x2000_0000_0000
        * p)) by (nonlinear_arith)
        requires
            p > 0,
    ;
    assert(732 * (0x800_0000_0000 * q) <= 0x16_E2EB_1C43_2CA5 * q <= 733 * (0x800_0000_0000 * q))
        by (nonlinear_arith)
        requires
            q > 0,
    ;
    assert(73 * (0x4000_0000_0000 * o) <= 0x12_7BB2_FEC5_6D5D * o <= 74 * (0x4000_0000_0000 * o))
        by (nonlinear_arith)
        requires
            o > 0,
    ;
    assert((255 * 0x2000_0000_0000) * w == 255 * (0x2000_0000_0000 * w)) by (nonlinear_arith);
}

/// A channel times its weight.
proof fn lemma_weighted(c: u8, weight: Num, lo: nat, hi: nat)
    requires
        counts(weight),
        lo * pow2(1064) <= weight.size() <= hi * pow2(1064),
        lo <= hi <= 1024,
    ensures
        counts(product_of(from_int(c as int), weight)),
        (c * lo) * pow2(1064) <= product_of(from_int(c as int), weight).size() <= (c * hi) * pow2(
            1064,
        ),
{
    lemma_weights();
    lemma_whole_number(c as nat);
    reveal(product_of);
    let v = pow2(1064);
    let u = one_unit();
    let x = from_int(c as int);
    let n = x.size() * weight.size();
    let w = weight.size();
    assert(n == (c * w) * u) by (nonlinear_arith)
        requires
            n == (c * u) * w,
    ;
    assert(((c * lo) * v) * u <= (c * w) * u <= ((c * hi) * v) * u) by (nonlinear_arith)
        requires
            lo * v <= w <= hi * v,
            c >= 0,
            u > 0,
    ;
    assert(c * lo <= 255 * 1024 && c * hi <= 255 * 1024) by (nonlinear_arith)
        requires
            lo <= hi <= 1024,
            0 <= c <= 255,
    ;
    lemma_rounded_within(n, u, (c * lo) as nat, (c * hi) as nat, 1064);
}

/// The sum of numbers with bounds.
proof fn lemma_bounded_sum(x: Num, y: Num, a: nat, b: nat, c: nat, d: nat)
    requires
        counts(x),
        counts(y),
        a * pow2(1064) <= x.size() <= b * pow2(1064),
        c * pow2(1064) <= y.size() <= d * pow2(1064),
        a + c < HIDDEN,
        b + d < HIDDEN,
    ensures
        counts(sum_of(x, y)),
        (a + c) * pow2(1064) <= sum_of(x, y).size() <= (b + d) * pow2(1064),
{
    lemma_counting_sum(x, y);
    let v = pow2(1064);
    assert((a + c) * v == a * v + c * v) by (nonlinear_arith);
    assert((b + d) * v == b * v + d * v) by (nonlinear_arith);
    lemma_rounded_within(x.size() + y.size(), 1, a + c, b + d, 1064);
}

/// The weighted channels of a color together.
pub open spec fn weighted(rgb: [u8; 3]) -> Num {
    sum_of(
        sum_of(
            product_of(from_int(rgb[0] as int), num(LUMA_RED)),
            product_of(from_int(rgb[1] as int), num(LUMA_GREEN)),
        ),
        product_of(from_int(rgb[2] as int), num(LUMA_BLUE)),
    )
}

proof fn lemma_weighted_sum(rgb: [u8; 3])
    ensures
        ({
            let (r, g, b) = (rgb[0] as int, rgb[1] as int, rgb[2] as int);
            &&& counts(weighted(rgb))
            &&& (217 * r + 732 * g + 73 * b) * pow2(1064) <= weighted(rgb).size()
            &&& weighted(rgb).size() <= (218 * r + 733 * g + 74 * b) * pow2(1064)
        }),
{
    lemma_weights();
    let (r, g, b) = (rgb[0], rgb[1], rgb[2]);
    lemma_weighted(r, num(LUMA_RED), 217, 218);
    lemma_weighted(g, num(LUMA_GREEN), 732, 733);
    lemma_weighted(b, num(LUMA_BLUE), 73, 74);
    let red = product_of(from_int(r as int), num(LUMA_RED));
    let green = product_of(from_int(g as int), num(LUMA_GREEN));
    let blue = product_of(from_int(b as int), num(LUMA_BLUE));
    lemma_bounded_sum(
        red,
        green,
        (r * 217) as nat,
        (r * 218) as nat,
        (g * 732) as nat,
        (g * 733) as nat,
    );
    lemma_bounded_sum(
        sum_of(red, green),
        blue,
        (r * 217 + g * 732) as nat,
        (r * 218 + g * 733) as nat,
        (b * 73) as nat,
        (b * 74) as nat,
    );
}

/// A brightness on the way to a level, between bounds in parts of 1024.
proof fn lemma_scaled_luma(rgb: [u8; 3], lo: nat, hi: nat, max: u8)
    requires
        255 * lo <= 217 * rgb[0] + 732 * rgb[1] + 73 * rgb[2],
        218 * rgb[0] + 733 * rgb[1] + 74 * rgb[2] <= 255 * hi,
        lo <= hi <= 2048,
    ensures
        counts(luma(rgb)),
        counts(product_of(luma(rgb), from_int(max as int))),
        (lo * max) * pow2(1064) <= product_of(luma(rgb), from_int(max as int)).size() <= (hi * max)
            * pow2(1064),
{
    lemma_weights();
    lemma_weighted_sum(rgb);
    lemma_whole_number(max as nat);
    let v = pow2(1064);
    let u = one_unit();
    let x = weighted(rgb);
    let a = 217 * rgb[0] + 732 * rgb[1] + 73 * rgb[2];
    let b = 218 * rgb[0] + 733 * rgb[1] + 74 * rgb[2];
    let n = x.size() * u;
    let d = 255 * u;
    let s = x.size() as int;
    assert((lo * v) * d <= n <= (hi * v) * d) by (nonlinear_arith)
        requires
            n == s * u,
            d == 255 * u,
            a * v <= s <= b * v,
            255 * lo <= a,
            b <= 255 * hi,
            u > 0,
            v > 0,
    ;
    assert(quotient_of(x, num(FULL_CHANNEL)) == rounded(false, n, d)) by {
        reveal(quotient_of);
    }
    lemma_rounded_within(n, d, lo, hi, 1064);
    let l = luma(rgb);
    assert(l == quotient_of(x, num(FULL_CHANNEL)));
    let y = from_int(max as int);
    let m = l.size() * y.size();
    let z = l.size() as int;
    assert(m == (z * max) * u) by (nonlinear_arith)
        requires
            m == z * (max * u),
    ;
    assert(((lo * max) * v) * u <= (z * max) * u <= ((hi * max) * v) * u) by (nonlinear_arith)
        requires
            lo * v <= z <= hi * v,
            max >= 0,
            u > 0,
    ;
    assert(product_of(l, y) == rounded(false, m, u)) by {
        reveal(product_of);
    }
    assert(lo * max <= 2048 * 255 && hi * max <= 2048 * 255) by (nonlinear_arith)
        requires
            lo <= hi <= 2048,
            0 <= max <= 255,
    ;
    lemma_rounded_within(m, u, lo * max as nat, hi * max as nat, 1064);
}

/// A gray that stands for a level exactly has that level.
proof fn lemma_gray_level(output: OutputColor, x: u8, level: u8)
    requires
        output.top() is Some,
        x * output.top()->0 == 255 * level,
    ensures
        output.quantized([x, x, x]) == Some(level),
        counts(product_of(luma([x, x, x]), from_int(output.top()->0 as int))),
        nearest_whole(product_of(luma([x, x, x]), from_int(output.top()->0 as int))) == level,
{
    let max = output.top()->0;
    let rgb = [x, x, x];
    let lo = (1022 * x) / 255;
    let hi = (1025 * x + 254) / 255;
    lemma_weights();
    lemma_scaled_luma(rgb, lo as nat, hi as nat, max);
    let v = pow2(1064);
    let u = one_unit();
    let p = product_of(luma(rgb), from_int(max as int));
    let s = p.size() as int;
    assert(level <= max && x <= 255);
    assert(2048 * level <= 2 * (lo * max) + 1024);
    assert(2 * (hi * max) + 1024 < 2048 * (level + 1));
    let k = level as int;
    let (a, b) = (lo * max, hi * max);
    assert(k * (2 * u) <= 2 * s + u < (k + 1) * (2 * u)) by (nonlinear_arith)
        requires
            a * v <= s <= b * v,
            2048 * k <= 2 * a + 1024,
            2 * b + 1024 < 2048 * (k + 1),
            u == 1024 * v,
            v > 0,
    ;
    assert((k + 1) * (2 * u) == k * (2 * u) + 2 * u) by (nonlinear_arith);
    assert((2 * s + u) / (2 * u as int) == k) by {
        lemma_fundamental_div_mod_converse(2 * s + u, 2 * u as int, k, 2 * s + u - k * (2 * u));
    }
    lemma_byte_of_rounded(p);
}

/// Brightness rises with every channel.
proof fn lemma_luma_rises(a: [u8; 3], b: [u8; 3], max: u8)
    requires
        a[0] <= b[0] && a[1] <= b[1] && a[2] <= b[2],
    ensures
        ({
            let (x, y) = (
                product_of(luma(a), from_int(max as int)),
                product_of(luma(b), from_int(max as int)),
            );
            counts(x) && counts(y) && x.size() <= y.size()
        }),
{
    lemma_weights();
    lemma_weighted_channel_rises(a[0], b[0], num(LUMA_RED), 217, 218);
    lemma_weighted_channel_rises(a[1], b[1], num(LUMA_GREEN), 732, 733);
    lemma_weighted_channel_rises(a[2], b[2], num(LUMA_BLUE), 73, 74);
    let (ar, br) = (
        product_of(from_int(a[0] as int), num(LUMA_RED)),
        product_of(from_int(b[0] as int), num(LUMA_RED)),
    );
    let (ag, bg) = (
        product_of(from_int(a[1] as int), num(LUMA_GREEN)),
        product_of(from_int(b[1] as int), num(LUMA_GREEN)),
    );
    let (ab, bb) = (
        product_of(from_int(a[2] as int), num(LUMA_BLUE)),
        product_of(from_int(b[2] as int), num(LUMA_BLUE)),
    );
    lemma_bounded_sum(
        br,
        bg,
        (b[0] * 217) as nat,
        (b[0] * 218) as nat,
        (b[1] * 732) as nat,
        (b[1] * 733) as nat,
    );
    lemma_sum_rises(ar, ag, br, bg);
    lemma_weighted_sum(b);
    lemma_sum_rises(sum_of(ar, ag), ab, sum_of(br, bg), bb);
    lemma_scaled_luma(b, 0, 2048, max);
    lemma_quotient_rises(weighted(a), weighted(b), num(FULL_CHANNEL));
    lemma_whole_number(max as nat);
    lemma_product_rises(luma(a), luma(b), from_int(max as int));
}

proof fn lemma_weighted_channel_rises(a: u8, b: u8, weight: Num, lo: nat, hi: nat)
    requires
        a <= b,
        counts(weight),
        lo * pow2(1064) <= weight.size() <= hi * pow2(1064),
        lo <= hi <= 1024,
    ensures
        ({
            let x = product_of(from_int(a as int), weight);
            let y = product_of(from_int(b as int), weight);
            &&& counts(x) && counts(y) && x.size() <= y.size()
            &&& (b * lo) * pow2(1064) <= y.size() <= (b * hi) * pow2(1064)
        }),
{
    lemma_weighted(b, weight, lo, hi);
    lemma_whole_number(a as nat);
    lemma_whole_number(b as nat);
    let u = one_unit();
    assert(a * u <= b * u) by (nonlinear_arith)
        requires
            a <= b,
    ;
    lemma_product_rises(from_int(a as int), from_int(b as int), weight);
}

/// Levels run from 0, for black, to the highest one, for white, and never fall where a channel
/// rises; full color has none.
pub proof fn lemma_levels(output: OutputColor, a: [u8; 3], b: [u8; 3])
    ensures
        (output.mode == OutputMode::Rgb) == (output.top() is None),
        output.quantized(a) is None == output.top() is None,
        output.top() matches Some(max) ==> {
            &&& output.quantized(a)->0 <= max
            &&& output.quantized([0, 0, 0]) == Some(0u8)
            &&& output.quantized([255, 255, 255]) == Some(max)
            &&& a[0] <= b[0] && a[1] <= b[1] && a[2] <= b[2] ==> output.quantized(a)->0
                <= output.quantized(b)->0
        },
{
    if let Some(max) = output.top() {
        let white = [255u8, 255u8, 255u8];
        lemma_gray_level(output, 255, max);
        lemma_gray_level(output, 0, 0);
        lemma_luma_rises(a, white, max);
        lemma_luma_rises(b, white, max);
        let top = product_of(luma(white), from_int(max as int));
        let x = product_of(luma(a), from_int(max as int));
        let y = product_of(luma(b), from_int(max as int));
        lemma_nearest_whole_rises(x, top);
        lemma_nearest_whole_rises(y, top);
        lemma_byte_of_rounded(x);
        lemma_byte_of_rounded(y);
        if a[0] <= b[0] && a[1] <= b[1] && a[2] <= b[2] {
            lemma_luma_rises(a, b, max);
            lemma_nearest_whole_rises(x, y);
        }
    }
}

/// Full brightness at a level, as a channel.
proof fn lemma_white_channel(level: u8, max: u8)
    requires
        max == 3 || max == 15,
        level <= max,
    ensures
        OutputColor::channel(255, level, max) * max == 255 * level,
{
    lemma_whole_number(255);
    lemma_whole_number(level as nat);
    lemma_whole_number(max as nat);
    lemma_pow2_pos(1074);
    let u = one_unit();
    let (c, l, m) = (from_int(255), from_int(level as int), from_int(max as int));
    let k = 255 * level as nat;
    let n = c.size() * l.size();
    assert(n == (k * u) * u) by (nonlinear_arith)
        requires
            n == (255 * u) * (level * u),
            k == 255 * level,
    ;
    assert(product_of(c, l) == rounded(false, n, u)) by {
        reveal(product_of);
    }
    lemma_rounded_within(n, u, k, k, 1074);
    let x = product_of(c, l);
    let q: nat = if max == 3 {
        85 * level as nat
    } else {
        17 * level as nat
    };
    assert(k == q * max);
    let d = m.size();
    assert(d > 0) by (nonlinear_arith)
        requires
            d == max * u,
            max > 0,
            u > 0,
    ;
    assert((k * u) * u == (q * u) * d) by (nonlinear_arith)
        requires
            k == q * max,
            d == max * u,
    ;
    lemma_size_zero(m);
    assert(quotient_of(x, m) == rounded(false, x.size() * u, d)) by {
        reveal(quotient_of);
    }
    lemma_rounded_within(x.size() * u, d, q, q, 1074);
    let y = quotient_of(x, m);
    assert((2 * (q * u) + u) / (2 * u) == q) by {
        assert(2 * (q * u) + u == q * (2 * u) + u) by (nonlinear_arith);
        lemma_fundamental_div_mod_converse(
            (2 * (q * u) + u) as int,
            (2 * u) as int,
            q as int,
            u as int,
        );
    }
    lemma_byte_of_rounded(y);
}

/// With a white tint, converting twice is converting once; two pixels of one level and alpha
/// are converted alike.
pub proof fn lemma_converted_once(output: OutputColor, px: [u8; 4], other: [u8; 4])
    ensures
        output.tint == [255u8, 255, 255] ==> output.converted(output.converted(px))
            == output.converted(px),
        output.mode != OutputMode::Rgb && px[3] == other[3] && output.quantized(
            [px[0], px[1], px[2]],
        ) == output.quantized([other[0], other[1], other[2]]) ==> output.converted(px)
            == output.converted(other),
{
    if let Some(max) = output.top() {
        if output.tint == [255u8, 255, 255] {
            let rgb = [px[0], px[1], px[2]];
            lemma_levels(output, rgb, rgb);
            let level = output.quantized(rgb)->0;
            let x = OutputColor::channel(255, level, max);
            lemma_white_channel(level, max);
            lemma_gray_level(output, x, level);
            let once = output.converted(px);
            assert(once =~= [x, x, x, px[3]]);
            assert([once[0], once[1], once[2]] =~= [x, x, x]);
            assert(output.converted(once) =~= once);
        }
    }
}

} // verus!
