//! An incandescent bulb's filament: how it heats, how it cools, and the light it gives while
//! it does.
//!
//! Switching a lamp is the filament's temperature chasing the power put into it, and what is
//! seen is a steep function of that temperature. Everything here is a function of a starting
//! temperature, a target and elapsed time, so a frame is the same however it was reached.

use crate::model::Transition;
use crate::num::{
    at_most, clamp_of, less, num, opposite_of, product_of, quotient_of, sum_of, Num,
};
use crate::waves::{exp, exp_of, ln, ln_of, pow, pow_of, ONE};
use vstd::prelude::*;

verus! {

/// Room temperature, where a cold filament sits, in kelvin.
pub const AMBIENT: u64 = 0x4072_C000_0000_0000;

/// The temperature a filament's color is judged against, in kelvin.
pub const REFERENCE: u64 = 0x40A9_0000_0000_0000;

/// 2700: the temperature at full power of a filament that does not say.
pub const FULL: u64 = 0x40A5_1800_0000_0000;

/// 0.007: the heating time of a filament that does not say.
pub const HEATING: u64 = 0x3F7C_AC08_3126_E979;

/// 0.06: the cooling time of a filament that does not say.
pub const COOLING: u64 = 0x3FAE_B851_EB85_1EB8;

/// 0.36: temperature against drive.
pub const DRIVE: u64 = 0x3FD7_0A3D_70A3_D70A;

/// Where the display transfer stops being straight.
pub const DIM: u64 = 0x3F69_A5C3_7387_B719;

/// The slope of its straight part.
pub const DIM_SLOPE: u64 = 0x4029_D70A_3D70_A3D7;

/// 1.055.
pub const BRIGHT_SLOPE: u64 = 0x3FF0_E147_AE14_7AE1;

/// The exponent of its curved part.
pub const BRIGHT_POWER: u64 = 0x3FDA_AAAA_AAAA_AAAB;

/// 0.055.
pub const BRIGHT_OFFSET: u64 = 0x3FAC_28F5_C28F_5C29;

/// 1000: the coolest blackbody told apart.
pub const COLDEST: u64 = 0x408F_4000_0000_0000;

/// 40000: the hottest blackbody told apart.
pub const HOTTEST: u64 = 0x40E3_8800_0000_0000;

/// 100.0.
pub const HUNDRED: u64 = 0x4059_0000_0000_0000;

/// 66: where red stops and blue is full, in hundreds of kelvin.
pub const WHITE: u64 = 0x4050_8000_0000_0000;

/// 19: below this there is no blue, in hundreds of kelvin.
pub const BLUELESS: u64 = 0x4033_0000_0000_0000;

/// 60.0.
pub const SIXTY: u64 = 0x404E_0000_0000_0000;

/// 10.0.
pub const TEN: u64 = 0x4024_0000_0000_0000;

/// 255.0.
pub const TOP: u64 = 0x406F_E000_0000_0000;

/// The red of a hot body.
pub const RED_SCALE: u64 = 0x4074_9B2D_FCD4_9634;

/// How the red of a hot body falls.
pub const RED_POWER: u64 = 0xBFC1_0CDA_8237_C045;

/// The green of a cool body.
pub const GREEN_LOG: u64 = 0x4058_DE21_A12B_6F81;

/// What is taken off the green of a cool body.
pub const GREEN_OFFSET: u64 = 0x4064_23D3_809E_539B;

/// The green of a hot body.
pub const GREEN_SCALE: u64 = 0x4072_01F4_6808_F53E;

/// How the green of a hot body falls.
pub const GREEN_POWER: u64 = 0xBFB3_54F0_EFAD_26B3;

/// The blue of a cool body.
pub const BLUE_LOG: u64 = 0x4061_5091_4111_DCE6;

/// What is taken off the blue of a cool body.
pub const BLUE_OFFSET: u64 = 0x4073_10B7_788C_D998;

/// Light against temperature.
pub const LIGHT: u32 = 11;

/// What a filament does: how hot it runs at full power, and how quickly it gets there and
/// back.
#[derive(Clone, Copy, Debug, PartialEq, Eq, Structural)]
pub struct Filament {
    /// Temperature at full power, in kelvin, which is also the color it glows there.
    pub full: Num,
    /// Seconds to close about two thirds of the gap, heating.
    pub heating: Num,
    /// The same, cooling.
    pub cooling: Num,
}

impl Default for Filament {
    fn default() -> (r: Filament)
        ensures
            r == (Filament { full: num(FULL), heating: num(HEATING), cooling: num(COOLING) }),
    {
        Filament { full: num(FULL), heating: num(HEATING), cooling: num(COOLING) }
    }
}

/// A number that is finite and above 0, or else the fallback.
pub open spec fn sane(n: Option<Num>, fallback: Num) -> Num {
    match n {
        Some(n) => if n.finite() && less(num(0), n) {
            n
        } else {
            fallback
        },
        None => fallback,
    }
}

fn sane_or(n: Option<Num>, fallback: Num) -> (r: Num)
    ensures
        r == sane(n, fallback),
{
    match n {
        Some(n) => {
            if n.is_finite() && num(0).lt(n) {
                n
            } else {
                fallback
            }
        },
        None => fallback,
    }
}

impl Filament {
    pub open spec fn asked(transition: Transition) -> Filament {
        Filament {
            full: sane(transition.kelvin, num(FULL)),
            heating: sane(transition.heating, num(HEATING)),
            cooling: sane(transition.cooling, num(COOLING)),
        }
    }

    /// What a transition asks for, with the defaults where it says nothing.
    pub fn of(transition: &Transition) -> (r: Filament)
        ensures
            r == Filament::asked(*transition),
    {
        Filament {
            full: sane_or(transition.kelvin, num(FULL)),
            heating: sane_or(transition.heating, num(HEATING)),
            cooling: sane_or(transition.cooling, num(COOLING)),
        }
    }
}

#[verifier::opaque]
pub open spec fn settled_at(lamp: Filament, power: Num) -> Num {
    sum_of(
        num(AMBIENT),
        product_of(
            sum_of(lamp.full, opposite_of(num(AMBIENT))),
            pow_of(clamp_of(power, num(0), num(ONE)), num(DRIVE)),
        ),
    )
}

/// The temperature a filament settles at under `power` (0 to 1), the drive as a fraction of
/// full.
pub fn settled(lamp: Filament, power: Num) -> (r: Num)
    ensures
        r == settled_at(lamp, power),
{
    proof {
        reveal(settled_at);
    }
    num(AMBIENT).plus(
        lamp.full.minus(num(AMBIENT)).times(pow(power.clamp(num(0), num(ONE)), num(DRIVE))),
    )
}

#[verifier::opaque]
pub open spec fn heat(lamp: Filament, from: Num, power: Num, elapsed: Num) -> Num {
    let target = settled_at(lamp, power);
    if at_most(elapsed, num(0)) {
        from
    } else {
        let tau = if at_most(from, target) {
            lamp.heating
        } else {
            lamp.cooling
        };
        sum_of(
            target,
            product_of(
                sum_of(from, opposite_of(target)),
                exp_of(quotient_of(opposite_of(elapsed), tau)),
            ),
        )
    }
}

/// A filament is where it was at the instant its power changed.
pub proof fn lemma_heat_starts(lamp: Filament, from: Num, power: Num)
    ensures
        heat(lamp, from, power, num(0)) == from,
{
    reveal(heat);
    reveal(crate::num::equal);
}

/// The temperature `elapsed` seconds after it was `from`, heading for the temperature `power`
/// settles at.
pub fn temperature(lamp: Filament, from: Num, power: Num, elapsed: Num) -> (r: Num)
    ensures
        r == heat(lamp, from, power, elapsed),
{
    proof {
        reveal(heat);
    }
    let target = settled(lamp, power);
    if elapsed.le(num(0)) {
        return from;
    }
    let tau = if from.le(target) {
        lamp.heating
    } else {
        lamp.cooling
    };
    target.plus(from.minus(target).times(exp(elapsed.neg().over(tau))))
}

/// `x` times itself, `n` times over.
pub open spec fn whole_power(x: Num, n: nat) -> Num
    decreases n,
{
    if n == 0 {
        num(ONE)
    } else {
        product_of(whole_power(x, (n - 1) as nat), x)
    }
}

#[verifier::opaque]
pub open spec fn light(lamp: Filament, temperature: Num) -> Num {
    if at_most(temperature, num(AMBIENT)) || at_most(lamp.full, num(AMBIENT)) {
        num(0)
    } else {
        whole_power(clamp_of(quotient_of(temperature, lamp.full), num(0), num(ONE)), LIGHT as nat)
    }
}

/// How bright a filament at `temperature` is, 0 to 1 against full power.
pub fn brightness(lamp: Filament, temperature: Num) -> (r: Num)
    ensures
        r == light(lamp, temperature),
{
    proof {
        reveal(light);
    }
    if temperature.le(num(AMBIENT)) || lamp.full.le(num(AMBIENT)) {
        return num(0);
    }
    let x = temperature.over(lamp.full).clamp(num(0), num(ONE));
    let mut out = num(ONE);
    let mut i: u32 = 0;
    while i < LIGHT
        invariant
            i <= LIGHT,
            out == whole_power(x, i as nat),
        decreases LIGHT - i,
    {
        out = out.times(x);
        i = i + 1;
    }
    out
}

#[verifier::opaque]
pub open spec fn seen(lamp: Filament, temperature: Num) -> Num {
    let light = light(lamp, temperature);
    if at_most(light, num(DIM)) {
        product_of(num(DIM_SLOPE), light)
    } else {
        sum_of(
            product_of(num(BRIGHT_SLOPE), pow_of(light, num(BRIGHT_POWER))),
            opposite_of(num(BRIGHT_OFFSET)),
        )
    }
}

/// The light a filament at `temperature` shows as, 0 to 1: [`brightness`] through the
/// transfer a display assumes.
pub fn shown(lamp: Filament, temperature: Num) -> (r: Num)
    ensures
        r == seen(lamp, temperature),
{
    proof {
        reveal(seen);
    }
    let light = brightness(lamp, temperature);
    if light.le(num(DIM)) {
        num(DIM_SLOPE).times(light)
    } else {
        num(BRIGHT_SLOPE).times(pow(light, num(BRIGHT_POWER))).minus(num(BRIGHT_OFFSET))
    }
}

/// The raw blackbody color at a temperature, each channel within 0 and 255.
#[verifier::opaque]
pub open spec fn blackbody_of(temperature: Num) -> [Num; 3] {
    let t = quotient_of(clamp_of(temperature, num(COLDEST), num(HOTTEST)), num(HUNDRED));
    let red = if at_most(t, num(WHITE)) {
        num(TOP)
    } else {
        product_of(num(RED_SCALE), pow_of(sum_of(t, opposite_of(num(SIXTY))), num(RED_POWER)))
    };
    let green = if at_most(t, num(WHITE)) {
        sum_of(product_of(num(GREEN_LOG), ln_of(t)), opposite_of(num(GREEN_OFFSET)))
    } else {
        product_of(num(GREEN_SCALE), pow_of(sum_of(t, opposite_of(num(SIXTY))), num(GREEN_POWER)))
    };
    let blue = if at_most(num(WHITE), t) {
        num(TOP)
    } else if at_most(t, num(BLUELESS)) {
        num(0)
    } else {
        sum_of(
            product_of(num(BLUE_LOG), ln_of(sum_of(t, opposite_of(num(TEN))))),
            opposite_of(num(BLUE_OFFSET)),
        )
    };
    [
        clamp_of(red, num(0), num(TOP)),
        clamp_of(green, num(0), num(TOP)),
        clamp_of(blue, num(0), num(TOP)),
    ]
}

fn blackbody(temperature: Num) -> (r: [Num; 3])
    ensures
        r == blackbody_of(temperature),
{
    proof {
        reveal(blackbody_of);
    }
    let t = temperature.clamp(num(COLDEST), num(HOTTEST)).over(num(HUNDRED));
    let red = if t.le(num(WHITE)) {
        num(TOP)
    } else {
        num(RED_SCALE).times(pow(t.minus(num(SIXTY)), num(RED_POWER)))
    };
    let green = if t.le(num(WHITE)) {
        num(GREEN_LOG).times(ln(t)).minus(num(GREEN_OFFSET))
    } else {
        num(GREEN_SCALE).times(pow(t.minus(num(SIXTY)), num(GREEN_POWER)))
    };
    let blue = if num(WHITE).le(t) {
        num(TOP)
    } else if t.le(num(BLUELESS)) {
        num(0)
    } else {
        num(BLUE_LOG).times(ln(t.minus(num(TEN)))).minus(num(BLUE_OFFSET))
    };
    [red.clamp(num(0), num(TOP)), green.clamp(num(0), num(TOP)), blue.clamp(num(0), num(TOP))]
}

/// A channel read against its reference.
pub open spec fn channel(c: Num, r: Num) -> u8 {
    if at_most(r, num(0)) {
        0
    } else {
        crate::num::to_byte_of(clamp_of(quotient_of(product_of(num(TOP), c), r), num(0), num(TOP)))
    }
}

fn against(c: Num, r: Num) -> (b: u8)
    ensures
        b == channel(c, r),
{
    if r.le(num(0)) {
        0
    } else {
        num(TOP).times(c).over(r).clamp(num(0), num(TOP)).to_u8()
    }
}

pub open spec fn glow(temperature: Num) -> [u8; 3] {
    let raw = blackbody_of(temperature);
    let reference = blackbody_of(num(REFERENCE));
    [
        channel(raw[0], reference[0]),
        channel(raw[1], reference[1]),
        channel(raw[2], reference[2]),
    ]
}

/// The color of a filament at `temperature`, as RGB: a blackbody read against
/// [`REFERENCE`], so a lamp at full power is a warm white rather than an orange.
pub fn color(temperature: Num) -> (r: [u8; 3])
    ensures
        r == glow(temperature),
{
    let raw = blackbody(temperature);
    let reference = blackbody(num(REFERENCE));
    [
        against(raw[0], reference[0]),
        against(raw[1], reference[1]),
        against(raw[2], reference[2]),
    ]
}

} // verus!
