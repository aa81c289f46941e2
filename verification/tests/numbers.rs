//! The arithmetic of doubles by their bits, held to the machine's own.

use cuelight::big::Big;
use cuelight::debug::debug;
use cuelight::decimal::{display, display_places, from_decimal};
use cuelight::num::{num, Num};
use cuelight::waves::{acos, atan, exp, ln, pow, sin_cos, sqrt, tan, to_radians};

fn n(x: f64) -> Num {
    num(x.to_bits())
}

fn f(x: Num) -> f64 {
    f64::from_bits(x.bits)
}

/// The same double; every NaN is the same.
fn same(a: Num, b: f64) -> bool {
    (f(a).is_nan() && b.is_nan()) || a.bits == b.to_bits()
}

/// Bits that follow one another without a pattern.
fn scatter(state: &mut u64) -> u64 {
    *state = state.wrapping_add(0x9e37_79b9_7f4a_7c15);
    let mut x = *state;
    x = (x ^ (x >> 30)).wrapping_mul(0xbf58_476d_1ce4_e5b9);
    x = (x ^ (x >> 27)).wrapping_mul(0x94d0_49bb_1331_11eb);
    x ^ (x >> 31)
}

fn edges() -> Vec<f64> {
    vec![
        0.0,
        -0.0,
        1.0,
        -1.0,
        0.1,
        0.5,
        1.5,
        2.5,
        -2.5,
        3.0,
        1e-300,
        -1e300,
        f64::MIN_POSITIVE,
        5e-324,
        -5e-324,
        f64::MAX,
        f64::MIN,
        f64::INFINITY,
        f64::NEG_INFINITY,
        f64::NAN,
        4503599627370496.0,
        9007199254740993.0,
        255.0,
        256.0,
        1e19,
        -1e19,
    ]
}

fn pairs() -> Vec<(f64, f64)> {
    let mut out = vec![];
    for a in edges() {
        for b in edges() {
            out.push((a, b));
        }
    }
    let mut seed = 7;
    for _ in 0..4000 {
        let a = scatter(&mut seed);
        let b = scatter(&mut seed);
        out.push((f64::from_bits(a), f64::from_bits(b)));
        // Near in size, so that digits cancel and round.
        let near = (a & 0x800f_ffff_ffff_ffff) | 0x3ff0_0000_0000_0000;
        let other = (b & 0x800f_ffff_ffff_ffff) | (0x3fe0_0000_0000_0000 + ((b >> 4) & 0x40) * 0x0010_0000_0000_0000);
        out.push((f64::from_bits(near), f64::from_bits(other)));
    }
    out
}

#[test]
fn sums_products_and_quotients_round_like_the_machine() {
    for (a, b) in pairs() {
        assert!(same(n(a).plus(n(b)), a + b), "{a:e} + {b:e}");
        assert!(same(n(a).minus(n(b)), a - b), "{a:e} - {b:e}");
        assert!(same(n(a).times(n(b)), a * b), "{a:e} * {b:e}");
        assert!(same(n(a).over(n(b)), a / b), "{a:e} / {b:e}");
    }
}

#[test]
fn remainders_follow_the_machine() {
    for (a, b) in pairs() {
        assert!(same(n(a).rem(n(b)), a % b), "{a:e} % {b:e}");
    }
    for (a, b) in [(7.5, 2.0), (-7.5, 2.0), (-0.25, 10.0), (30.0, 10.0), (-30.0, 10.0), (5.0, -3.0)] {
        assert!(same(n(a).rem_euclid(n(b)), a.rem_euclid(b)), "{a} mod {b}");
    }
}

#[test]
fn comparisons_follow_the_machine() {
    for (a, b) in pairs() {
        assert_eq!(n(a).lt(n(b)), a < b, "{a:e} < {b:e}");
        assert_eq!(n(a).le(n(b)), a <= b, "{a:e} <= {b:e}");
        assert_eq!(n(a).same(n(b)), a == b, "{a:e} == {b:e}");
        if a != 0.0 || b != 0.0 {
            assert!(same(n(a).min(n(b)), a.min(b)), "min {a:e} {b:e}");
            assert!(same(n(a).max(n(b)), a.max(b)), "max {a:e} {b:e}");
        }
    }
    assert_eq!(f(n(5.0).clamp(n(0.0), n(1.0))), 1.0);
    assert_eq!(f(n(-5.0).clamp(n(0.0), n(1.0))), 0.0);
    assert!(f(n(f64::NAN).clamp(n(0.0), n(1.0))).is_nan());
}

#[test]
fn roundings_follow_the_machine() {
    for (a, _) in pairs() {
        assert!(same(n(a).floor(), a.floor()), "floor {a:e}");
        assert!(same(n(a).ceil(), a.ceil()), "ceil {a:e}");
        assert!(same(n(a).round(), a.round()), "round {a:e}");
        assert!(same(n(a).trunc(), a.trunc()), "trunc {a:e}");
        assert!(same(n(a).abs(), a.abs()), "abs {a:e}");
        assert!(same(n(a).neg(), -a) || a.is_nan(), "neg {a:e}");
        assert_eq!(n(a).to_u64(), a as u64, "{a:e} as u64");
        assert_eq!(n(a).to_i64(), a as i64, "{a:e} as i64");
        assert_eq!(n(a).to_u8(), a as u8, "{a:e} as u8");
        assert_eq!(n(a).is_finite(), a.is_finite());
        assert_eq!(n(a).is_nan(), a.is_nan());
    }
    for a in [2.5, -2.5, 0.1, 7.0, -0.0] {
        assert!(same(n(a).fract(), a.fract()), "fract {a}");
    }
}

#[test]
fn integers_become_the_nearest_double() {
    let mut seed = 11;
    for i in 0..2000u64 {
        let x = scatter(&mut seed) >> (i % 64);
        assert!(same(Num::from_u64(x), x as f64), "{x}");
        assert!(same(Num::from_i64(x as i64), x as i64 as f64), "{}", x as i64);
    }
    assert!(same(Num::from_wide(-1), -1.0));
    assert!(same(Num::from_wide(1 << 90), (1u128 << 90) as f64));
}

#[test]
fn square_roots_are_exact() {
    for (a, _) in pairs() {
        assert!(same(sqrt(n(a)), a.sqrt()), "sqrt {a:e}");
    }
}

fn close(a: Num, b: f64, what: &str) {
    let a = f(a);
    let error = (a - b).abs();
    assert!(
        error <= b.abs() * 1e-14 + 1e-15 || (a == b) || (a.is_nan() && b.is_nan()),
        "{what}: {a:e} for {b:e}"
    );
}

#[test]
fn curves_agree_with_the_machine() {
    let mut x = -20.0f64;
    while x < 20.0 {
        let (s, c) = sin_cos(n(x));
        close(s, x.sin(), "sin");
        close(c, x.cos(), "cos");
        close(to_radians(n(x)), x.to_radians(), "radians");
        close(exp(n(x)), x.exp(), "exp");
        if x > 0.0 {
            close(atan(n(x)), x.atan(), "atan");
            close(ln(n(x)), x.ln(), "ln");
            close(pow(n(x), n(0.4166)), x.powf(0.4166), "pow");
            close(pow(n(x), n(-3.5)), x.powf(-3.5), "pow");
        }
        if x.abs() < 1.5 {
            close(tan(n(x)), x.tan(), "tan");
        }
        if x.abs() <= 1.0 {
            close(acos(n(x)), x.acos(), "acos");
        }
        x += 0.0371;
    }
    assert_eq!(f(acos(n(-1.0))), std::f64::consts::PI);
    assert_eq!(f(acos(n(1.0))), 0.0);
    assert!(f(ln(n(-1.0))).is_nan());
    assert_eq!(f(ln(n(0.0))), f64::NEG_INFINITY);
    assert_eq!(f(exp(n(1000.0))), f64::INFINITY);
    assert_eq!(f(exp(n(-1000.0))), 0.0);
}

#[test]
fn doubles_print_in_their_shortest_form() {
    for a in edges() {
        assert_eq!(display(n(a)), format!("{a}"), "{a:e}");
    }
    for (a, b) in pairs().into_iter().skip(676).step_by(20) {
        assert_eq!(display(n(a)), format!("{a}"), "{a:e}");
        assert_eq!(display(n(b)), format!("{b}"), "{b:e}");
    }
}

#[test]
fn doubles_print_with_a_number_of_places() {
    for a in [0.0, -0.0, 0.5, 1.5, 2.5, 0.125, 1234.5678, -9.995, 1e20, f64::NAN, f64::INFINITY] {
        for places in 0..6 {
            assert_eq!(
                display_places(n(a), places),
                format!("{a:.0$}", places as usize),
                "{a} to {places}"
            );
        }
    }
}

#[test]
fn debug_output_marks_numbers_as_such() {
    for a in [
        0.0, -0.0, 1.0, -3.0, 0.1, 1e15, 1e16, 1.5e16, -2.5e20, 1e-4, 0.00012, 9.9e-5, 1e-5, -1.25e-7,
        1e300, 5e-324, f64::NAN, f64::INFINITY, f64::NEG_INFINITY, 123456.789,
    ] {
        assert_eq!(debug(n(a)), format!("{a:?}"), "{a:e}");
    }
}

#[test]
fn decimals_are_read_as_the_nearest_double() {
    let mut seed = 3;
    for i in 0..1500 {
        let digits = scatter(&mut seed) >> (i % 40);
        let e = (scatter(&mut seed) % 680) as i128 - 340;
        let want: f64 = format!("{digits}e{e}").parse().unwrap();
        assert!(
            same(from_decimal(false, &Big::from_u64(digits), e), want),
            "{digits}e{e}"
        );
    }
    assert!(same(from_decimal(true, &Big::from_u64(0), 5), -0.0));
    assert!(same(from_decimal(false, &Big::from_u64(1), -400), 0.0));
    assert!(same(from_decimal(true, &Big::from_u64(1), 400), f64::NEG_INFINITY));
}

#[test]
fn angles_keep_their_phase_far_out() {
    for x in [1.0e5, 123456.789, 1.0e9, -1.0e12, 1.0e15, 1.0e22, -3.7e100, 1.0e300, f64::MAX] {
        let (s, c) = cuelight::waves::sin_cos(n(x));
        assert!((f(s) - x.sin()).abs() < 1e-14, "sin {x:e}: {} {}", f(s), x.sin());
        assert!((f(c) - x.cos()).abs() < 1e-14, "cos {x:e}: {} {}", f(c), x.cos());
    }
    let (s, c) = cuelight::waves::sin_cos(n(f64::INFINITY));
    assert!(f(s).is_nan() && f(c).is_nan());
}
