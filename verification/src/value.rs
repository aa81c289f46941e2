//! The values that a show and its host exchange, and how they read as text.

use crate::decimal::{
    display, display_places, display_text, from_decimal, padded, places_text, read_decimal,
};
use crate::big::Big;
use crate::num::{
    abs_of, equal, less, num, opposite_of, product_of, quotient_of, round_of, sum_of, to_i64_of,
    to_u64_of, trunc_of, Num, INFINITE,
};
use crate::text::{
    chars_of, decimal, decimal_of, digit_of, owned, signed_decimal, signed_decimal_of, text_of,
};
use crate::waves::ONE;
use vstd::prelude::*;

verus! {

/// 1e15: whole numbers below it are printed as integers.
pub const INTEGER_LIMIT: u64 = 0x430C_6BF5_2634_0000;

/// A value a host can push into the engine, and the type show variables hold.
#[derive(Debug, PartialEq)]
pub enum Value {
    Bool(bool),
    Number(Num),
    Text(String),
}

/// What a [`Value`] holds, as plain data.
pub ghost enum Held {
    Bool(bool),
    Number(Num),
    Text(Seq<char>),
}

impl View for Value {
    type V = Held;

    open spec fn view(&self) -> Held {
        match self {
            Value::Bool(b) => Held::Bool(*b),
            Value::Number(n) => Held::Number(*n),
            Value::Text(t) => Held::Text(t@),
        }
    }
}

impl Held {
    /// The value as a number: booleans as 0 and 1, text as 0.
    pub open spec fn number(self) -> Num {
        match self {
            Held::Bool(b) => if b {
                num(ONE)
            } else {
                num(0)
            },
            Held::Number(n) => n,
            Held::Text(_) => num(0),
        }
    }

    /// The value as text.
    pub open spec fn text(self) -> Seq<char> {
        match self {
            Held::Bool(b) => if b {
                "true"@
            } else {
                "false"@
            },
            Held::Number(n) => format_text(NumberFormat::Plain, n, None),
            Held::Text(t) => t,
        }
    }

    /// Equal as values: numbers as numbers are.
    pub open spec fn same(self, other: Held) -> bool {
        match (self, other) {
            (Held::Bool(a), Held::Bool(b)) => a == b,
            (Held::Number(a), Held::Number(b)) => equal(a, b),
            (Held::Text(a), Held::Text(b)) => a == b,
            _ => false,
        }
    }
}

impl Value {
    /// Numeric view of the value, used by property bindings. Booleans read as 0 and 1; text
    /// reads as 0.
    pub fn as_number(&self) -> (r: Num)
        ensures
            r == self@.number(),
    {
        match self {
            Value::Bool(b) => {
                if *b {
                    num(ONE)
                } else {
                    num(0)
                }
            },
            Value::Number(n) => *n,
            Value::Text(_) => num(0),
        }
    }

    /// Text view of the value: text as is, booleans as `true` and `false`, numbers in their
    /// shortest form (`2`, `2.5`).
    pub fn to_text(&self) -> (r: String)
        ensures
            r@ == self@.text(),
    {
        match self {
            Value::Bool(b) => {
                if *b {
                    owned("true")
                } else {
                    owned("false")
                }
            },
            Value::Number(n) => NumberFormat::Plain.format(*n, None),
            Value::Text(t) => t.clone(),
        }
    }

    /// The same value again.
    pub fn copy(&self) -> (r: Value)
        ensures
            r == *self,
    {
        match self {
            Value::Bool(b) => Value::Bool(*b),
            Value::Number(n) => Value::Number(*n),
            Value::Text(t) => Value::Text(t.clone()),
        }
    }

    /// Whether two values are equal.
    pub fn same(&self, other: &Value) -> (r: bool)
        ensures
            r == self@.same(other@),
    {
        match (self, other) {
            (Value::Bool(a), Value::Bool(b)) => *a == *b,
            (Value::Number(a), Value::Number(b)) => a.same(*b),
            (Value::Text(a), Value::Text(b)) => *a == *b,
            _ => false,
        }
    }
}

impl From<Num> for Value {
    fn from(v: Num) -> (r: Value) {
        Value::Number(v)
    }
}

impl vstd::std_specs::convert::FromSpecImpl<Num> for Value {
    open spec fn obeys_from_spec() -> bool {
        true
    }

    open spec fn from_spec(v: Num) -> Value {
        Value::Number(v)
    }
}

impl From<bool> for Value {
    fn from(v: bool) -> (r: Value) {
        Value::Bool(v)
    }
}

impl vstd::std_specs::convert::FromSpecImpl<bool> for Value {
    open spec fn obeys_from_spec() -> bool {
        true
    }

    open spec fn from_spec(v: bool) -> Value {
        Value::Bool(v)
    }
}

impl From<String> for Value {
    fn from(v: String) -> (r: Value) {
        Value::Text(v)
    }
}

impl vstd::std_specs::convert::FromSpecImpl<String> for Value {
    open spec fn obeys_from_spec() -> bool {
        true
    }

    open spec fn from_spec(v: String) -> Value {
        Value::Text(v)
    }
}

/// Number to text conversion for text bindings.
#[derive(Clone, Copy, Debug, PartialEq, Eq, Structural)]
pub enum NumberFormat {
    /// Shortest form: `1500`, `2.5`.
    Plain,
    /// Rounded to an integer with comma thousands separators: `1,500`.
    Thousands,
}

impl Default for NumberFormat {
    fn default() -> (r: NumberFormat)
        ensures
            r == NumberFormat::Plain,
    {
        NumberFormat::Plain
    }
}

/// A whole number with a comma before every three digits counted from the end.
pub open spec fn grouped(n: nat) -> Seq<char>
    decreases n,
{
    if n < 1000 {
        decimal(n)
    } else {
        grouped(n / 1000).push(',') + padded(n % 1000, 3)
    }
}

/// Ten to the power `places`; infinite past the largest double.
pub open spec fn ten_to(places: nat) -> Num {
    if places > 308 {
        num(INFINITE)
    } else {
        read_decimal(false, 1, places as int)
    }
}

/// A number rounded to its last shown place, without the sign of a zero.
pub open spec fn quantized(n: Num, places: nat) -> Num {
    let scale = ten_to(places);
    let r = quotient_of(round_of(product_of(n, scale)), scale);
    if equal(r, num(0)) {
        num(0)
    } else {
        r
    }
}

/// Whole and small enough to be printed as an integer.
pub open spec fn prints_whole(n: Num) -> bool {
    equal(sum_of(n, opposite_of(trunc_of(n))), num(0)) && less(abs_of(n), num(INTEGER_LIMIT))
}

/// A number as text, to `decimals` places when asked for.
#[verifier::opaque]
pub open spec fn format_text(format: NumberFormat, n: Num, decimals: Option<u32>) -> Seq<char> {
    match (decimals, format) {
        (None, NumberFormat::Plain) => if prints_whole(n) {
            signed_decimal(to_i64_of(n) as int)
        } else {
            display_text(n)
        },
        (None, NumberFormat::Thousands) => {
            let digits = grouped(to_u64_of(abs_of(round_of(n))) as nat);
            if less(round_of(n), num(0)) {
                seq!['-'] + digits
            } else {
                digits
            }
        },
        (Some(places), NumberFormat::Plain) => places_text(
            quantized(n, places as nat),
            places as nat,
        ),
        (Some(places), NumberFormat::Thousands) => {
            let q = quantized(n, places as nat);
            let abs = abs_of(q);
            let sign = if less(q, num(0)) {
                seq!['-']
            } else {
                Seq::empty()
            };
            let whole = grouped(to_u64_of(trunc_of(abs)) as nat);
            let fraction = places_text(
                sum_of(abs, opposite_of(trunc_of(abs))),
                places as nat,
            );
            if places == 0 {
                sign + whole
            } else {
                sign + whole + behind_first(fraction)
            }
        },
    }
}

/// All but the first character.
pub open spec fn behind_first(s: Seq<char>) -> Seq<char> {
    if s.len() == 0 {
        s
    } else {
        s.drop_first()
    }
}

impl NumberFormat {
    /// `n` as text, to `decimals` places when asked for.
    pub fn format(self, n: Num, decimals: Option<u32>) -> (r: String)
        ensures
            r@ == format_text(self, n, decimals),
    {
        let places: u32 = match decimals {
            Some(places) => places,
            None => {
                return self.format_short(n);
            },
        };
        proof {
            reveal(format_text);
        }
        let scale = if places > 308 {
            num(INFINITE)
        } else {
            from_decimal(false, &Big::from_u64(1), places as i128)
        };
        let r = n.times(scale).round().over(scale);
        let q = if r.same(num(0)) {
            num(0)
        } else {
            r
        };
        match self {
            NumberFormat::Plain => display_places(q, places),
            NumberFormat::Thousands => {
                let abs = q.abs();
                let mut out = String::new();
                if q.lt(num(0)) {
                    out.push('-');
                }
                let ghost sign = out@;
                let whole = NumberFormat::group(abs.trunc().to_u64());
                out.append(whole.as_str());
                if places != 0 {
                    let fraction = chars_of(display_places(abs.fract(), places).as_str());
                    if fraction.len() > 0 {
                        let rest = text_of(fraction.as_slice(), 1, fraction.len());
                        out.append(rest.as_str());
                        assert(rest@ =~= fraction@.drop_first());
                    } else {
                        assert(out@ =~= sign + whole@ + fraction@);
                    }
                }
                assert(sign =~= if less(q, num(0)) {
                    seq!['-']
                } else {
                    Seq::empty()
                });
                out
            },
        }
    }

    /// The comma-grouped digits of a whole number.
    pub fn group(whole: u64) -> (r: String)
        ensures
            r@ == grouped(whole as nat),
        decreases whole,
    {
        if whole < 1000 {
            decimal_of(whole)
        } else {
            let mut out = NumberFormat::group(whole / 1000);
            let ghost high = out@;
            let low: u64 = whole % 1000;
            out.push(',');
            out.push(digit_of((low / 100) as u8));
            out.push(digit_of((low / 10 % 10) as u8));
            out.push(digit_of((low % 10) as u8));
            proof {
                reveal_with_fuel(padded, 4);
                assert(low as nat / 10 / 10 == low as nat / 100);
                assert(low / 100 % 10 == low / 100);
                assert(out@ =~= high.push(',') + padded(low as nat, 3));
            }
            out
        }
    }

    fn format_short(self, n: Num) -> (r: String)
        ensures
            r@ == format_text(self, n, None),
    {
        proof {
            reveal(format_text);
        }
        match self {
            NumberFormat::Plain => {
                if n.fract().same(num(0)) && n.abs().lt(num(INTEGER_LIMIT)) {
                    signed_decimal_of(n.to_i64())
                } else {
                    display(n)
                }
            },
            NumberFormat::Thousands => {
                let digits = NumberFormat::group(n.round().abs().to_u64());
                if n.round().lt(num(0)) {
                    let mut out = String::new();
                    out.push('-');
                    out.append(digits.as_str());
                    assert(out@ =~= seq!['-'] + digits@);
                    out
                } else {
                    digits
                }
            },
        }
    }
}

} // verus!
