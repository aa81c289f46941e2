//! Doubles in the form that debugging output gives them.

use crate::decimal::{display, display_text};
use crate::num::{abs_of, less, num, Num};
use crate::text::{chars_of, decimal, decimal_of, text_of};
use vstd::prelude::*;

verus! {

/// A number in its debug form from here on is written with an exponent: 1e16.
pub const LONG: u64 = 0x4341_C379_37E0_8000;

/// A number in its debug form below this is written with an exponent: 1e-4.
pub const TINY: u64 = 0x3F1A_36E2_EB1C_432D;

/// How many zeros a text starts with.
pub open spec fn leading_zeros(s: Seq<char>) -> nat
    decreases s.len(),
{
    if s.len() == 0 || s[0] != '0' {
        0
    } else {
        1 + leading_zeros(s.skip(1))
    }
}

/// A text without the zeros at its end.
pub open spec fn unpadded(s: Seq<char>) -> Seq<char>
    decreases s.len(),
{
    if s.len() == 0 || s.last() != '0' {
        s
    } else {
        unpadded(s.drop_last())
    }
}

/// Digits with a point behind the first one.
pub open spec fn mantissa(d: Seq<char>) -> Seq<char> {
    if d.len() <= 1 {
        d
    } else {
        d.take(1) + "."@ + d.skip(1)
    }
}

/// The digits of a number as a mantissa and an exponent.
pub open spec fn with_exponent(body: Seq<char>) -> Seq<char> {
    if body.contains('.') {
        let fraction = if body.len() < 2 {
            Seq::empty()
        } else {
            body.skip(2)
        };
        let z = leading_zeros(fraction);
        mantissa(fraction.skip(z as int)) + "e-"@ + decimal(z + 1)
    } else {
        mantissa(unpadded(body)) + "e"@ + decimal(
            if body.len() == 0 {
                0
            } else {
                (body.len() - 1) as nat
            },
        )
    }
}

/// A number in its debug form: always with a point or an exponent.
pub open spec fn debug_text(x: Num) -> Seq<char> {
    let plain = display_text(x);
    if !x.finite() {
        plain
    } else if x.zero() || (!less(abs_of(x), num(TINY)) && less(abs_of(x), num(LONG))) {
        if plain.contains('.') {
            plain
        } else {
            plain + ".0"@
        }
    } else if plain.len() > 0 && plain[0] == '-' {
        "-"@ + with_exponent(plain.skip(1))
    } else {
        with_exponent(plain)
    }
}

fn push_mantissa(out: &mut String, d: &Vec<char>, from: usize, to: usize)
    requires
        from <= to <= d.len(),
    ensures
        final(out)@ == old(out)@ + mantissa(d@.subrange(from as int, to as int)),
{
    let ghost s = d@.subrange(from as int, to as int);
    let ghost before = out@;
    if to - from <= 1 {
        out.append(text_of(d.as_slice(), from, to).as_str());
    } else {
        out.append(text_of(d.as_slice(), from, from + 1).as_str());
        out.append(".");
        out.append(text_of(d.as_slice(), from + 1, to).as_str());
        assert(d@.subrange(from as int, from as int + 1) =~= s.take(1));
        assert(d@.subrange(from as int + 1, to as int) =~= s.skip(1));
        assert(out@ =~= before + mantissa(s));
    }
}

proof fn lemma_leading(s: Seq<char>, n: nat)
    requires
        n <= s.len(),
        forall|i: int| 0 <= i < n ==> s[i] == '0',
        n < s.len() ==> s[n as int] != '0',
    ensures
        leading_zeros(s) == n,
    decreases s.len(),
{
    if n > 0 {
        lemma_leading(s.skip(1), (n - 1) as nat);
    }
}

proof fn lemma_unpadded(s: Seq<char>, n: nat)
    requires
        n <= s.len(),
        forall|i: int| n <= i < s.len() ==> s[i] == '0',
        n > 0 ==> s[n - 1] != '0',
    ensures
        unpadded(s) == s.take(n as int),
    decreases s.len(),
{
    if n < s.len() {
        lemma_unpadded(s.drop_last(), n);
        assert(s.drop_last().take(n as int) =~= s.take(n as int));
    } else {
        assert(s.take(n as int) =~= s);
    }
}

fn has_dot(d: &Vec<char>, from: usize) -> (r: bool)
    requires
        from <= d.len(),
    ensures
        r == d@.skip(from as int).contains('.'),
{
    let ghost body = d@.skip(from as int);
    let mut i: usize = from;
    while i < d.len()
        invariant
            from <= i <= d.len(),
            body == d@.skip(from as int),
            forall|k: int| 0 <= k < i - from ==> body[k] != '.',
        decreases d.len() - i,
    {
        if d[i] == '.' {
            assert(body[i - from] == '.');
            return true;
        }
        i = i + 1;
    }
    false
}

fn push_exponent(out: &mut String, d: &Vec<char>, from: usize)
    requires
        from <= d.len(),
    ensures
        final(out)@ == old(out)@ + with_exponent(d@.skip(from as int)),
{
    let ghost before = out@;
    let ghost body = d@.skip(from as int);
    let len: usize = d.len();
    let dot = has_dot(d, from);
    if dot {
        let start: usize = if len - from < 2 {
            len
        } else {
            from + 2
        };
        let ghost fraction = if body.len() < 2 {
            Seq::empty()
        } else {
            body.skip(2)
        };
        assert(fraction =~= d@.skip(start as int));
        let mut z: usize = start;
        while z < len && d[z] == '0'
            invariant
                start <= z <= len,
                len == d.len(),
                fraction == d@.skip(start as int),
                forall|k: int| 0 <= k < z - start ==> fraction[k] == '0',
            decreases len - z,
        {
            z = z + 1;
        }
        proof {
            lemma_leading(fraction, (z - start) as nat);
            assert(d@.subrange(z as int, len as int) =~= fraction.skip(z - start));
        }
        push_mantissa(out, d, z, len);
        out.append("e-");
        let count: u64 = (z - start + 1) as u64;
        out.append(decimal_of(count).as_str());
        assert(out@ =~= before + with_exponent(body));
    } else {
        let mut end: usize = len;
        while end > from && d[end - 1] == '0'
            invariant
                from <= end <= len,
                len == d.len(),
                body == d@.skip(from as int),
                forall|k: int| end - from <= k < body.len() ==> body[k] == '0',
            decreases end,
        {
            end = end - 1;
        }
        proof {
            lemma_unpadded(body, (end - from) as nat);
            assert(d@.subrange(from as int, end as int) =~= body.take(end - from));
        }
        push_mantissa(out, d, from, end);
        out.append("e");
        let count: u64 = if len == from {
            0
        } else {
            (len - from - 1) as u64
        };
        out.append(decimal_of(count).as_str());
        assert(out@ =~= before + with_exponent(body));
    }
}

/// The debug form of a number, as in `1.0`, `0.25` or `1e16`.
pub fn debug(x: Num) -> (r: String)
    ensures
        r@ == debug_text(x),
{
    let mut plain = display(x);
    if !x.is_finite() {
        return plain;
    }
    let d = chars_of(plain.as_str());
    let size = x.abs();
    if x.is_zero() || (!size.lt(num(TINY)) && size.lt(num(LONG))) {
        assert(d@.skip(0) =~= plain@);
        if has_dot(&d, 0) {
            return plain;
        }
        plain.append(".0");
        return plain;
    }
    let mut out = String::new();
    if d.len() > 0 && d[0] == '-' {
        out.append("-");
        assert(out@ =~= "-"@);
        push_exponent(&mut out, &d, 1);
    } else {
        assert(d@.skip(0) =~= d@);
        push_exponent(&mut out, &d, 0);
        assert(out@ =~= with_exponent(d@));
    }
    out
}

} // verus!
