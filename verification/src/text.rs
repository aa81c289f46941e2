//! Strings as sequences of characters: comparing, building and printing them.

use vstd::prelude::*;

verus! {

/// `String::push` adds one character at the end.
pub assume_specification[ String::push ](s: &mut String, c: char)
    ensures
        final(s)@ == old(s)@.push(c),
;

/// `==` of two `str`: they hold the same characters.
#[verifier::external_body]
pub(crate) fn same_text(a: &str, b: &str) -> (r: bool)
    ensures
        r == (a@ == b@),
{
    a == b
}

/// What a string shows as inside quotes, with its special characters escaped.
pub uninterp spec fn quoted_text(s: Seq<char>) -> Seq<char>;

/// `format!` with `{:?}` of a `str`: the string in double quotes, escaped. The text is a
/// function of the string alone.
#[verifier::external_body]
pub(crate) fn quoted(s: &str) -> (r: String)
    ensures
        r@ == quoted_text(s@),
{
    format!("{:?}", s)
}

/// The characters of a string.
pub fn chars_of(s: &str) -> (r: Vec<char>)
    ensures
        r@ == s@,
{
    let mut out: Vec<char> = Vec::new();
    for c in it: s.chars()
        invariant
            out@ == it.seq().take(it.index() as int),
            it.seq() == s@,
    {
        out.push(c);
        assert(out@ =~= it.seq().take(it.index() as int + 1));
    }
    assert(out@ =~= s@);
    out
}

/// A string of the characters from `from` up to `to`.
pub fn text_of(chars: &[char], from: usize, to: usize) -> (r: String)
    requires
        from <= to <= chars.len(),
    ensures
        r@ == chars@.subrange(from as int, to as int),
{
    let mut out = String::new();
    let mut i: usize = from;
    assert(out@ =~= chars@.subrange(from as int, from as int));
    while i < to
        invariant
            from <= i <= to <= chars.len(),
            out@ == chars@.subrange(from as int, i as int),
        decreases to - i,
    {
        out.push(chars[i]);
        i = i + 1;
        assert(out@ =~= chars@.subrange(from as int, i as int));
    }
    out
}

/// A copy of a string slice.
pub fn owned(s: &str) -> (r: String)
    ensures
        r@ == s@,
{
    let mut out = String::new();
    out.append(s);
    assert(out@ =~= s@);
    out
}

/// `a` and then `b`.
pub fn joined(a: &str, b: &str) -> (r: String)
    ensures
        r@ == a@ + b@,
{
    let mut out = owned(a);
    out.append(b);
    out
}

/// `a` comes strictly before `b` in the order of characters.
pub open spec fn before(a: Seq<char>, b: Seq<char>) -> bool
    decreases a.len(),
{
    if b.len() == 0 {
        false
    } else if a.len() == 0 {
        true
    } else if a[0] == b[0] {
        before(a.drop_first(), b.drop_first())
    } else {
        (a[0] as int) < (b[0] as int)
    }
}

proof fn lemma_before_skip(a: Seq<char>, b: Seq<char>, n: nat)
    requires
        n <= a.len(),
        n <= b.len(),
        a.take(n as int) == b.take(n as int),
    ensures
        before(a, b) == before(a.skip(n as int), b.skip(n as int)),
    decreases n,
{
    if n == 0 {
        assert(a.skip(0) =~= a && b.skip(0) =~= b);
    } else {
        let m = n as int;
        assert(a[0] == a.take(m)[0] && b[0] == b.take(m)[0]);
        let a1 = a.drop_first();
        let b1 = b.drop_first();
        assert(a1.take(m - 1) =~= a.take(m).drop_first());
        assert(b1.take(m - 1) =~= b.take(m).drop_first());
        lemma_before_skip(a1, b1, (n - 1) as nat);
        assert(a1.skip(m - 1) =~= a.skip(m));
        assert(b1.skip(m - 1) =~= b.skip(m));
    }
}

/// A string comes before no string that comes before it, and never before itself.
pub proof fn lemma_before_one_way(a: Seq<char>, b: Seq<char>)
    ensures
        before(a, b) ==> !before(b, a) && a != b,
        !before(a, b) && !before(b, a) ==> a == b,
    decreases a.len(),
{
    if a.len() > 0 && b.len() > 0 && a[0] == b[0] {
        lemma_before_one_way(a.drop_first(), b.drop_first());
        if a.drop_first() == b.drop_first() {
            assert(a =~= seq![a[0]] + a.drop_first());
            assert(b =~= seq![b[0]] + b.drop_first());
        }
    } else if a.len() == 0 && b.len() == 0 {
        assert(a =~= b);
    } else if a.len() > 0 && b.len() > 0 {
        assert(a[0] as int != b[0] as int);
    }
}

/// The order of strings is transitive.
pub proof fn lemma_before_chain(a: Seq<char>, b: Seq<char>, c: Seq<char>)
    requires
        before(a, b),
        before(b, c),
    ensures
        before(a, c),
    decreases a.len(),
{
    if a.len() > 0 && a[0] == b[0] && b[0] == c[0] {
        lemma_before_chain(a.drop_first(), b.drop_first(), c.drop_first());
    }
}

/// The code point of a character.
pub fn code_of(c: char) -> (n: u32)
    ensures
        n == c as int,
{
    c as u32
}

/// Executable [`before`].
pub fn comes_before(a: &str, b: &str) -> (r: bool)
    ensures
        r == before(a@, b@),
{
    let x = chars_of(a);
    let y = chars_of(b);
    let mut i: usize = 0;
    assert(x@.take(0) =~= y@.take(0));
    while i < x.len() && i < y.len() && x[i] == y[i]
        invariant
            i <= x.len(),
            i <= y.len(),
            x@.take(i as int) == y@.take(i as int),
        decreases x.len() - i,
    {
        assert(x@.take(i as int + 1) =~= x@.take(i as int).push(x@[i as int]));
        assert(y@.take(i as int + 1) =~= y@.take(i as int).push(y@[i as int]));
        i = i + 1;
    }
    proof {
        lemma_before_skip(x@, y@, i as nat);
        if i < x.len() {
            assert(x@.skip(i as int)[0] == x@[i as int]);
        }
        if i < y.len() {
            assert(y@.skip(i as int)[0] == y@[i as int]);
        }
    }
    if i >= y.len() {
        false
    } else if i >= x.len() {
        true
    } else {
        code_of(x[i]) < code_of(y[i])
    }
}

/// The decimal digit `d`.
pub open spec fn digit(d: nat) -> char {
    (d + 48) as char
}

/// A whole number in decimal.
pub open spec fn decimal(n: nat) -> Seq<char>
    decreases n,
{
    if n < 10 {
        seq![digit(n)]
    } else {
        decimal(n / 10).push(digit(n % 10))
    }
}

/// Executable [`digit`].
pub fn digit_of(d: u8) -> (c: char)
    requires
        d < 10,
    ensures
        c == digit(d as nat),
{
    (d + 48) as char
}

/// A whole number in decimal.
pub fn decimal_of(n: u64) -> (r: String)
    ensures
        r@ == decimal(n as nat),
    decreases n,
{
    if n < 10 {
        let mut out = String::new();
        out.push(digit_of(n as u8));
        assert(out@ =~= seq![digit(n as nat)]);
        out
    } else {
        let mut out = decimal_of(n / 10);
        out.push(digit_of((n % 10) as u8));
        out
    }
}

/// A whole number of either sign in decimal.
pub open spec fn signed_decimal(n: int) -> Seq<char> {
    if n < 0 {
        seq!['-'] + decimal((-n) as nat)
    } else {
        decimal(n as nat)
    }
}

/// Executable [`signed_decimal`].
pub fn signed_decimal_of(n: i64) -> (r: String)
    ensures
        r@ == signed_decimal(n as int),
{
    if n < 0 {
        let abs: u64 = (-(n as i128)) as u64;
        let mut out = String::new();
        out.push('-');
        let rest = decimal_of(abs);
        out.append(rest.as_str());
        assert(out@ =~= seq!['-'] + decimal((-n) as nat));
        out
    } else {
        decimal_of(n as u64)
    }
}

/// A number in decimal has a digit, and nothing but digits.
pub proof fn lemma_decimal_digits(n: nat)
    ensures
        decimal(n).len() > 0,
        forall|i: int| 0 <= i < decimal(n).len() ==> '0' <= #[trigger] decimal(n)[i] <= '9',
    decreases n,
{
    if n >= 10 {
        lemma_decimal_digits(n / 10);
    }
}

/// Two numbers with the same decimal form are the same.
pub proof fn lemma_decimal_one_to_one(a: nat, b: nat)
    requires
        decimal(a) == decimal(b),
    ensures
        a == b,
    decreases a,
{
    let s = decimal(a);
    if a >= 10 {
        lemma_decimal_digits(a / 10);
    }
    if b >= 10 {
        lemma_decimal_digits(b / 10);
    }
    assert(s.last() == digit(a % 10));
    assert(s.last() == digit(b % 10));
    assert(a % 10 == b % 10);
    if a >= 10 && b >= 10 {
        assert(decimal(a / 10) =~= s.drop_last());
        assert(decimal(b / 10) =~= s.drop_last());
        lemma_decimal_one_to_one(a / 10, b / 10);
    }
}

} // verus!
