//! How numbers are written.

use crate::decimal::padded;
use crate::lists::{lemma_filter_none, lemma_filter_step};
use crate::text::{decimal, digit};
use crate::value::grouped;
use vstd::prelude::*;

verus! {

/// A text without its commas.
pub open spec fn uncommaed(s: Seq<char>) -> Seq<char> {
    s.filter(|c: char| c != ',')
}

proof fn lemma_pushed(s: Seq<char>, c: char)
    ensures
        uncommaed(s.push(c)) == (if c == ',' {
            uncommaed(s)
        } else {
            uncommaed(s).push(c)
        }),
        uncommaed(Seq::empty()) == Seq::<char>::empty(),
{
    let pred = |c: char| c != ',';
    let all = s.push(c);
    lemma_filter_step(all, pred, s.len() as int);
    assert(all.take(s.len() as int) =~= s);
    assert(all.take(all.len() as int) =~= all);
    lemma_filter_none(s, pred);
    assert(s.take(0) =~= Seq::<char>::empty());
}

/// The digits of a number as they are written have no commas in them.
proof fn lemma_decimal_plain(n: nat)
    ensures
        uncommaed(decimal(n)) == decimal(n),
        forall|i: int| 0 <= i < decimal(n).len() ==> #[trigger] decimal(n)[i] != ',',
        n < 1000 ==> decimal(n).len() <= 3,
        decimal(n).len() >= 1,
    decreases n,
{
    let one = digit(n % 10);
    assert(one != ',');
    if n < 10 {
        lemma_pushed(Seq::empty(), one);
        assert(Seq::<char>::empty().push(one) =~= decimal(n));
    } else {
        lemma_decimal_plain(n / 10);
        lemma_pushed(decimal(n / 10), one);
        if n < 1000 {
            reveal_with_fuel(decimal, 3);
        }
    }
}

/// Three more digits.
proof fn lemma_three_more(n: nat)
    requires
        n >= 1000,
    ensures
        decimal(n) == decimal(n / 1000) + padded(n % 1000, 3),
        padded(n % 1000, 3).len() == 3,
        forall|i: int| 0 <= i < 3 ==> #[trigger] padded(n % 1000, 3)[i] != ',',
{
    let r = n % 1000;
    reveal_with_fuel(padded, 4);
    assert(n / 10 >= 10 && n / 100 >= 10);
    assert(n / 10 / 10 == n / 100 && n / 100 / 10 == n / 1000);
    assert(r % 10 == n % 10 && r / 10 % 10 == n / 10 % 10 && r / 10 / 10 % 10 == n / 100 % 10);
    assert(decimal(n) == decimal(n / 10).push(digit(n % 10)));
    assert(decimal(n / 10) == decimal(n / 100).push(digit(n / 10 % 10)));
    assert(decimal(n / 100) == decimal(n / 1000).push(digit(n / 100 % 10)));
    assert(padded(r, 3) =~= seq![digit(n / 100 % 10), digit(n / 10 % 10), digit(n % 10)]);
    assert(decimal(n) =~= decimal(n / 1000) + padded(r, 3));
}

/// A number with its thousands apart is the number with commas put in: without them it reads as
/// the number does, and they stand before every three digits counted from the end, and nowhere
/// else.
pub proof fn lemma_thousands_apart(n: nat)
    ensures
        uncommaed(grouped(n)) == decimal(n),
        forall|i: int|
            0 <= i < grouped(n).len() ==> ((#[trigger] grouped(n)[i] == ',') == ((grouped(n).len()
                - 1 - i) % 4 == 3)),
        grouped(n)[0] != ',',
        grouped(n).len() >= 1,
    decreases n,
{
    let all = grouped(n);
    if n < 1000 {
        lemma_decimal_plain(n);
    } else {
        lemma_thousands_apart(n / 1000);
        lemma_three_more(n);
        let (before, three) = (grouped(n / 1000), padded(n % 1000, 3));
        let (a, b, c) = (three[0], three[1], three[2]);
        assert(all =~= before.push(',').push(a).push(b).push(c));
        lemma_pushed(before, ',');
        lemma_pushed(before.push(','), a);
        lemma_pushed(before.push(',').push(a), b);
        lemma_pushed(before.push(',').push(a).push(b), c);
        assert(decimal(n) =~= decimal(n / 1000).push(a).push(b).push(c));
        assert forall|i: int| 0 <= i < all.len() implies ((#[trigger] all[i] == ',') == ((all.len()
            - 1 - i) % 4 == 3)) by {
            if i < before.len() {
                assert(all[i] == before[i]);
            }
        }
    }
}

} // verus!
