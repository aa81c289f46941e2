//! Filtering a sequence one item at a time, and turning one around.

use vstd::prelude::*;

verus! {

pub proof fn lemma_filter_none<T>(s: Seq<T>, pred: spec_fn(T) -> bool)
    ensures
        s.take(0).filter(pred) == Seq::<T>::empty(),
{
    reveal_with_fuel(Seq::filter, 1);
    assert(s.take(0).filter(pred) =~= Seq::<T>::empty());
}

pub proof fn lemma_filter_step<T>(s: Seq<T>, pred: spec_fn(T) -> bool, i: int)
    requires
        0 <= i < s.len(),
    ensures
        s.take(i + 1).filter(pred) == (if pred(s[i]) {
            s.take(i).filter(pred).push(s[i])
        } else {
            s.take(i).filter(pred)
        }),
{
    reveal_with_fuel(Seq::filter, 2);
    assert(s.take(i + 1).drop_last() =~= s.take(i));
    assert(s.take(i + 1).last() == s[i]);
}

/// The items in the opposite order.
pub fn reversed<T>(list: Vec<T>) -> (r: Vec<T>)
    ensures
        r@ == list@.reverse(),
{
    let ghost all = list@;
    let mut list = list;
    let mut out: Vec<T> = Vec::new();
    assert(all =~= list@ + out@.reverse());
    while list.len() > 0
        invariant
            all == list@ + out@.reverse(),
        decreases list.len(),
    {
        if let Some(item) = list.pop() {
            out.push(item);
            assert(all =~= list@ + out@.reverse());
        }
    }
    assert(out@ =~= all.reverse());
    out
}

pub(crate) fn copy_bytes(bytes: &Vec<u8>) -> (r: Vec<u8>)
    ensures
        r@ == bytes@,
{
    let mut out: Vec<u8> = Vec::with_capacity(bytes.len());
    let mut i: usize = 0;
    while i < bytes.len()
        invariant
            i <= bytes.len(),
            out@ == bytes@.take(i as int),
        decreases bytes.len() - i,
    {
        out.push(bytes[i]);
        i = i + 1;
        assert(out@ =~= bytes@.take(i as int));
    }
    assert(out@ =~= bytes@);
    out
}

/// Whether something in a sequence meets a condition.
pub open spec fn some_is<T>(s: Seq<T>, pred: spec_fn(T) -> bool) -> bool {
    exists|i: int| 0 <= i < s.len() && pred(#[trigger] s[i])
}

/// The first item from `from` on that meets a condition.
pub open spec fn first_where<T>(s: Seq<T>, pred: spec_fn(T) -> bool, from: int) -> Option<int>
    decreases s.len() - from,
{
    if from < 0 || from >= s.len() {
        None
    } else if pred(s[from]) {
        Some(from)
    } else {
        first_where(s, pred, from + 1)
    }
}

/// The first item found meets the condition, and none before it does.
pub proof fn lemma_first_where<T>(s: Seq<T>, pred: spec_fn(T) -> bool, from: int)
    requires
        0 <= from <= s.len(),
    ensures
        match first_where(s, pred, from) {
            Some(i) => from <= i < s.len() && pred(s[i]) && forall|j: int|
                from <= j < i ==> !pred(#[trigger] s[j]),
            None => forall|j: int| from <= j < s.len() ==> !pred(#[trigger] s[j]),
        },
    decreases s.len() - from,
{
    if from < s.len() && !pred(s[from]) {
        lemma_first_where(s, pred, from + 1);
    }
}

} // verus!
