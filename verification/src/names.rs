//! Values by name, kept in the order of their names.

use crate::text::{before, comes_before, lemma_before_chain, lemma_before_one_way, same_text};
use crate::value::Value;
use vstd::prelude::*;

verus! {

/// The value stored first under a name, or any other key.
pub open spec fn lookup<K, V>(entries: Seq<(K, V)>, name: K) -> Option<V>
    decreases entries.len(),
{
    if entries.len() == 0 {
        None
    } else if entries[0].0 == name {
        Some(entries[0].1)
    } else {
        lookup(entries.drop_first(), name)
    }
}

/// The entries with `name` set to `value`: replaced where the name is there, else put in at
/// its place in the order.
pub open spec fn inserted<V>(entries: Seq<(Seq<char>, V)>, name: Seq<char>, value: V) -> Seq<
    (Seq<char>, V),
>
    decreases entries.len(),
{
    if entries.len() == 0 {
        seq![(name, value)]
    } else if entries[0].0 == name {
        seq![(name, value)] + entries.drop_first()
    } else if before(name, entries[0].0) {
        seq![(name, value)] + entries
    } else {
        seq![entries[0]] + inserted(entries.drop_first(), name, value)
    }
}

/// The entries without `name`.
pub open spec fn removed<V>(entries: Seq<(Seq<char>, V)>, name: Seq<char>) -> Seq<(Seq<char>, V)> {
    entries.filter(other_than(name))
}

pub open spec fn other_than<V>(name: Seq<char>) -> spec_fn((Seq<char>, V)) -> bool {
    |e: (Seq<char>, V)| e.0 != name
}

/// The names rise strictly.
pub open spec fn ordered<V>(entries: Seq<(Seq<char>, V)>) -> bool {
    forall|i: int, j: int|
        0 <= i < j < entries.len() ==> before(#[trigger] entries[i].0, #[trigger] entries[j].0)
}

/// What was put under a name is found under it, and under every other name what was there
/// before.
pub proof fn lemma_stored<V>(
    entries: Seq<(Seq<char>, V)>,
    name: Seq<char>,
    value: V,
    other: Seq<char>,
)
    ensures
        lookup(inserted(entries, name, value), name) == Some(value),
        other != name ==> lookup(inserted(entries, name, value), other) == lookup(entries, other),
    decreases entries.len(),
{
    let all = inserted(entries, name, value);
    if entries.len() == 0 {
        assert(all.drop_first() =~= Seq::<(Seq<char>, V)>::empty());
        assert(lookup(all.drop_first(), other) is None);
    } else {
        let rest = entries.drop_first();
        if entries[0].0 == name {
            assert(all.drop_first() =~= rest);
        } else if before(name, entries[0].0) {
            assert(all.drop_first() =~= entries);
        } else {
            lemma_stored(rest, name, value, other);
            assert(all.drop_first() =~= inserted(rest, name, value));
        }
    }
}

/// What was taken out is found no more, and under every other name what was there before.
pub proof fn lemma_taken<V>(entries: Seq<(Seq<char>, V)>, name: Seq<char>, other: Seq<char>)
    ensures
        lookup(removed(entries, name), name) is None,
        other != name ==> lookup(removed(entries, name), other) == lookup(entries, other),
    decreases entries.len(),
{
    let keep = other_than(name);
    lemma_filter_first(entries, keep);
    if entries.len() > 0 {
        let rest = entries.drop_first();
        lemma_taken(rest, name, other);
        let left = rest.filter(keep);
        if keep(entries[0]) {
            let all = seq![entries[0]] + left;
            assert(all.drop_first() =~= left);
            assert(all[0] == entries[0]);
        }
    }
}

proof fn lemma_filter_first<T>(s: Seq<T>, keep: spec_fn(T) -> bool)
    ensures
        s.filter(keep) == (if s.len() == 0 {
            Seq::<T>::empty()
        } else if keep(s[0]) {
            seq![s[0]] + s.drop_first().filter(keep)
        } else {
            s.drop_first().filter(keep)
        }),
    decreases s.len(),
{
    reveal_with_fuel(Seq::filter, 2);
    if s.len() == 1 {
        assert(s.drop_last() =~= Seq::<T>::empty());
        assert(s.drop_first() =~= Seq::<T>::empty());
        assert(s.drop_first().filter(keep) =~= Seq::<T>::empty());
        assert(s.filter(keep) =~= if keep(s[0]) {
            seq![s[0]] + s.drop_first().filter(keep)
        } else {
            s.drop_first().filter(keep)
        });
    } else if s.len() > 1 {
        let most = s.drop_last();
        lemma_filter_first(most, keep);
        assert(most.drop_first() =~= s.drop_first().drop_last());
        assert(s.drop_first().last() == s.last());
        assert(s.filter(keep) =~= if keep(s[0]) {
            seq![s[0]] + s.drop_first().filter(keep)
        } else {
            s.drop_first().filter(keep)
        });
    } else {
        assert(s.filter(keep) =~= Seq::<T>::empty());
    }
}

/// An ordered list stays ordered when something is put in, and holds no name but the ones it
/// held and the one put in.
pub proof fn lemma_inserted<V>(entries: Seq<(Seq<char>, V)>, name: Seq<char>, value: V)
    requires
        ordered(entries),
    ensures
        ordered(inserted(entries, name, value)),
        forall|i: int|
            0 <= i < inserted(entries, name, value).len() ==> {
                let e = #[trigger] inserted(entries, name, value)[i];
                e.0 == name || exists|j: int| 0 <= j < entries.len() && entries[j].0 == e.0
            },
    decreases entries.len(),
{
    let all = inserted(entries, name, value);
    if entries.len() == 0 {
        assert(all[0].0 == name);
    } else {
        let first = entries[0];
        let rest = entries.drop_first();
        assert forall|i: int, j: int| 0 <= i < j < rest.len() implies before(
            #[trigger] rest[i].0,
            #[trigger] rest[j].0,
        ) by {
            assert(rest[i] == entries[i + 1] && rest[j] == entries[j + 1]);
        }
        if first.0 == name {
            assert(all.drop_first() =~= rest);
            assert forall|i: int| 0 <= i < all.len() implies {
                let e = #[trigger] all[i];
                e.0 == name || exists|j: int| 0 <= j < entries.len() && entries[j].0 == e.0
            } by {
                assert(all[i].0 == entries[i].0);
            }
        } else if before(name, first.0) {
            assert(all.drop_first() =~= entries);
            assert forall|i: int, j: int| 0 <= i < j < all.len() implies before(
                #[trigger] all[i].0,
                #[trigger] all[j].0,
            ) by {
                if i == 0 {
                    if j > 1 {
                        lemma_before_chain(name, first.0, entries[j - 1].0);
                    }
                } else {
                    assert(all[i] == entries[i - 1] && all[j] == entries[j - 1]);
                }
            }
            assert forall|i: int| 0 <= i < all.len() implies {
                let e = #[trigger] all[i];
                e.0 == name || exists|j: int| 0 <= j < entries.len() && entries[j].0 == e.0
            } by {
                if i > 0 {
                    assert(all[i].0 == entries[i - 1].0);
                }
            }
        } else {
            lemma_inserted(rest, name, value);
            let tail = inserted(rest, name, value);
            assert(all.drop_first() =~= tail);
            lemma_before_one_way(name, first.0);
            assert forall|i: int, j: int| 0 <= i < j < all.len() implies before(
                #[trigger] all[i].0,
                #[trigger] all[j].0,
            ) by {
                if i == 0 {
                    let e = tail[j - 1];
                    if e.0 != name {
                        let k = choose|k: int| 0 <= k < rest.len() && rest[k].0 == e.0;
                        assert(rest[k] == entries[k + 1]);
                    }
                } else {
                    assert(all[i] == tail[i - 1] && all[j] == tail[j - 1]);
                }
            }
            assert forall|i: int| 0 <= i < all.len() implies {
                let e = #[trigger] all[i];
                e.0 == name || exists|j: int| 0 <= j < entries.len() && entries[j].0 == e.0
            } by {
                if i > 0 {
                    let e = tail[i - 1];
                    if e.0 != name {
                        let k = choose|k: int| 0 <= k < rest.len() && rest[k].0 == e.0;
                        assert(entries[k + 1].0 == e.0);
                    }
                }
            }
        }
    }
}

pub(crate) proof fn lemma_lookup_skip<K, V>(entries: Seq<(K, V)>, name: K, n: nat)
    requires
        n <= entries.len(),
        forall|i: int| 0 <= i < n ==> #[trigger] entries[i].0 != name,
    ensures
        lookup(entries, name) == lookup(entries.skip(n as int), name),
    decreases n,
{
    if n == 0 {
        assert(entries.skip(0) =~= entries);
    } else {
        assert(entries[0].0 != name);
        let rest = entries.drop_first();
        assert forall|i: int| 0 <= i < n - 1 implies #[trigger] rest[i].0 != name by {
            assert(rest[i] == entries[i + 1]);
        }
        lemma_lookup_skip(rest, name, (n - 1) as nat);
        assert(rest.skip(n - 1) =~= entries.skip(n as int));
    }
}

proof fn lemma_inserted_skip<V>(
    entries: Seq<(Seq<char>, V)>,
    name: Seq<char>,
    value: V,
    n: nat,
)
    requires
        n <= entries.len(),
        forall|i: int|
            0 <= i < n ==> #[trigger] entries[i].0 != name && !before(name, entries[i].0),
    ensures
        inserted(entries, name, value) == entries.take(n as int) + inserted(
            entries.skip(n as int),
            name,
            value,
        ),
    decreases n,
{
    if n == 0 {
        assert(entries.skip(0) =~= entries);
        assert(entries.take(0) + inserted(entries, name, value) =~= inserted(entries, name, value));
    } else {
        assert(entries[0].0 != name);
        let rest = entries.drop_first();
        assert forall|i: int| 0 <= i < n - 1 implies #[trigger] rest[i].0 != name && !before(
            name,
            rest[i].0,
        ) by {
            assert(rest[i] == entries[i + 1]);
        }
        lemma_inserted_skip(rest, name, value, (n - 1) as nat);
        assert(rest.skip(n - 1) =~= entries.skip(n as int));
        assert(entries.take(n as int) =~= seq![entries[0]] + rest.take(n - 1));
        assert(inserted(entries, name, value) =~= entries.take(n as int) + inserted(
            entries.skip(n as int),
            name,
            value,
        ));
    }
}

/// Values by name. Iteration goes in the order of the names.
#[derive(Debug, PartialEq)]
pub struct NameMap<V> {
    entries: Vec<(String, V)>,
}

impl<V: View> View for NameMap<V> {
    type V = Seq<(Seq<char>, V::V)>;

    closed spec fn view(&self) -> Seq<(Seq<char>, V::V)> {
        self.entries@.map_values(|e: (String, V)| (e.0@, e.1@))
    }
}

impl<V: View> NameMap<V> {
    /// The stored value at a position.
    pub closed spec fn stored(&self, i: int) -> V {
        self.entries@[i].1
    }

    pub fn new() -> (r: NameMap<V>)
        ensures
            r@ == Seq::<(Seq<char>, V::V)>::empty(),
            ordered(r@),
    {
        let r = NameMap { entries: Vec::new() };
        assert(r@ =~= Seq::<(Seq<char>, V::V)>::empty());
        r
    }

    /// How many names there are.
    pub fn len(&self) -> (n: usize)
        ensures
            n == self@.len(),
    {
        self.entries.len()
    }

    /// The name at position `i` of the order.
    pub fn name_at(&self, i: usize) -> (r: &String)
        requires
            i < self@.len(),
        ensures
            r@ == self@[i as int].0,
    {
        &self.entries[i].0
    }

    /// The value at position `i` of the order.
    pub fn value_at(&self, i: usize) -> (r: &V)
        requires
            i < self@.len(),
        ensures
            r@ == self@[i as int].1,
            *r == self.stored(i as int),
    {
        &self.entries[i].1
    }

    /// Where `name` stands, or the number of names.
    fn position(&self, name: &str) -> (i: usize)
        ensures
            i <= self@.len(),
            lookup(self@, name@) is Some == (i < self@.len()),
            i < self@.len() ==> self@[i as int].0 == name@ && lookup(self@, name@) == Some(
                self@[i as int].1,
            ),
            forall|j: int| 0 <= j < i ==> #[trigger] self@[j].0 != name@,
    {
        let mut i: usize = 0;
        while i < self.entries.len()
            invariant
                i <= self.entries.len(),
                forall|j: int| 0 <= j < i ==> #[trigger] self@[j].0 != name@,
            decreases self.entries.len() - i,
        {
            assert(self@[i as int].0 == self.entries@[i as int].0@);
            if same_text(self.entries[i].0.as_str(), name) {
                proof {
                    lemma_lookup_skip(self@, name@, i as nat);
                    assert(self@.skip(i as int)[0] == self@[i as int]);
                }
                return i;
            }
            i = i + 1;
        }
        proof {
            lemma_lookup_skip(self@, name@, i as nat);
            assert(self@.skip(i as int).len() == 0);
        }
        i
    }

    /// The value under `name`.
    pub fn get(&self, name: &str) -> (r: Option<&V>)
        ensures
            match r {
                Some(v) => lookup(self@, name@) == Some(v@),
                None => lookup(self@, name@) is None,
            },
    {
        let i: usize = self.position(name);
        if i < self.entries.len() {
            Some(&self.entries[i].1)
        } else {
            None
        }
    }

    /// Whether there is a value under `name`.
    pub fn contains(&self, name: &str) -> (r: bool)
        ensures
            r == lookup(self@, name@) is Some,
    {
        self.position(name) < self.entries.len()
    }

    /// Sets the value under `name`.
    pub fn insert(&mut self, name: String, value: V)
        ensures
            final(self)@ == inserted(old(self)@, name@, value@),
            ordered(old(self)@) ==> ordered(final(self)@),
    {
        proof {
            if ordered(self@) {
                lemma_inserted(self@, name@, value@);
            }
        }
        let mut i: usize = 0;
        while i < self.entries.len() && !same_text(self.entries[i].0.as_str(), name.as_str())
            && !comes_before(name.as_str(), self.entries[i].0.as_str())
            invariant
                i <= self.entries.len(),
                *self == *old(self),
                forall|j: int|
                    0 <= j < i ==> #[trigger] self@[j].0 != name@ && !before(name@, self@[j].0),
            decreases self.entries.len() - i,
        {
            i = i + 1;
        }
        let ghost was = self@;
        proof {
            lemma_inserted_skip(was, name@, value@, i as nat);
            if i < was.len() {
                assert(was.skip(i as int)[0] == was[i as int]);
            }
        }
        if i < self.entries.len() && same_text(self.entries[i].0.as_str(), name.as_str()) {
            let ghost n = name@;
            let ghost v = value@;
            self.entries[i] = (name, value);
            assert(was.skip(i as int).drop_first() =~= was.skip(i as int + 1));
            assert(self@ =~= was.take(i as int) + (seq![(n, v)] + was.skip(i as int + 1)));
        } else {
            let ghost n = name@;
            let ghost v = value@;
            self.entries.insert(i, (name, value));
            proof {
                if i < was.len() {
                    assert(self@ =~= was.take(i as int) + (seq![(n, v)] + was.skip(i as int)));
                } else {
                    assert(self@ =~= was.take(i as int) + seq![(n, v)]);
                }
            }
        }
    }

    /// Takes `name` out.
    pub fn remove(&mut self, name: &str)
        ensures
            final(self)@ == removed(old(self)@, name@),
    {
        let ghost was = self@;
        let ghost keep = other_than::<V::V>(name@);
        let mut i: usize = 0;
        let ghost mut done: int = 0;
        assert(was.take(0).filter(keep) =~= Seq::<(Seq<char>, V::V)>::empty()) by {
            reveal_with_fuel(Seq::filter, 1);
        }
        assert(self@ =~= was.take(0).filter(keep) + was.skip(0));
        while i < self.entries.len()
            invariant
                0 <= done <= was.len(),
                i == was.take(done).filter(keep).len(),
                self@ == was.take(done).filter(keep) + was.skip(done),
                keep == other_than::<V::V>(name@),
            decreases self.entries.len() - i,
        {
            let ghost here = self@;
            proof {
                assert(here.len() == i + (was.len() - done));
                assert(done < was.len());
                assert(here[i as int] == was.skip(done)[0]);
                assert(was.take(done + 1).drop_last() =~= was.take(done));
                assert(was.take(done + 1).last() == was[done]);
                reveal_with_fuel(Seq::filter, 2);
            }
            if same_text(self.entries[i].0.as_str(), name) {
                self.entries.remove(i);
                proof {
                    assert(self@ =~= here.remove(i as int));
                    assert(was.take(done + 1).filter(keep) =~= was.take(done).filter(keep));
                    assert(self@ =~= was.take(done + 1).filter(keep) + was.skip(done + 1));
                    done = done + 1;
                }
            } else {
                i = i + 1;
                proof {
                    assert(was.take(done + 1).filter(keep) =~= was.take(done).filter(keep).push(
                        was[done],
                    ));
                    assert(self@ =~= was.take(done + 1).filter(keep) + was.skip(done + 1));
                    done = done + 1;
                }
            }
        }
        proof {
            assert(done == was.len());
            assert(was.take(done) =~= was);
            assert(self@ =~= was.filter(keep));
        }
    }
}

impl NameMap<Value> {
    /// The same names and values again.
    pub fn copy(&self) -> (r: NameMap<Value>)
        ensures
            r@ == self@,
    {
        let mut entries: Vec<(String, Value)> = Vec::new();
        let mut i: usize = 0;
        while i < self.entries.len()
            invariant
                i <= self.entries.len(),
                entries@ == self.entries@.take(i as int),
            decreases self.entries.len() - i,
        {
            let e = &self.entries[i];
            entries.push((e.0.clone(), e.1.copy()));
            i = i + 1;
            assert(entries@ =~= self.entries@.take(i as int));
        }
        assert(entries@ =~= self.entries@);
        NameMap { entries }
    }
}

} // verus!
