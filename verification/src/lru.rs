//! A cache bounded by the bytes it holds, evicting least recently used.

use crate::text::same_text;
use vstd::prelude::*;

verus! {

/// What a value can be cached under.
pub trait CacheKey: View + Sized {
    /// Whether two keys are the same.
    fn same(&self, other: &Self) -> (r: bool)
        ensures
            r == (self@ == other@),
    ;
}

impl<'a> CacheKey for &'a str {
    fn same(&self, other: &Self) -> (r: bool) {
        same_text(*self, *other)
    }
}

impl CacheKey for String {
    fn same(&self, other: &Self) -> (r: bool) {
        same_text(self.as_str(), other.as_str())
    }
}

impl CacheKey for u64 {
    fn same(&self, other: &Self) -> (r: bool) {
        *self == *other
    }
}

/// One cached value.
#[derive(Debug)]
struct Entry<K, V> {
    key: K,
    value: V,
    bytes: usize,
}

/// A cache of values by key, each accounted as a number of bytes. The entries stand in the
/// order they were last used, the least recent one first.
#[derive(Debug)]
pub struct ByteLru<K, V> {
    entries: Vec<Entry<K, V>>,
    bytes: usize,
    budget: usize,
}

/// An entry of a cache, by value.
pub ghost struct Cached<K, V> {
    pub key: K,
    pub value: V,
    pub bytes: nat,
}

/// The bytes of some entries together.
pub open spec fn weight<K, V>(entries: Seq<Cached<K, V>>) -> nat
    decreases entries.len(),
{
    if entries.len() == 0 {
        0
    } else {
        entries[0].bytes + weight(entries.drop_first())
    }
}

/// Where a key stands among some entries.
pub open spec fn place<K, V>(entries: Seq<Cached<K, V>>, key: K, from: int) -> Option<int>
    decreases entries.len() - from,
{
    if from < 0 || from >= entries.len() {
        None
    } else if entries[from].key == key {
        Some(from)
    } else {
        place(entries, key, from + 1)
    }
}

/// The entries with the one at `i` used just now.
pub open spec fn touched<K, V>(entries: Seq<Cached<K, V>>, i: int) -> Seq<Cached<K, V>> {
    entries.remove(i).push(entries[i])
}

/// The entries without the least recently used ones, until they fit the budget or one is
/// left.
pub open spec fn evicted<K, V>(entries: Seq<Cached<K, V>>, budget: nat) -> Seq<Cached<K, V>>
    decreases entries.len(),
{
    if weight(entries) > budget && entries.len() > 1 {
        evicted(entries.drop_first(), budget)
    } else {
        entries
    }
}

/// The entries with a value stored under a key, as the one used last.
pub open spec fn stored<K, V>(entries: Seq<Cached<K, V>>, key: K, value: V, bytes: nat) -> Seq<
    Cached<K, V>,
> {
    without(entries, key).push(Cached { key, value, bytes })
}

/// The entries without the one under a key.
pub open spec fn without<K, V>(entries: Seq<Cached<K, V>>, key: K) -> Seq<Cached<K, V>> {
    match place(entries, key, 0) {
        Some(i) => entries.remove(i),
        None => entries,
    }
}

/// No key stands twice.
pub open spec fn distinct<K, V>(entries: Seq<Cached<K, V>>) -> bool {
    forall|i: int, j: int|
        0 <= i < j < entries.len() ==> (#[trigger] entries[i]).key != (#[trigger] entries[j]).key
}

/// The value under a key.
pub open spec fn found<K, V>(entries: Seq<Cached<K, V>>, key: K) -> Option<V> {
    match place(entries, key, 0) {
        Some(i) => Some(entries[i].value),
        None => None,
    }
}

/// What was stored under a key is found under it, and what is found under another key is what
/// was there before: storing evicts, and changes nothing else.
pub proof fn lemma_stored_found<K, V>(
    entries: Seq<Cached<K, V>>,
    key: K,
    value: V,
    bytes: nat,
    budget: nat,
    other: K,
)
    requires
        distinct(entries),
    ensures
        ({
            let now = evicted(stored(entries, key, value, bytes), budget);
            &&& distinct(now)
            &&& found(now, key) == Some(value)
            &&& other != key && found(now, other) is Some ==> found(now, other) == found(
                entries,
                other,
            )
        }),
{
    let rest = without(entries, key);
    let all = stored(entries, key, value, bytes);
    let now = evicted(all, budget);
    lemma_place(entries, key, 0);
    lemma_place(entries, other, 0);
    lemma_without(entries, key);
    lemma_evicted(all, budget);
    let gone = all.len() - now.len();
    assert forall|i: int| 0 <= i < now.len() implies #[trigger] now[i] == all[gone + i] by {}
    assert forall|i: int, j: int| 0 <= i < j < now.len() implies (#[trigger] now[i]).key
        != (#[trigger] now[j]).key by {
        assert(all[gone + i].key != all[gone + j].key);
    }
    lemma_place(now, key, 0);
    lemma_place(now, other, 0);
    assert(now.last().key == key);
    if other != key && found(now, other) is Some {
        let i = place(now, other, 0)->0;
        assert(now[i] == rest[gone + i]);
        match place(entries, key, 0) {
            Some(k) => {
                let j = if gone + i < k {
                    gone + i
                } else {
                    gone + i + 1
                };
                assert(rest[gone + i] == entries[j]);
            },
            None => {},
        }
    }
}

proof fn lemma_without<K, V>(entries: Seq<Cached<K, V>>, key: K)
    requires
        distinct(entries),
    ensures
        distinct(without(entries, key)),
        forall|i: int|
            0 <= i < without(entries, key).len() ==> (#[trigger] without(entries, key)[i]).key
                != key,
{
    lemma_place(entries, key, 0);
    let rest = without(entries, key);
    if let Some(k) = place(entries, key, 0) {
        assert forall|i: int, j: int| 0 <= i < j < rest.len() implies (#[trigger] rest[i]).key
            != (#[trigger] rest[j]).key by {
            let a = if i < k {
                i
            } else {
                i + 1
            };
            let b = if j < k {
                j
            } else {
                j + 1
            };
            assert(rest[i] == entries[a] && rest[j] == entries[b]);
        }
        assert forall|i: int| 0 <= i < rest.len() implies (#[trigger] rest[i]).key != key by {
            let a = if i < k {
                i
            } else {
                i + 1
            };
            assert(rest[i] == entries[a]);
            assert(entries[k].key == key);
        }
    }
}

/// Looking a key up changes no value.
pub proof fn lemma_touched_found<K, V>(entries: Seq<Cached<K, V>>, i: int, key: K)
    requires
        distinct(entries),
        0 <= i < entries.len(),
    ensures
        distinct(touched(entries, i)),
        found(touched(entries, i), key) == found(entries, key),
{
    let now = touched(entries, i);
    let last = now.len() - 1;
    assert forall|a: int| 0 <= a < now.len() implies #[trigger] now[a] == entries[if a == last {
        i
    } else if a < i {
        a
    } else {
        a + 1
    }] by {}
    lemma_place(entries, key, 0);
    lemma_place(now, key, 0);
    match place(entries, key, 0) {
        Some(j) => {
            let a = if j == i {
                last
            } else if j < i {
                j
            } else {
                j - 1
            };
            assert(now[a] == entries[j]);
        },
        None => {},
    }
}

pub(crate) proof fn lemma_place<K, V>(entries: Seq<Cached<K, V>>, key: K, from: int)
    requires
        0 <= from <= entries.len(),
    ensures
        match place(entries, key, from) {
            Some(i) => from <= i < entries.len() && entries[i].key == key && forall|j: int|
                from <= j < i ==> (#[trigger] entries[j]).key != key,
            None => forall|j: int| from <= j < entries.len() ==> (#[trigger] entries[j]).key
                != key,
        },
    decreases entries.len() - from,
{
    if from < entries.len() && entries[from].key != key {
        lemma_place(entries, key, from + 1);
    }
}

pub(crate) proof fn lemma_weight_push<K, V>(entries: Seq<Cached<K, V>>, e: Cached<K, V>)
    ensures
        weight(entries.push(e)) == weight(entries) + e.bytes,
    decreases entries.len(),
{
    let all = entries.push(e);
    if entries.len() == 0 {
        assert(all.drop_first() =~= Seq::<Cached<K, V>>::empty());
        assert(weight(all.drop_first()) == 0);
    } else {
        assert(all.drop_first() =~= entries.drop_first().push(e));
        lemma_weight_push(entries.drop_first(), e);
    }
}

pub(crate) proof fn lemma_weight_remove<K, V>(entries: Seq<Cached<K, V>>, i: int)
    requires
        0 <= i < entries.len(),
    ensures
        weight(entries.remove(i)) + entries[i].bytes == weight(entries),
    decreases entries.len(),
{
    if i == 0 {
        assert(entries.remove(0) =~= entries.drop_first());
    } else {
        assert(entries.remove(i).drop_first() =~= entries.drop_first().remove(i - 1));
        lemma_weight_remove(entries.drop_first(), i - 1);
    }
}

/// After eviction the cache fits its budget, or only the entry stored last is left; that one
/// always stays.
pub proof fn lemma_evicted<K, V>(entries: Seq<Cached<K, V>>, budget: nat)
    requires
        entries.len() > 0,
    ensures
        weight(evicted(entries, budget)) <= budget || evicted(entries, budget).len() == 1,
        evicted(entries, budget).len() > 0,
        evicted(entries, budget).last() == entries.last(),
        evicted(entries, budget).len() <= entries.len(),
        evicted(entries, budget) == entries.skip(
            entries.len() - evicted(entries, budget).len(),
        ),
        weight(entries) <= budget ==> evicted(entries, budget) == entries,
    decreases entries.len(),
{
    if weight(entries) > budget && entries.len() > 1 {
        let rest = entries.drop_first();
        lemma_evicted(rest, budget);
        let n = evicted(rest, budget).len();
        assert(rest.skip(rest.len() - n) =~= entries.skip(entries.len() - n));
    } else {
        assert(entries.skip(0) =~= entries);
    }
}

impl<K: View, V> View for ByteLru<K, V> {
    type V = Seq<Cached<K::V, V>>;

    closed spec fn view(&self) -> Seq<Cached<K::V, V>> {
        self.entries@.map_values(
            |e: Entry<K, V>| Cached { key: e.key@, value: e.value, bytes: e.bytes as nat },
        )
    }
}

impl<K: CacheKey, V> ByteLru<K, V> {
    /// The byte count is that of the entries, and no key stands twice.
    pub closed spec fn wf(&self) -> bool {
        &&& self.bytes == weight(self@)
        &&& distinct(self@)
    }

    /// No key stands twice in a cache.
    pub proof fn lemma_distinct(&self)
        requires
            self.wf(),
        ensures
            distinct(self@),
    {
    }

    pub closed spec fn limit(&self) -> nat {
        self.budget as nat
    }

    pub fn new(budget: usize) -> (r: ByteLru<K, V>)
        ensures
            r.wf(),
            r@ == Seq::<Cached<K::V, V>>::empty(),
            r.limit() == budget,
    {
        let r = ByteLru { entries: Vec::new(), bytes: 0, budget };
        assert(r@ =~= Seq::<Cached<K::V, V>>::empty());
        r
    }

    fn position(&self, key: &K) -> (r: Option<usize>)
        ensures
            match r {
                Some(i) => i < self@.len() && place(self@, key@, 0) == Some(i as int),
                None => place(self@, key@, 0) is None,
            },
    {
        let mut i: usize = 0;
        while i < self.entries.len()
            invariant
                i <= self.entries.len(),
                place(self@, key@, 0) == place(self@, key@, i as int),
            decreases self.entries.len() - i,
        {
            if self.entries[i].key.same(key) {
                return Some(i);
            }
            i = i + 1;
        }
        None
    }

    /// Look `key` up, marking it as just used.
    pub fn get(&mut self, key: &K) -> (r: Option<&V>)
        requires
            old(self).wf(),
        ensures
            final(self).wf(),
            final(self).limit() == old(self).limit(),
            match place(old(self)@, key@, 0) {
                Some(i) => r == Some(&old(self)@[i].value) && final(self)@ == touched(
                    old(self)@,
                    i,
                ),
                None => r is None && final(self)@ == old(self)@,
            },
    {
        let ghost was = self@;
        match self.position(key) {
            None => None,
            Some(i) => {
                let entry = self.entries.remove(i);
                self.entries.push(entry);
                proof {
                    assert(self@ =~= touched(was, i as int));
                    lemma_weight_remove(was, i as int);
                    lemma_weight_push(was.remove(i as int), was[i as int]);
                    lemma_place(was, key@, 0);
                    assert forall|a: int, b: int| 0 <= a < b < self@.len() implies (
                    #[trigger] self@[a]).key != (#[trigger] self@[b]).key by {
                        let pa = if a < i {
                            a
                        } else {
                            a + 1
                        };
                        let pb = if b == self@.len() - 1 {
                            i as int
                        } else if b < i {
                            b
                        } else {
                            b + 1
                        };
                        assert(self@[a] == was[pa] && self@[b] == was[pb]);
                    }
                }
                let last: usize = self.entries.len() - 1;
                Some(&self.entries[last].value)
            },
        }
    }

    /// Store `value`, accounted as `bytes`, then evict the least recently used entries until
    /// the cache fits its budget again. The entry just stored always stays, even when it alone
    /// exceeds the budget.
    pub fn insert(&mut self, key: K, value: V, bytes: usize)
        requires
            old(self).wf(),
            weight(without(old(self)@, key@)) + bytes <= usize::MAX,
        ensures
            final(self).wf(),
            final(self).limit() == old(self).limit(),
            final(self)@ == evicted(stored(old(self)@, key@, value, bytes as nat), old(
                self,
            ).limit()),
    {
        let ghost was = self@;
        let ghost rest = without(was, key@);
        let ghost e = Cached { key: key@, value, bytes: bytes as nat };
        proof {
            lemma_place(was, key@, 0);
        }
        if let Some(i) = self.position(&key) {
            let old_entry = self.entries.remove(i);
            proof {
                assert(self@ =~= was.remove(i as int));
                lemma_weight_remove(was, i as int);
            }
            self.bytes = self.bytes - old_entry.bytes;
        }
        assert(self@ == rest);
        assert(self.bytes == weight(rest));
        assert forall|a: int| 0 <= a < rest.len() implies (#[trigger] rest[a]).key != key@ by {
            match place(was, key@, 0) {
                Some(i) => {
                    let pa = if a < i {
                        a
                    } else {
                        a + 1
                    };
                    assert(rest[a] == was[pa]);
                    assert(was[i].key == key@);
                },
                None => {},
            }
        }
        self.entries.push(Entry { key, value, bytes });
        self.bytes = self.bytes + bytes;
        proof {
            assert(self@ =~= rest.push(e));
            lemma_weight_push(rest, e);
            assert forall|a: int, b: int| 0 <= a < b < self@.len() implies (#[trigger] self@[a]).key
                != (#[trigger] self@[b]).key by {
                if b < rest.len() {
                    match place(was, key@, 0) {
                        Some(i) => {
                            let pa = if a < i {
                                a
                            } else {
                                a + 1
                            };
                            let pb = if b < i {
                                b
                            } else {
                                b + 1
                            };
                            assert(self@[a] == was[pa] && self@[b] == was[pb]);
                        },
                        None => {
                            assert(self@[a] == was[a] && self@[b] == was[b]);
                        },
                    }
                } else {
                    assert(self@[a] == rest[a]);
                }
            }
        }
        let ghost goal = evicted(self@, self.budget as nat);
        while self.bytes > self.budget && self.entries.len() > 1
            invariant
                self.wf(),
                self.budget == old(self).budget,
                goal == evicted(self@, self.budget as nat),
            decreases self.entries.len(),
        {
            let ghost here = self@;
            let gone = self.entries.remove(0);
            proof {
                assert(self@ =~= here.drop_first());
                assert(gone.bytes == here[0].bytes);
                assert forall|a: int, b: int| 0 <= a < b < self@.len() implies (
                #[trigger] self@[a]).key != (#[trigger] self@[b]).key by {
                    assert(self@[a] == here[a + 1] && self@[b] == here[b + 1]);
                }
            }
            self.bytes = self.bytes - gone.bytes;
        }
    }

    /// How many entries there are.
    pub fn len(&self) -> (n: usize)
        ensures
            n == self@.len(),
    {
        self.entries.len()
    }

    /// The bytes of all entries together.
    pub fn bytes(&self) -> (n: usize)
        requires
            self.wf(),
        ensures
            n == weight(self@),
    {
        self.bytes
    }
}

} // verus!
