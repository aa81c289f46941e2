//! Values by site: a place in a layer tree, with an index within its layer.

use crate::names::{lemma_lookup_skip, lookup};
use crate::tree::{copy_path, Root};
use vstd::prelude::*;

verus! {

/// A layer of a show, and which of its bindings or timelines is meant (0 for the layer).
#[derive(Debug, PartialEq, Eq)]
pub struct Site {
    pub root: Root,
    pub path: Vec<usize>,
    pub index: usize,
}

/// A [`Site`], by value.
pub ghost struct SiteKey {
    pub root: Root,
    pub path: Seq<usize>,
    pub index: usize,
}

impl View for Site {
    type V = SiteKey;

    open spec fn view(&self) -> SiteKey {
        SiteKey { root: self.root, path: self.path@, index: self.index }
    }
}

pub open spec fn site_keys(sites: Seq<Site>) -> Seq<SiteKey> {
    sites.map_values(|s: Site| s@)
}

/// The site of a whole layer.
pub open spec fn layer_site(root: Root, path: Seq<usize>) -> SiteKey {
    SiteKey { root, path, index: 0 }
}

pub(crate) fn same_path(a: &Vec<usize>, b: &Vec<usize>) -> (r: bool)
    ensures
        r == (a@ == b@),
{
    if a.len() != b.len() {
        return false;
    }
    let mut i: usize = 0;
    while i < a.len()
        invariant
            i <= a.len(),
            a.len() == b.len(),
            forall|j: int| 0 <= j < i ==> a@[j] == b@[j],
        decreases a.len() - i,
    {
        if a[i] != b[i] {
            assert(a@[i as int] != b@[i as int]);
            return false;
        }
        i = i + 1;
    }
    assert(a@ =~= b@);
    true
}

impl Site {
    pub fn copy(&self) -> (r: Site)
        ensures
            r@ == self@,
    {
        Site { root: self.root, path: copy_path(&self.path), index: self.index }
    }

    pub fn same(&self, other: &Site) -> (r: bool)
        ensures
            r == (self@ == other@),
    {
        self.root == other.root && self.index == other.index && same_path(&self.path, &other.path)
    }

    /// The site of a whole layer.
    pub fn of_layer(root: Root, path: &Vec<usize>) -> (r: Site)
        ensures
            r@ == layer_site(root, path@),
    {
        Site { root, path: copy_path(path), index: 0 }
    }
}

/// Whether a list holds a site.
pub(crate) fn has_site(sites: &Vec<Site>, site: &Site) -> (r: bool)
    ensures
        r == site_keys(sites@).contains(site@),
{
    let mut i: usize = 0;
    while i < sites.len()
        invariant
            i <= sites.len(),
            forall|j: int| 0 <= j < i ==> site_keys(sites@)[j] != site@,
        decreases sites.len() - i,
    {
        if sites[i].same(site) {
            assert(site_keys(sites@)[i as int] == site@);
            return true;
        }
        i = i + 1;
    }
    false
}

/// The map that a list of entries stands for: the first entry of a key counts.
pub open spec fn as_map<K, V>(entries: Seq<(K, V)>) -> Map<K, V> {
    Map::new(|k: K| lookup(entries, k) is Some, |k: K| lookup(entries, k)->0)
}

pub(crate) proof fn lemma_lookup_push<K, V>(entries: Seq<(K, V)>, key: K, value: V, other: K)
    ensures
        lookup(entries.push((key, value)), other) == (if lookup(entries, other) is Some {
            lookup(entries, other)
        } else if other == key {
            Some(value)
        } else {
            None
        }),
    decreases entries.len(),
{
    let all = entries.push((key, value));
    if entries.len() == 0 {
        assert(all.drop_first() =~= Seq::<(K, V)>::empty());
        assert(lookup(all.drop_first(), other) is None);
    } else {
        assert(all.drop_first() =~= entries.drop_first().push((key, value)));
        lemma_lookup_push(entries.drop_first(), key, value, other);
    }
}

pub(crate) proof fn lemma_lookup_update<K, V>(entries: Seq<(K, V)>, i: int, value: V, other: K)
    requires
        0 <= i < entries.len(),
        forall|j: int| 0 <= j < i ==> #[trigger] entries[j].0 != entries[i].0,
    ensures
        lookup(entries.update(i, (entries[i].0, value)), other) == (if other == entries[i].0 {
            Some(value)
        } else {
            lookup(entries, other)
        }),
    decreases i,
{
    let all = entries.update(i, (entries[i].0, value));
    if i == 0 {
        assert(all.drop_first() =~= entries.drop_first());
    } else {
        let rest = entries.drop_first();
        assert(rest[i - 1] == entries[i]);
        assert forall|j: int| 0 <= j < i - 1 implies #[trigger] rest[j].0 != rest[i - 1].0 by {
            assert(rest[j] == entries[j + 1]);
        }
        lemma_lookup_update(rest, i - 1, value, other);
        assert(all.drop_first() =~= rest.update(i - 1, (rest[i - 1].0, value)));
        assert(entries[0].0 != entries[i].0);
    }
}

proof fn lemma_lookup_filter<K, V>(entries: Seq<(K, V)>, keep: spec_fn(K) -> bool, other: K)
    ensures
        lookup(entries.filter(|e: (K, V)| keep(e.0)), other) == (if keep(other) {
            lookup(entries, other)
        } else {
            None
        }),
    decreases entries.len(),
{
    let pred = |e: (K, V)| keep(e.0);
    if entries.len() == 0 {
        assert(entries.filter(pred) =~= Seq::<(K, V)>::empty()) by {
            reveal_with_fuel(Seq::filter, 1);
        }
    } else {
        let first = entries[0];
        let rest = entries.drop_first();
        lemma_lookup_filter(rest, keep, other);
        assert(entries =~= seq![first] + rest);
        Seq::filter_distributes_over_add(seq![first], rest, pred);
        assert(seq![first].filter(pred) =~= if pred(first) {
            seq![first]
        } else {
            Seq::empty()
        }) by {
            reveal_with_fuel(Seq::filter, 2);
            assert(seq![first].drop_last() =~= Seq::<(K, V)>::empty());
        }
        let out = entries.filter(pred);
        if pred(first) {
            assert(out =~= seq![first] + rest.filter(pred));
            assert(out.drop_first() =~= rest.filter(pred));
        } else {
            assert(out =~= rest.filter(pred));
        }
    }
}

/// Values by site.
#[derive(Debug)]
pub struct SiteMap<V> {
    entries: Vec<(Site, V)>,
}

/// Which entries stay when `gone` goes, or everything outside the show's own layers.
pub open spec fn stays(key: SiteKey, gone: Option<SiteKey>) -> bool {
    match gone {
        Some(site) => key != site,
        None => key.root == Root::Show,
    }
}

impl<V: View> View for SiteMap<V> {
    type V = Map<SiteKey, V::V>;

    closed spec fn view(&self) -> Map<SiteKey, V::V> {
        as_map(self.list())
    }
}

impl<V: View> SiteMap<V> {
    closed spec fn list(&self) -> Seq<(SiteKey, V::V)> {
        self.entries@.map_values(|e: (Site, V)| (e.0@, e.1@))
    }

    pub fn new() -> (r: SiteMap<V>)
        ensures
            r@ == Map::<SiteKey, V::V>::empty(),
    {
        let r = SiteMap { entries: Vec::new() };
        assert(r.list() =~= Seq::<(SiteKey, V::V)>::empty());
        assert(r@ =~= Map::<SiteKey, V::V>::empty());
        r
    }

    fn position(&self, site: &Site) -> (i: usize)
        ensures
            i <= self.list().len(),
            self.list().len() == self.entries@.len(),
            self@.contains_key(site@) == (i < self.list().len()),
            i < self.list().len() ==> self.list()[i as int].0 == site@ && self@[site@]
                == self.list()[i as int].1,
            forall|j: int| 0 <= j < i ==> #[trigger] self.list()[j].0 != site@,
    {
        let mut i: usize = 0;
        while i < self.entries.len()
            invariant
                i <= self.entries.len(),
                forall|j: int| 0 <= j < i ==> #[trigger] self.list()[j].0 != site@,
            decreases self.entries.len() - i,
        {
            assert(self.list()[i as int].0 == self.entries@[i as int].0@);
            if self.entries[i].0.same(site) {
                proof {
                    lemma_lookup_skip(self.list(), site@, i as nat);
                    assert(self.list().skip(i as int)[0] == self.list()[i as int]);
                }
                return i;
            }
            i = i + 1;
        }
        proof {
            lemma_lookup_skip(self.list(), site@, i as nat);
            assert(self.list().skip(i as int).len() == 0);
        }
        i
    }

    pub fn get(&self, site: &Site) -> (r: Option<&V>)
        ensures
            match r {
                Some(v) => self@.contains_key(site@) && self@[site@] == v@,
                None => !self@.contains_key(site@),
            },
    {
        let i: usize = self.position(site);
        if i < self.entries.len() {
            Some(&self.entries[i].1)
        } else {
            None
        }
    }

    pub fn insert(&mut self, site: Site, value: V)
        ensures
            final(self)@ == old(self)@.insert(site@, value@),
    {
        let i: usize = self.position(&site);
        let ghost was = self.list();
        let ghost before = self@;
        let ghost k = site@;
        let ghost v = value@;
        if i < self.entries.len() {
            self.entries[i] = (site, value);
            proof {
                assert(self.list() =~= was.update(i as int, (k, v)));
                assert forall|other: SiteKey| lookup(self.list(), other) == (if other == k {
                    Some(v)
                } else {
                    lookup(was, other)
                }) by {
                    lemma_lookup_update(was, i as int, v, other);
                }
            }
        } else {
            self.entries.push((site, value));
            proof {
                assert(self.list() =~= was.push((k, v)));
                assert forall|other: SiteKey| lookup(self.list(), other) == (if other == k {
                    Some(v)
                } else {
                    lookup(was, other)
                }) by {
                    lemma_lookup_push(was, k, v, other);
                    assert(lookup(was, k) is None) by {
                        assert(!before.contains_key(k));
                    }
                }
            }
        }
        assert(self@ =~= before.insert(k, v));
    }

    /// Drops `gone`, or everything outside the show's own layers.
    fn prune(&mut self, gone: Option<&Site>)
        ensures
            final(self)@ == old(self)@.restrict(
                Set::new(
                    |k: SiteKey|
                        stays(
                            k,
                            match gone {
                                Some(s) => Some(s@),
                                None => None,
                            },
                        ),
                ),
            ),
    {
        let ghost was = self.list();
        let ghost before = self@;
        let ghost what: Option<SiteKey> = match gone {
            Some(s) => Some(s@),
            None => None,
        };
        let ghost keep = |k: SiteKey| stays(k, what);
        let ghost pred = |e: (SiteKey, V::V)| keep(e.0);
        let mut i: usize = 0;
        let ghost mut done: int = 0;
        proof {
            assert(was.take(0).filter(pred) =~= Seq::<(SiteKey, V::V)>::empty()) by {
                reveal_with_fuel(Seq::filter, 1);
            }
            assert(self.list() =~= was.take(0).filter(pred) + was.skip(0));
        }
        while i < self.entries.len()
            invariant
                0 <= done <= was.len(),
                i == was.take(done).filter(pred).len(),
                self.list() == was.take(done).filter(pred) + was.skip(done),
                keep == (|k: SiteKey| stays(k, what)),
                pred == (|e: (SiteKey, V::V)| keep(e.0)),
                what == (match gone {
                    Some(s) => Some(s@),
                    None => None::<SiteKey>,
                }),
            decreases self.entries.len() - i,
        {
            let ghost here = self.list();
            proof {
                assert(here.len() == i + (was.len() - done));
                assert(done < was.len());
                assert(here[i as int] == was.skip(done)[0]);
                assert(was.take(done + 1).drop_last() =~= was.take(done));
                assert(was.take(done + 1).last() == was[done]);
                reveal_with_fuel(Seq::filter, 2);
                assert(here[i as int].0 == self.entries@[i as int].0@);
            }
            let stay = match gone {
                Some(site) => !self.entries[i].0.same(site),
                None => self.entries[i].0.root == Root::Show,
            };
            if !stay {
                self.entries.remove(i);
                proof {
                    assert(self.list() =~= here.remove(i as int));
                    assert(was.take(done + 1).filter(pred) =~= was.take(done).filter(pred));
                    assert(self.list() =~= was.take(done + 1).filter(pred) + was.skip(done + 1));
                    done = done + 1;
                }
            } else {
                i = i + 1;
                proof {
                    assert(was.take(done + 1).filter(pred) =~= was.take(done).filter(pred).push(
                        was[done],
                    ));
                    assert(self.list() =~= was.take(done + 1).filter(pred) + was.skip(done + 1));
                    done = done + 1;
                }
            }
        }
        proof {
            assert(done == was.len());
            assert(was.take(done) =~= was);
            assert(self.list() =~= was.filter(pred));
            assert forall|other: SiteKey| lookup(self.list(), other) == (if keep(other) {
                lookup(was, other)
            } else {
                None
            }) by {
                lemma_lookup_filter(was, keep, other);
            }
            assert(self@ =~= before.restrict(Set::new(|k: SiteKey| stays(k, what))));
        }
    }

    pub fn remove(&mut self, site: &Site)
        ensures
            final(self)@ == old(self)@.remove(site@),
    {
        let ghost before = self@;
        self.prune(Some(site));
        assert(self@ =~= before.remove(site@));
    }

    /// Keeps only what belongs to the show's own layers.
    pub fn keep_show(&mut self)
        ensures
            final(self)@ == shows_own(old(self)@),
    {
        let ghost before = self@;
        self.prune(None);
        assert(self@ =~= shows_own(before));
    }

    pub fn clear(&mut self)
        ensures
            final(self)@ == Map::<SiteKey, V::V>::empty(),
    {
        self.entries.clear();
        assert(self.list() =~= Seq::<(SiteKey, V::V)>::empty());
        assert(self@ =~= Map::<SiteKey, V::V>::empty());
    }
}

/// What belongs to the show's own layers.
pub open spec fn shows_own<V>(m: Map<SiteKey, V>) -> Map<SiteKey, V> {
    m.restrict(Set::new(|k: SiteKey| k.root == Root::Show))
}

} // verus!
