//! Timelines that run under a condition.

use crate::follow::{put_all, tree_at, Noted};
use crate::lists::{lemma_filter_none, lemma_filter_step, some_is};
use crate::model::{Layer, Show, Timeline};
use crate::num::sum_of;
use crate::play::timeline_delay;
use crate::schedule::{lemma_begun_keeps, lemma_roots_fit};
use crate::sites::SiteKey;
use crate::state::{OwnerKey, Running, State};
use crate::tree::{
    layer_in, layer_under, lemma_found_is_node, lemma_node_found, nodes, rooted, Root,
};
use vstd::prelude::*;

verus! {

/// The timeline at a place, if there is one.
pub open spec fn timeline_in(show: Show, key: SiteKey) -> Option<Timeline> {
    match layer_in(show, key.root, key.path) {
        Some(layer) => if key.index < layer.timelines@.len() {
            Some(layer.timelines@[key.index as int])
        } else {
            None
        },
        None => None,
    }
}

spec fn starts(s: State, key: SiteKey, tl: Timeline) -> bool {
    s.shows(key.root) && match (tl.when, tl.whilst) {
        (Some(when), _) => s.holds(when) && !(s.conditions.contains_key(key) && s.conditions[key]),
        (None, Some(whilst)) => s.holds(whilst) && !s.runs(
            OwnerKey::Layer(key.root, key.path),
            key.index,
        ),
        (None, None) => false,
    }
}

spec fn stops(s: State, key: SiteKey, tl: Timeline) -> bool {
    s.shows(key.root) && tl.when is None && match tl.whilst {
        Some(whilst) => !s.holds(whilst) && s.runs(OwnerKey::Layer(key.root, key.path), key.index),
        None => false,
    }
}

/// Whether one more list of timelines, the first `n` of it, has a place among them.
spec fn here(key: SiteKey, root: Root, path: Seq<usize>, timelines: Seq<Timeline>, n: nat) -> bool {
    root == key.root && path == key.path && key.index < n <= timelines.len()
}

proof fn lemma_note_layer(
    s: State,
    root: Root,
    path: Seq<usize>,
    timelines: Seq<Timeline>,
    n: nat,
    noted: Noted,
    key: SiteKey,
)
    requires
        n <= timelines.len() <= usize::MAX,
    ensures
        ({
            let after = s.note_layer(root, path, timelines, n, noted);
            let at = here(key, root, path, timelines, n);
            let tl = timelines[key.index as int];
            &&& after.edges.contains(key) == (noted.edges.contains(key) || at && starts(s, key, tl))
            &&& after.stops.contains(key) == (noted.stops.contains(key) || at && stops(s, key, tl))
        }),
    decreases n,
{
    if n > 0 {
        let m = (n - 1) as nat;
        lemma_note_layer(s, root, path, timelines, m, noted, key);
        let before = s.note_layer(root, path, timelines, m, noted);
        let one = SiteKey { root, path, index: m as usize };
        lemma_pushed(before.edges, one, key);
        lemma_pushed(before.stops, one, key);
        if here(key, root, path, timelines, n) && !here(key, root, path, timelines, m) {
            assert(key == one);
        }
    }
}

proof fn lemma_pushed(list: Seq<SiteKey>, one: SiteKey, key: SiteKey)
    ensures
        list.push(one).contains(key) == (list.contains(key) || one == key),
{
    if list.contains(key) {
        let i = choose|i: int| 0 <= i < list.len() && list[i] == key;
        assert(list.push(one)[i] == key);
    }
    assert(list.push(one)[list.len() as int] == one);
}

/// Whether one of the first `n` nodes of a tree is where a place is.
spec fn among(
    key: SiteKey,
    root: Root,
    list: Seq<(Seq<usize>, Layer)>,
    n: nat,
    tl: Timeline,
) -> bool {
    exists|k: int|
        0 <= k < n && (#[trigger] list[k]).0 == key.path && root == key.root && key.index
            < list[k].1.timelines@.len() && list[k].1.timelines@[key.index as int] == tl
}

/// Every node at the place of a timeline has it.
spec fn agrees(key: SiteKey, root: Root, list: Seq<(Seq<usize>, Layer)>, tl: Timeline) -> bool {
    root == key.root ==> forall|k: int|
        0 <= k < list.len() && (#[trigger] list[k]).0 == key.path && key.index
            < list[k].1.timelines@.len() ==> list[k].1.timelines@[key.index as int] == tl
}

proof fn lemma_note_nodes(
    s: State,
    root: Root,
    list: Seq<(Seq<usize>, Layer)>,
    n: nat,
    noted: Noted,
    key: SiteKey,
    tl: Timeline,
)
    requires
        n <= list.len(),
        agrees(key, root, list, tl),
    ensures
        ({
            let after = s.note_nodes(root, list, n, noted);
            let at = among(key, root, list, n, tl);
            &&& after.edges.contains(key) == (noted.edges.contains(key) || at && starts(s, key, tl))
            &&& after.stops.contains(key) == (noted.stops.contains(key) || at && stops(s, key, tl))
        }),
    decreases n,
{
    if n > 0 {
        let m = (n - 1) as nat;
        lemma_note_nodes(s, root, list, m, noted, key, tl);
        let (path, layer) = list[m as int];
        let all = layer.timelines@;
        assert(layer.timelines.len() == all.len());
        lemma_note_layer(s, root, path, all, all.len(), s.note_nodes(root, list, m, noted), key);
        let at = here(key, root, path, all, all.len());
        assert(among(key, root, list, n, tl) == (among(key, root, list, m, tl) || at)) by {
            if at {
                assert(list[m as int].0 == key.path);
                assert(all[key.index as int] == tl);
            }
        }
    }
}

proof fn lemma_note_tree(s: State, show: Show, root: Root, noted: Noted, key: SiteKey)
    requires
        timeline_in(show, key) is Some,
    ensures
        ({
            let after = s.note_tree(show, root, noted);
            let tl = timeline_in(show, key)->0;
            let at = root == key.root;
            &&& after.edges.contains(key) == (noted.edges.contains(key) || at && starts(s, key, tl))
            &&& after.stops.contains(key) == (noted.stops.contains(key) || at && stops(s, key, tl))
        }),
{
    let tl = timeline_in(show, key)->0;
    if rooted(show, root) is Some {
        let layers = rooted(show, root)->0;
        let list = nodes(layers, Seq::empty());
        lemma_roots_fit(show, root);
        assert(agrees(key, root, list, tl)) by {
            if root == key.root {
                assert forall|k: int|
                    0 <= k < list.len() && (#[trigger] list[k]).0 == key.path && key.index
                        < list[k].1.timelines@.len() implies list[k].1.timelines@[key.index as int]
                    == tl by {
                    lemma_node_found(layers, Seq::empty(), k);
                    assert(list[k].0.skip(0) =~= list[k].0);
                }
            }
        }
        lemma_note_nodes(s, root, list, list.len(), noted, key, tl);
        if root == key.root {
            lemma_found_is_node(layers, Seq::empty(), key.path);
            let layer = layer_under(layers, key.path)->0;
            assert(Seq::<usize>::empty() + key.path =~= key.path);
            let k = choose|k: int| 0 <= k < list.len() && list[k] == (key.path, layer);
            assert(list[k].0 == key.path);
            assert(among(key, root, list, list.len(), tl));
        }
    }
}

proof fn lemma_note_trees(s: State, show: Show, n: nat, key: SiteKey)
    requires
        timeline_in(show, key) is Some,
        n <= show.scenes@.len() + 1,
    ensures
        ({
            let after = s.note_trees(show, n);
            let tl = timeline_in(show, key)->0;
            let at = match key.root {
                Root::Show => n > 0,
                Root::Scene(i) => i + 1 < n,
            };
            &&& after.edges.contains(key) == (at && starts(s, key, tl))
            &&& after.stops.contains(key) == (at && stops(s, key, tl))
        }),
    decreases n,
{
    assert(show.scenes.len() == show.scenes@.len());
    if n > 0 {
        let m = (n - 1) as nat;
        lemma_note_trees(s, show, m, key);
        lemma_note_tree(s, show, tree_at(m), s.note_trees(show, m), key);
    }
}

/// Stopping and starting timelines decides of those alone whether they run.
proof fn lemma_stopped(s: State, list: Seq<SiteKey>, n: nat, key: SiteKey)
    requires
        n <= list.len(),
    ensures
        s.stopped_all(list, n).runs(OwnerKey::Layer(key.root, key.path), key.index) == (s.runs(
            OwnerKey::Layer(key.root, key.path),
            key.index,
        ) && !list.take(n as int).contains(key)),
        s.stopped_all(list, n).time == s.time,
    decreases n,
{
    if n > 0 {
        let m = (n - 1) as nat;
        lemma_stopped(s, list, m, key);
        let before = s.stopped_all(list, m);
        let one = list[m as int];
        assert(list.take(n as int) =~= list.take(m as int).push(one));
        lemma_pushed(list.take(m as int), one, key);
        lemma_without(before.playing, one, key);
    } else {
        assert(list.take(0) =~= Seq::<SiteKey>::empty());
    }
}

/// Whether anything that is left in a list is of a kind.
proof fn lemma_left<T>(list: Seq<T>, pred: spec_fn(T) -> bool, own: spec_fn(T) -> bool, n: nat)
    requires
        n <= list.len(),
    ensures
        some_is(list.take(n as int).filter(pred), own) == some_is(
            list.take(n as int),
            |p: T| own(p) && pred(p),
        ),
    decreases n,
{
    let both = |p: T| own(p) && pred(p);
    if n == 0 {
        lemma_filter_none(list, pred);
    } else {
        let m = n - 1;
        lemma_left(list, pred, own, m as nat);
        lemma_filter_step(list, pred, m);
        let (before, after) = (list.take(m), list.take(n as int));
        assert(after =~= before.push(list[m]));
        lemma_some_pushed(before, list[m], both);
        lemma_some_pushed(before.filter(pred), list[m], own);
    }
}

proof fn lemma_some_pushed<T>(list: Seq<T>, one: T, own: spec_fn(T) -> bool)
    ensures
        some_is(list.push(one), own) == (some_is(list, own) || own(one)),
{
    if some_is(list, own) {
        let i = choose|i: int| 0 <= i < list.len() && own(#[trigger] list[i]);
        assert(own(list.push(one)[i]));
    }
    assert(list.push(one)[list.len() as int] == one);
    if some_is(list.push(one), own) {
        let i = choose|i: int| 0 <= i <= list.len() && own(#[trigger] list.push(one)[i]);
        if i < list.len() {
            assert(own(list[i]));
        }
    }
}

proof fn lemma_without(list: Seq<Running>, one: SiteKey, key: SiteKey)
    ensures
        ({
            let own = |p: Running|
                p.owner == OwnerKey::Layer(key.root, key.path) && p.timeline == key.index;
            let pred = |p: Running|
                !(p.owner == OwnerKey::Layer(one.root, one.path) && p.timeline == one.index);
            some_is(list.filter(pred), own) == (some_is(list, own) && one != key)
        }),
{
    let own = |p: Running|
        p.owner == OwnerKey::Layer(key.root, key.path) && p.timeline == key.index;
    let pred = |p: Running|
        !(p.owner == OwnerKey::Layer(one.root, one.path) && p.timeline == one.index);
    let both = |p: Running| own(p) && pred(p);
    lemma_left(list, pred, own, list.len());
    assert(list.take(list.len() as int) =~= list);
    if some_is(list, own) && one != key {
        let i = choose|i: int| 0 <= i < list.len() && own(#[trigger] list[i]);
        assert(both(list[i]));
    }
    if some_is(list, both) {
        let i = choose|i: int| 0 <= i < list.len() && both(#[trigger] list[i]);
        assert(own(list[i]));
    }
}

proof fn lemma_started(s: State, show: Show, list: Seq<SiteKey>, n: nat, key: SiteKey)
    requires
        n <= list.len(),
    ensures
        s.started_all(show, list, n).runs(OwnerKey::Layer(key.root, key.path), key.index) == (s.runs(
            OwnerKey::Layer(key.root, key.path),
            key.index,
        ) || list.take(n as int).contains(key)),
        s.started_all(show, list, n).time == s.time,
        list.take(n as int).contains(key) ==> s.started_all(show, list, n).playing.contains(
            Running {
                owner: OwnerKey::Layer(key.root, key.path),
                timeline: key.index,
                starts: sum_of(s.time, timeline_delay(show, key.root, key.path, key.index)),
                held: false,
            },
        ),
    decreases n,
{
    if n > 0 {
        let m = (n - 1) as nat;
        lemma_started(s, show, list, m, key);
        let before = s.started_all(show, list, m);
        let one = list[m as int];
        let owner = OwnerKey::Layer(one.root, one.path);
        let starts = sum_of(s.time, timeline_delay(show, one.root, one.path, one.index));
        let own = |p: Running|
            p.owner == OwnerKey::Layer(key.root, key.path) && p.timeline == key.index;
        let pred = |p: Running| !(p.owner == owner && p.timeline == one.index);
        let added = Running { owner, timeline: one.index, starts, held: false };
        assert(list.take(n as int) =~= list.take(m as int).push(one));
        lemma_pushed(list.take(m as int), one, key);
        lemma_without(before.playing, one, key);
        let kept = before.playing.filter(pred);
        lemma_some_pushed(kept, added, own);
        let after = s.started_all(show, list, n);
        assert(after.playing =~= kept.push(added));
        assert(after.playing[kept.len() as int] == added);
        if key != one && list.take(m as int).contains(key) {
            let r = Running {
                owner: OwnerKey::Layer(key.root, key.path),
                timeline: key.index,
                starts: sum_of(s.time, timeline_delay(show, key.root, key.path, key.index)),
                held: false,
            };
            lemma_begun_keeps(before, owner, one.index, starts, r);
        }
    } else {
        assert(list.take(0) =~= Seq::<SiteKey>::empty());
    }
}

/// A timeline that runs while a condition holds does just that: wherever it shows, it runs after
/// every look at the conditions if and only if the condition holds.
pub proof fn lemma_runs_while(s: State, show: Show, key: SiteKey)
    requires
        s.show == Some(show),
        s.shows(key.root),
        timeline_in(show, key) matches Some(tl) && tl.when is None && tl.whilst is Some,
    ensures
        s.follow_conditions().runs(OwnerKey::Layer(key.root, key.path), key.index) == s.holds(
            timeline_in(show, key)->0.whilst->0,
        ),
{
    lemma_followed(s, show, key);
}

/// A timeline with a condition starts when the condition comes to hold, its delay later, and
/// not again while it goes on holding.
pub proof fn lemma_starts_when(s: State, show: Show, key: SiteKey)
    requires
        s.show == Some(show),
        s.shows(key.root),
        timeline_in(show, key) matches Some(tl) && tl.when is Some,
    ensures
        ({
            let holds = s.holds(timeline_in(show, key)->0.when->0);
            let held = s.conditions.contains_key(key) && s.conditions[key];
            let owner = OwnerKey::Layer(key.root, key.path);
            let after = s.follow_conditions();
            &&& holds && !held ==> after.playing.contains(
                Running {
                    owner,
                    timeline: key.index,
                    starts: sum_of(s.time, timeline_delay(show, key.root, key.path, key.index)),
                    held: false,
                },
            )
            &&& !(holds && !held) ==> after.runs(owner, key.index) == s.runs(owner, key.index)
        }),
{
    lemma_followed(s, show, key);
}

proof fn lemma_followed(s: State, show: Show, key: SiteKey)
    requires
        s.show == Some(show),
        s.shows(key.root),
        timeline_in(show, key) is Some,
    ensures
        ({
            let tl = timeline_in(show, key)->0;
            let owner = OwnerKey::Layer(key.root, key.path);
            let after = s.follow_conditions();
            &&& after.runs(owner, key.index) == (s.runs(owner, key.index) && !stops(s, key, tl)
                || starts(s, key, tl))
            &&& starts(s, key, tl) ==> after.playing.contains(
                Running {
                    owner,
                    timeline: key.index,
                    starts: sum_of(s.time, timeline_delay(show, key.root, key.path, key.index)),
                    held: false,
                },
            )
        }),
{
    reveal(State::follow_conditions);
    let noted = s.note_trees(show, show.scenes@.len() + 1);
    lemma_note_trees(s, show, show.scenes@.len() + 1, key);
    let first = State { conditions: put_all(s.conditions, noted.now, noted.now.len()), ..s };
    lemma_stopped(first, noted.stops, noted.stops.len(), key);
    let second = first.stopped_all(noted.stops, noted.stops.len());
    lemma_started(second, show, noted.edges, noted.edges.len(), key);
    assert(noted.stops.take(noted.stops.len() as int) =~= noted.stops);
    assert(noted.edges.take(noted.edges.len() as int) =~= noted.edges);
}

} // verus!
