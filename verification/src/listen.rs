//! A trigger that nothing listens to does nothing.

use crate::lists::lemma_first_where;
use crate::model::{Layer, Scene, Show, ShowValue, Timeline, ValueTimeline};
use crate::num::Num;
use crate::play::{
    entered, layer_begins, media_paths, root_begins, tree_begins, value_begins, values_begins,
    Begin, Wanted,
};
use crate::sites::SiteKey;
use crate::state::{OwnerKey, State};
use crate::survey::{layer_listens, listens, nodes_listen, timelines_listen, tree_listens};
use crate::tree::{lemma_found_is_node, layer_in, nodes, rooted, Root};
use vstd::prelude::*;

verus! {

/// Whether a value that a show animates listens to a trigger.
pub open spec fn values_listen(values: Seq<(Seq<char>, ShowValue)>, name: Seq<char>) -> bool {
    exists|i: int, j: int|
        0 <= i < values.len() && 0 <= j < values[i].1.timelines@.len()
            && #[trigger] values[i].1.timelines@[j].trigger.has(name)
}

proof fn lemma_layer_begins_none(
    owner: OwnerKey,
    timelines: Seq<Timeline>,
    name: Seq<char>,
    n: nat,
)
    requires
        !timelines_listen(timelines, name, timelines.len() as int),
    ensures
        layer_begins(owner, timelines, Wanted::Trigger(name), n) == Seq::<Begin>::empty(),
    decreases n,
{
    if n > 0 && n <= timelines.len() {
        lemma_layer_begins_none(owner, timelines, name, (n - 1) as nat);
        assert(!timelines[n - 1].trigger.has(name));
    }
}

proof fn lemma_tree_begins_none(
    root: Root,
    list: Seq<(Seq<usize>, Layer)>,
    name: Seq<char>,
    n: nat,
)
    requires
        !nodes_listen(list, name, list.len() as int),
    ensures
        tree_begins(root, list, Wanted::Trigger(name), n) == Seq::<Begin>::empty(),
    decreases n,
{
    if n > 0 && n <= list.len() {
        lemma_tree_begins_none(root, list, name, (n - 1) as nat);
        let (path, layer) = list[n - 1];
        assert(!layer_listens(list[n - 1].1, name));
        lemma_layer_begins_none(
            OwnerKey::Layer(root, path),
            layer.timelines@,
            name,
            layer.timelines@.len(),
        );
        assert(tree_begins(root, list, Wanted::Trigger(name), n) =~= Seq::<Begin>::empty());
    }
}

proof fn lemma_value_begins_none(
    owner: OwnerKey,
    timelines: Seq<ValueTimeline>,
    name: Seq<char>,
    n: nat,
)
    requires
        forall|j: int|
            0 <= j < timelines.len() ==> !(#[trigger] timelines[j]).trigger.has(name),
    ensures
        value_begins(owner, timelines, Wanted::Trigger(name), n) == Seq::<Begin>::empty(),
    decreases n,
{
    if n > 0 && n <= timelines.len() {
        lemma_value_begins_none(owner, timelines, name, (n - 1) as nat);
        assert(!timelines[n - 1].trigger.has(name));
    }
}

proof fn lemma_values_begins_none(values: Seq<(Seq<char>, ShowValue)>, name: Seq<char>, n: nat)
    requires
        !values_listen(values, name),
    ensures
        values_begins(values, Wanted::Trigger(name), n) == Seq::<Begin>::empty(),
    decreases n,
{
    if n > 0 && n <= values.len() {
        lemma_values_begins_none(values, name, (n - 1) as nat);
        let (own, value) = values[n - 1];
        assert forall|j: int| 0 <= j < value.timelines@.len() implies !(
        #[trigger] value.timelines@[j]).trigger.has(name) by {
            assert(values[n - 1].1.timelines@[j] == value.timelines@[j]);
        }
        lemma_value_begins_none(
            OwnerKey::Value(own),
            value.timelines@,
            name,
            value.timelines@.len(),
        );
        assert(values_begins(values, Wanted::Trigger(name), n) =~= Seq::<Begin>::empty());
    }
}

/// No tree of a show that does not listen listens.
proof fn lemma_rooted_silent(show: Show, root: Root, name: Seq<char>)
    requires
        !listens(show, name),
    ensures
        rooted(show, root) matches Some(layers) ==> !tree_listens(layers, name),
{
    match root {
        Root::Scene(i) => {
            if i < show.scenes@.len() {
                let s = show.scenes@[i as int];
                assert(!(s.trigger.has(name) || tree_listens(s.layers@, name)));
            }
        },
        Root::Show => {},
    }
}

proof fn lemma_root_begins_none(show: Show, root: Root, name: Seq<char>)
    requires
        !listens(show, name),
    ensures
        root_begins(show, root, Wanted::Trigger(name)) == Seq::<Begin>::empty(),
{
    lemma_rooted_silent(show, root, name);
    if let Some(layers) = rooted(show, root) {
        let list = nodes(layers, Seq::empty());
        lemma_tree_begins_none(root, list, name, list.len());
    }
}

/// A layer that a path leads to does not listen where its show does not.
proof fn lemma_layer_silent(show: Show, root: Root, path: Seq<usize>, name: Seq<char>)
    requires
        !listens(show, name),
    ensures
        layer_in(show, root, path) matches Some(layer) ==> !layer_listens(layer, name),
{
    lemma_rooted_silent(show, root, name);
    if layer_in(show, root, path) is Some {
        let layers = rooted(show, root)->0;
        let layer = layer_in(show, root, path)->0;
        let list = nodes(layers, Seq::empty());
        assert(show.layers.len() == show.layers@.len());
        assert(show.scenes.len() == show.scenes@.len());
        if let Root::Scene(i) = root {
            let s = show.scenes@[i as int];
            assert(s.layers.len() == s.layers@.len());
        }
        lemma_found_is_node(layers, Seq::empty(), path);
        let node = (Seq::<usize>::empty() + path, layer);
        let k = choose|k: int| 0 <= k < list.len() && #[trigger] list[k] == node;
        assert(!layer_listens(list[k].1, name));
    }
}

proof fn lemma_cued_all_silent(
    s: State,
    show: Show,
    root: Root,
    paths: Seq<Seq<usize>>,
    name: Seq<char>,
    at: Num,
    n: nat,
)
    requires
        s.show == Some(show),
        !listens(show, name),
    ensures
        s.cued_all(root, paths, name, at, n) == s,
    decreases n,
{
    if n > 0 && n <= paths.len() {
        lemma_cued_all_silent(s, show, root, paths, name, at, (n - 1) as nat);
        lemma_layer_silent(show, root, paths[n - 1], name);
    }
}

proof fn lemma_no_reel_spins(s: State, show: Show, name: Seq<char>)
    requires
        s.show == Some(show),
        !listens(show, name),
    ensures
        s.set_spinning(name) == s,
{
    let pred = |site: SiteKey| s.spins(show, site, name);
    assert forall|i: int| 0 <= i < s.reel_sites.len() implies !pred(
        #[trigger] s.reel_sites[i],
    ) by {
        let site = s.reel_sites[i];
        lemma_layer_silent(show, site.root, site.path, name);
    }
    lemma_filter_nothing(s.reel_sites, pred);
    assert(s.spinning + Seq::<SiteKey>::empty() =~= s.spinning);
}

proof fn lemma_filter_nothing<T>(s: Seq<T>, pred: spec_fn(T) -> bool)
    requires
        forall|i: int| 0 <= i < s.len() ==> !pred(#[trigger] s[i]),
    ensures
        s.filter(pred) == Seq::<T>::empty(),
    decreases s.len(),
{
    reveal_with_fuel(Seq::filter, 2);
    if s.len() > 0 {
        let most = s.drop_last();
        assert forall|i: int| 0 <= i < most.len() implies !pred(#[trigger] most[i]) by {
            assert(!pred(s[i]));
        }
        lemma_filter_nothing(most, pred);
        assert(!pred(s[s.len() - 1]));
    }
    assert(s.filter(pred) =~= Seq::<T>::empty());
}

/// A trigger that no scene, no layer and no value listens to changes nothing at all: the
/// actions of a show are its [`Show::triggers`] and what starts its values.
pub proof fn lemma_unheard_trigger(s: State, name: Seq<char>, at: Num)
    requires
        s.show matches Some(show) ==> !listens(show, name) && !values_listen(show.values@, name),
    ensures
        s.trigger_at(name, at) == s,
{
    reveal(State::trigger_at);
    if let Some(show) = s.show {
        let pred = |c: Scene| c.trigger.has(name);
        lemma_first_where(show.scenes@, pred, 0);
        assert forall|i: int| 0 <= i < show.scenes@.len() implies !pred(
            #[trigger] show.scenes@[i],
        ) by {
            let c = show.scenes@[i];
            assert(!(c.trigger.has(name) || tree_listens(c.layers@, name)));
        }
        assert(entered(show, name) is None);
        let want = Wanted::Trigger(name);
        lemma_root_begins_none(show, Root::Show, name);
        if let Some(scene) = s.active_scene {
            lemma_root_begins_none(show, Root::Scene(scene), name);
        }
        lemma_values_begins_none(show.values@, name, show.values@.len());
        assert(s.matching(show, None, want) =~= Seq::<Begin>::empty());
        assert(s.start_matching(None, at, want) == s);
        lemma_no_reel_spins(s, show, name);
        let own = media_paths(show, Root::Show);
        lemma_cued_all_silent(s, show, Root::Show, own, name, at, own.len());
        if let Some(scene) = s.active_scene {
            let there = media_paths(show, Root::Scene(scene));
            lemma_cued_all_silent(s, show, Root::Scene(scene), there, name, at, there.len());
        }
    }
}

} // verus!
