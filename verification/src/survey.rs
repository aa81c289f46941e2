//! What a show holds, found once: its layer trees, the triggers it listens to, and where its
//! eased bindings and reel rows are.

use crate::model::{Binding, DigitDisplay, Layer, LayerKind, Scene, Show, Timeline, Triggers};
use crate::names::{lemma_inserted, lemma_stored, lookup, ordered, NameMap};
use crate::sites::{site_keys, Site, SiteKey};
use crate::text::before;
use crate::tree::{copy_path, layer_nodes, node_views, nodes, Node, Root};
use vstd::prelude::*;

verus! {

/// Whether a name is stored.
pub open spec fn known(entries: Seq<(Seq<char>, bool)>, name: Seq<char>) -> bool {
    lookup(entries, name) is Some
}

/// Whether a layer listens to a trigger: what starts its timelines, what plays or stops its
/// sound or video, or what spins its reels.
pub open spec fn layer_listens(layer: Layer, name: Seq<char>) -> bool {
    ||| timelines_listen(layer.timelines@, name, layer.timelines@.len() as int)
    ||| layer.kind.playhead() matches Some(media) && (media.trigger.has(name) || media.stop.has(
        name,
    ))
    ||| layer.kind matches LayerKind::Digits { display, .. } && display matches DigitDisplay::Reel(
        reel,
    ) && reel.spin.has(name)
}

/// Whether one of the first `n` timelines listens to a trigger.
pub open spec fn timelines_listen(timelines: Seq<Timeline>, name: Seq<char>, n: int) -> bool {
    exists|i: int| 0 <= i < n && (#[trigger] timelines[i]).trigger.has(name)
}

/// Whether one of the first `n` nodes listens to a trigger.
pub open spec fn nodes_listen(list: Seq<(Seq<usize>, Layer)>, name: Seq<char>, n: int) -> bool {
    exists|i: int| 0 <= i < n && layer_listens((#[trigger] list[i]).1, name)
}

/// Whether a layer tree listens to a trigger.
pub open spec fn tree_listens(layers: Seq<Layer>, name: Seq<char>) -> bool {
    let list = nodes(layers, Seq::empty());
    nodes_listen(list, name, list.len() as int)
}

/// Whether one of the first `n` scenes is entered by a trigger, or has a layer that listens to
/// it.
pub open spec fn scenes_listen(scenes: Seq<Scene>, name: Seq<char>, n: int) -> bool {
    exists|i: int|
        0 <= i < n && ((#[trigger] scenes[i]).trigger.has(name) || tree_listens(
            scenes[i].layers@,
            name,
        ))
}

/// Whether a show listens to a trigger.
pub open spec fn listens(show: Show, name: Seq<char>) -> bool {
    tree_listens(show.layers@, name) || scenes_listen(
        show.scenes@,
        name,
        show.scenes@.len() as int,
    )
}

/// A list of names that rise strictly.
pub open spec fn rising(names: Seq<String>) -> bool {
    forall|i: int, j: int|
        0 <= i < j < names.len() ==> before((#[trigger] names[i])@, (#[trigger] names[j])@)
}

proof fn lemma_known_at(entries: Seq<(Seq<char>, bool)>, name: Seq<char>)
    ensures
        known(entries, name) <==> exists|i: int|
            0 <= i < entries.len() && (#[trigger] entries[i]).0 == name,
    decreases entries.len(),
{
    if entries.len() > 0 {
        let rest = entries.drop_first();
        lemma_known_at(rest, name);
        if entries[0].0 != name {
            if known(rest, name) {
                let i = choose|i: int| 0 <= i < rest.len() && (#[trigger] rest[i]).0 == name;
                assert(entries[i + 1].0 == name);
            }
            if exists|i: int| 0 <= i < entries.len() && (#[trigger] entries[i]).0 == name {
                let i = choose|i: int| 0 <= i < entries.len() && (#[trigger] entries[i]).0 == name;
                assert(rest[i - 1].0 == name);
            }
        }
    }
}

fn note(found: &mut NameMap<bool>, triggers: &Triggers)
    requires
        ordered(old(found)@),
    ensures
        ordered(final(found)@),
        forall|name: Seq<char>| #[trigger]
            known(final(found)@, name) <==> known(old(found)@, name) || triggers.has(name),
{
    let names = triggers.iter();
    let mut i: usize = 0;
    while i < names.len()
        invariant
            i <= names.len(),
            names@ == triggers.0@,
            ordered(found@),
            forall|name: Seq<char>| #[trigger]
                known(found@, name) <==> known(old(found)@, name) || exists|k: int|
                    0 <= k < i && (#[trigger] names@[k])@ == name,
        decreases names.len() - i,
    {
        let ghost was = found@;
        found.insert(names[i].clone(), true);
        proof {
            assert forall|name: Seq<char>| #[trigger] known(found@, name) <==> known(
                old(found)@,
                name,
            ) || exists|k: int| 0 <= k < i + 1 && (#[trigger] names@[k])@ == name by {
                lemma_stored(was, names@[i as int]@, true, name);
                assert(known(was, name) <==> known(old(found)@, name) || exists|k: int|
                    0 <= k < i && (#[trigger] names@[k])@ == name);
                if names@[i as int]@ == name {
                    assert(known(found@, name));
                }
            }
            lemma_inserted(was, names@[i as int]@, true);
        }
        i = i + 1;
    }
}

fn note_layer(found: &mut NameMap<bool>, layer: &Layer)
    requires
        ordered(old(found)@),
    ensures
        ordered(final(found)@),
        forall|name: Seq<char>| #[trigger]
            known(final(found)@, name) <==> known(old(found)@, name) || layer_listens(
                *layer,
                name,
            ),
{
    let mut i: usize = 0;
    while i < layer.timelines.len()
        invariant
            i <= layer.timelines.len(),
            ordered(found@),
            forall|name: Seq<char>| #[trigger]
                known(found@, name) <==> known(old(found)@, name) || timelines_listen(
                    layer.timelines@,
                    name,
                    i as int,
                ),
        decreases layer.timelines.len() - i,
    {
        let ghost was = found@;
        note(found, &layer.timelines[i].trigger);
        proof {
            let list = layer.timelines@;
            assert forall|name: Seq<char>| #[trigger] known(found@, name) <==> known(
                old(found)@,
                name,
            ) || timelines_listen(list, name, i + 1) by {
                assert(known(was, name) <==> known(old(found)@, name) || timelines_listen(
                    list,
                    name,
                    i as int,
                ));
                if list[i as int].trigger.has(name) {
                    assert(timelines_listen(list, name, i + 1));
                }
            }
        }
        i = i + 1;
    }
    if let Some(media) = layer.kind.media() {
        note(found, media.trigger);
        note(found, media.stop);
    }
    if let LayerKind::Digits { display, .. } = &layer.kind {
        if let DigitDisplay::Reel(reel) = display {
            note(found, &reel.spin);
        }
    }
}

fn note_tree(found: &mut NameMap<bool>, layers: &[Layer])
    requires
        ordered(old(found)@),
    ensures
        ordered(final(found)@),
        forall|name: Seq<char>| #[trigger]
            known(final(found)@, name) <==> known(old(found)@, name) || tree_listens(
                layers@,
                name,
            ),
{
    let list = layer_nodes(layers);
    let ghost all = nodes(layers@, Seq::empty());
    let mut i: usize = 0;
    while i < list.len()
        invariant
            i <= list.len(),
            node_views(list@) == all,
            ordered(found@),
            forall|name: Seq<char>| #[trigger]
                known(found@, name) <==> known(old(found)@, name) || nodes_listen(
                    all,
                    name,
                    i as int,
                ),
        decreases list.len() - i,
    {
        let ghost was = found@;
        assert(all[i as int] == list@[i as int]@);
        note_layer(found, list[i].layer);
        proof {
            assert forall|name: Seq<char>| #[trigger] known(found@, name) <==> known(
                old(found)@,
                name,
            ) || nodes_listen(all, name, i + 1) by {
                assert(known(was, name) <==> known(old(found)@, name) || nodes_listen(
                    all,
                    name,
                    i as int,
                ));
                if layer_listens(all[i as int].1, name) {
                    assert(nodes_listen(all, name, i + 1));
                }
            }
        }
        i = i + 1;
    }
}

/// Every layer tree of a show: its own layers, and each scene's.
pub open spec fn tree_count(show: Show) -> nat {
    1 + show.scenes@.len()
}

/// Whether one of the first `n` nodes is an audio layer.
pub open spec fn nodes_sound(list: Seq<(Seq<usize>, Layer)>, n: int) -> bool {
    exists|i: int| 0 <= i < n && (#[trigger] list[i]).1.kind is Audio
}

/// Whether a layer tree has an audio layer.
pub open spec fn tree_sounds(layers: Seq<Layer>) -> bool {
    let list = nodes(layers, Seq::empty());
    nodes_sound(list, list.len() as int)
}

fn has_audio(layers: &[Layer]) -> (r: bool)
    ensures
        r == tree_sounds(layers@),
{
    let list = layer_nodes(layers);
    let ghost all = nodes(layers@, Seq::empty());
    let mut i: usize = 0;
    while i < list.len()
        invariant
            i <= list.len(),
            node_views(list@) == all,
            all == nodes(layers@, Seq::empty()),
            !nodes_sound(all, i as int),
        decreases list.len() - i,
    {
        assert(all[i as int] == list@[i as int]@);
        if let LayerKind::Audio { .. } = &list[i].layer.kind {
            assert(all[i as int].1.kind is Audio);
            return true;
        }
        i = i + 1;
    }
    false
}

impl Show {
    /// Every trigger name the show listens to, in order and each once: what enters its scenes,
    /// what starts its timelines and what plays or stops its sounds, in any layer tree. What a
    /// host can offer as the show's actions.
    pub fn triggers(&self) -> (r: Vec<String>)
        ensures
            rising(r@),
            forall|name: Seq<char>| #[trigger]
                listens(*self, name) <==> exists|i: int|
                    0 <= i < r@.len() && (#[trigger] r@[i])@ == name,
    {
        let mut found: NameMap<bool> = NameMap::new();
        assert forall|name: Seq<char>| !#[trigger] known(found@, name) by {}
        note_tree(&mut found, self.layers.as_slice());
        let mut i: usize = 0;
        while i < self.scenes.len()
            invariant
                i <= self.scenes.len(),
                ordered(found@),
                forall|name: Seq<char>| #[trigger]
                    known(found@, name) <==> tree_listens(self.layers@, name) || scenes_listen(
                        self.scenes@,
                        name,
                        i as int,
                    ),
            decreases self.scenes.len() - i,
        {
            let ghost was = found@;
            note(&mut found, &self.scenes[i].trigger);
            let ghost then_was = found@;
            note_tree(&mut found, self.scenes[i].layers.as_slice());
            proof {
                let list = self.scenes@;
                assert forall|name: Seq<char>| #[trigger] known(found@, name) <==> tree_listens(
                    self.layers@,
                    name,
                ) || scenes_listen(list, name, i + 1) by {
                    assert(known(was, name) <==> tree_listens(self.layers@, name) || scenes_listen(
                        list,
                        name,
                        i as int,
                    ));
                    assert(known(then_was, name) <==> known(was, name) || list[i as int].trigger.has(
                        name,
                    ));
                    if list[i as int].trigger.has(name) || tree_listens(
                        list[i as int].layers@,
                        name,
                    ) {
                        assert(scenes_listen(list, name, i + 1));
                    }
                }
            }
            i = i + 1;
        }
        let mut out: Vec<String> = Vec::new();
        let n: usize = found.len();
        let mut k: usize = 0;
        while k < n
            invariant
                k <= n == found@.len(),
                out@.len() == k,
                forall|j: int| 0 <= j < k ==> (#[trigger] out@[j])@ == found@[j].0,
            decreases n - k,
        {
            out.push(found.name_at(k).clone());
            k = k + 1;
        }
        proof {
            assert forall|i: int, j: int| 0 <= i < j < out@.len() implies before(
                (#[trigger] out@[i])@,
                (#[trigger] out@[j])@,
            ) by {
                assert(before(found@[i].0, found@[j].0));
            }
            assert forall|name: Seq<char>| #[trigger] listens(*self, name) <==> exists|i: int|
                0 <= i < out@.len() && (#[trigger] out@[i])@ == name by {
                lemma_known_at(found@, name);
                if known(found@, name) {
                    let j = choose|j: int| 0 <= j < found@.len() && (#[trigger] found@[j]).0 == name;
                    assert(out@[j]@ == name);
                }
            }
        }
        out
    }

    /// Whether anything in the show can make a sound: an audio layer, in its own layers or any
    /// scene's. A video layer is not counted: it is heard only if the host registers a sound
    /// under the video's name.
    pub fn has_sound(&self) -> (r: bool)
        ensures
            r == (tree_sounds(self.layers@) || exists|i: int|
                0 <= i < self.scenes@.len() && tree_sounds((#[trigger] self.scenes@[i]).layers@)),
    {
        if has_audio(self.layers.as_slice()) {
            return true;
        }
        let mut i: usize = 0;
        while i < self.scenes.len()
            invariant
                i <= self.scenes.len(),
                forall|k: int| 0 <= k < i ==> !tree_sounds((#[trigger] self.scenes@[k]).layers@),
            decreases self.scenes.len() - i,
        {
            if has_audio(self.scenes[i].layers.as_slice()) {
                assert(tree_sounds(self.scenes@[i as int].layers@));
                return true;
            }
            i = i + 1;
        }
        false
    }

    /// Every layer tree of the show: its own layers, and each scene's.
    pub fn layer_trees(&self) -> (r: Vec<&[Layer]>)
        ensures
            r@.len() == tree_count(*self),
            r@[0]@ == self.layers@,
            forall|i: int|
                0 <= i < self.scenes@.len() ==> (#[trigger] r@[i + 1])@ == self.scenes@[i].layers@,
    {
        let mut out: Vec<&[Layer]> = Vec::new();
        out.push(self.layers.as_slice());
        let mut i: usize = 0;
        while i < self.scenes.len()
            invariant
                i <= self.scenes.len(),
                out@.len() == 1 + i,
                out@[0]@ == self.layers@,
                forall|k: int|
                    0 <= k < i ==> (#[trigger] out@[k + 1])@ == self.scenes@[k].layers@,
            decreases self.scenes.len() - i,
        {
            let ghost was = out@;
            out.push(self.scenes[i].layers.as_slice());
            i = i + 1;
            assert forall|k: int| 0 <= k < i implies (#[trigger] out@[k + 1])@
                == self.scenes@[k].layers@ by {
                if k < i - 1 {
                    assert(out@[k + 1] == was[k + 1]);
                }
            }
        }
        out
    }
}

/// Which places of a show are looked for.
#[derive(Clone, Copy, Debug, PartialEq, Eq, Structural)]
pub enum Sought {
    /// Bindings with a transition.
    Transitions,
    /// Bindings with a debounce.
    Debounces,
    /// Reel rows.
    Reels,
}

impl Sought {
    pub open spec fn in_binding(self, b: Binding) -> bool {
        match self {
            Sought::Transitions => b.transition is Some,
            Sought::Debounces => b.debounce is Some,
            Sought::Reels => false,
        }
    }

    fn has_binding(self, b: &Binding) -> (r: bool)
        ensures
            r == self.in_binding(*b),
    {
        match self {
            Sought::Transitions => b.transition.is_some(),
            Sought::Debounces => b.debounce.is_some(),
            Sought::Reels => false,
        }
    }

    /// Whether a layer itself is such a place.
    pub open spec fn in_layer(self, layer: Layer) -> bool {
        self == Sought::Reels && (layer.kind matches LayerKind::Digits { display, .. }
            && display is Reel)
    }

    fn has_layer(self, layer: &Layer) -> (r: bool)
        ensures
            r == self.in_layer(*layer),
    {
        match self {
            Sought::Reels => match &layer.kind {
                LayerKind::Digits { display, .. } => match display {
                    DigitDisplay::Reel(_) => true,
                    _ => false,
                },
                _ => false,
            },
            _ => false,
        }
    }

    /// The places among the first `n` bindings of a layer.
    pub open spec fn binding_places(self, root: Root, path: Seq<usize>, layer: Layer, n: nat) -> Seq<
        SiteKey,
    >
        decreases n,
    {
        if n == 0 || n > layer.bindings@.len() {
            Seq::empty()
        } else {
            let before = self.binding_places(root, path, layer, (n - 1) as nat);
            if self.in_binding(layer.bindings@[n - 1]) {
                before.push(SiteKey { root, path, index: (n - 1) as usize })
            } else {
                before
            }
        }
    }

    /// The places in the first `n` of some nodes, in order.
    pub open spec fn places(self, root: Root, list: Seq<(Seq<usize>, Layer)>, n: nat) -> Seq<SiteKey>
        decreases n,
    {
        if n == 0 || n > list.len() {
            Seq::empty()
        } else {
            let (path, layer) = list[n - 1];
            let own = self.binding_places(root, path, layer, layer.bindings@.len());
            self.places(root, list, (n - 1) as nat) + own + (if self.in_layer(layer) {
                seq![SiteKey { root, path, index: 0 }]
            } else {
                Seq::empty()
            })
        }
    }

    /// The places in a layer tree.
    pub open spec fn tree_places(self, root: Root, layers: Seq<Layer>) -> Seq<SiteKey> {
        let list = nodes(layers, Seq::empty());
        self.places(root, list, list.len())
    }

    /// The places in the first `n` scenes.
    pub open spec fn scene_places(self, scenes: Seq<Scene>, n: nat) -> Seq<SiteKey>
        decreases n,
    {
        if n == 0 || n > scenes.len() {
            Seq::empty()
        } else {
            self.scene_places(scenes, (n - 1) as nat) + self.tree_places(
                Root::Scene((n - 1) as usize),
                scenes[n - 1].layers@,
            )
        }
    }

    /// The places in a show.
    pub open spec fn show_places(self, show: Show) -> Seq<SiteKey> {
        self.tree_places(Root::Show, show.layers@) + self.scene_places(
            show.scenes@,
            show.scenes@.len(),
        )
    }

    fn find_in_layer(self, root: Root, node: &Node<'_>, out: &mut Vec<Site>)
        ensures
            site_keys(final(out)@) == site_keys(old(out)@) + self.binding_places(
                root,
                node.path@,
                *node.layer,
                node.layer.bindings@.len(),
            ) + (if self.in_layer(*node.layer) {
                seq![SiteKey { root, path: node.path@, index: 0 }]
            } else {
                Seq::empty()
            }),
    {
        let ghost before = site_keys(out@);
        let mut i: usize = 0;
        assert(before + Seq::<SiteKey>::empty() =~= before);
        while i < node.layer.bindings.len()
            invariant
                i <= node.layer.bindings.len(),
                site_keys(out@) == before + self.binding_places(
                    root,
                    node.path@,
                    *node.layer,
                    i as nat,
                ),
            decreases node.layer.bindings.len() - i,
        {
            if self.has_binding(&node.layer.bindings[i]) {
                let ghost was = site_keys(out@);
                let ghost part = self.binding_places(root, node.path@, *node.layer, i as nat);
                let site = Site { root, path: copy_path(&node.path), index: i };
                out.push(site);
                assert(site_keys(out@) =~= was.push(site@));
                assert((before + part).push(site@) =~= before + part.push(site@));
            }
            i = i + 1;
        }
        let ghost own = site_keys(out@);
        assert(own + Seq::<SiteKey>::empty() =~= own);
        if self.has_layer(node.layer) {
            let site = Site { root, path: copy_path(&node.path), index: 0 };
            out.push(site);
            assert(site_keys(out@) =~= own + seq![site@]);
        }
    }

    fn find_in_tree(self, root: Root, layers: &[Layer], out: &mut Vec<Site>)
        ensures
            site_keys(final(out)@) == site_keys(old(out)@) + self.tree_places(root, layers@),
    {
        let list = layer_nodes(layers);
        let ghost all = nodes(layers@, Seq::empty());
        let ghost before = site_keys(out@);
        let mut i: usize = 0;
        assert(before + Seq::<SiteKey>::empty() =~= before);
        while i < list.len()
            invariant
                i <= list.len(),
                node_views(list@) == all,
                site_keys(out@) == before + self.places(root, all, i as nat),
            decreases list.len() - i,
        {
            assert(all[i as int] == list@[i as int]@);
            self.find_in_layer(root, &list[i], out);
            i = i + 1;
            assert(site_keys(out@) =~= before + self.places(root, all, i as nat));
        }
    }

    /// Where the show's places of this kind are, in tree order.
    pub(crate) fn find(self, show: &Show) -> (r: Vec<Site>)
        ensures
            site_keys(r@) == self.show_places(*show),
    {
        let mut out: Vec<Site> = Vec::new();
        assert(site_keys(out@) =~= Seq::<SiteKey>::empty());
        self.find_in_tree(Root::Show, show.layers.as_slice(), &mut out);
        let ghost own = site_keys(out@);
        assert(own =~= self.tree_places(Root::Show, show.layers@));
        let mut i: usize = 0;
        assert(own + Seq::<SiteKey>::empty() =~= own);
        while i < show.scenes.len()
            invariant
                i <= show.scenes.len(),
                site_keys(out@) == own + self.scene_places(show.scenes@, i as nat),
            decreases show.scenes.len() - i,
        {
            self.find_in_tree(Root::Scene(i), show.scenes[i].layers.as_slice(), &mut out);
            i = i + 1;
            assert(site_keys(out@) =~= own + self.scene_places(show.scenes@, i as nat));
        }
        out
    }
}

/// Where the show's bindings with a transition are, and those with a debounce.
pub fn binding_sites(show: &Show) -> (r: (Vec<Site>, Vec<Site>))
    ensures
        site_keys(r.0@) == Sought::Transitions.show_places(*show),
        site_keys(r.1@) == Sought::Debounces.show_places(*show),
{
    (Sought::Transitions.find(show), Sought::Debounces.find(show))
}

/// Where the show's reel rows are.
pub fn reel_sites(show: &Show) -> (r: Vec<Site>)
    ensures
        site_keys(r@) == Sought::Reels.show_places(*show),
{
    Sought::Reels.find(show)
}

} // verus!
