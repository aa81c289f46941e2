//! What starts and stops: timelines, sounds and videos, scenes and triggers.

use crate::lists::{first_where, lemma_filter_none, lemma_filter_step, some_is};
use crate::model::{
    DigitDisplay, Layer, LayerKind, Media, MediaInfo, MediaKind, Reel, Retrigger, Scene, Show,
    ShowValue, Timeline, Triggers, ValueTimeline,
};
use crate::names::lookup;
use crate::num::{less, max_of, num, opposite_of, sum_of, Num};
use crate::pick::{layer_seed, pick_one, picked, seed_of};
use crate::sites::{has_site, layer_site, shows_own, site_keys, Site, SiteKey};
use crate::state::{
    plays_of, runnings, turns_of, Engine, Owner, OwnerKey, Play, Played, Playhead, Running,
    Sounding, State, Turn, Waiting,
};
use crate::tree::{
    copy_path, find_layer, layer_in, layer_nodes, node_views, nodes, root_layers, rooted, Root,
};
use vstd::prelude::*;

verus! {

/// The paths of the layers of a tree that play something, in order.
pub open spec fn media_paths(show: Show, root: Root) -> Seq<Seq<usize>> {
    match rooted(show, root) {
        Some(layers) => nodes(layers, Seq::empty()).filter(plays_media()).map_values(
            |n: (Seq<usize>, Layer)| n.0,
        ),
        None => Seq::empty(),
    }
}

pub open spec fn plays_media() -> spec_fn((Seq<usize>, Layer)) -> bool {
    |n: (Seq<usize>, Layer)| n.1.kind.playhead() is Some
}

pub open spec fn path_views(list: Seq<Vec<usize>>) -> Seq<Seq<usize>> {
    list.map_values(|p: Vec<usize>| p@)
}

pub(crate) fn media_path_list(show: &Show, root: Root) -> (r: Vec<Vec<usize>>)
    ensures
        path_views(r@) == media_paths(*show, root),
{
    let mut out: Vec<Vec<usize>> = Vec::new();
    let layers = match root_layers(show, root) {
        Some(layers) => layers,
        None => {
            assert(path_views(out@) =~= Seq::<Seq<usize>>::empty());
            return out;
        },
    };
    let list = layer_nodes(layers);
    let ghost all = nodes(layers@, Seq::empty());
    let ghost first = |n: (Seq<usize>, Layer)| n.0;
    let mut i: usize = 0;
    proof {
        lemma_filter_none(all, plays_media());
        assert(path_views(out@) =~= all.take(0).filter(plays_media()).map_values(first));
    }
    while i < list.len()
        invariant
            i <= list.len(),
            node_views(list@) == all,
            first == (|n: (Seq<usize>, Layer)| n.0),
            path_views(out@) == all.take(i as int).filter(plays_media()).map_values(first),
        decreases list.len() - i,
    {
        let node = &list[i];
        assert(all[i as int] == node@);
        let ghost before = path_views(out@);
        proof {
            lemma_filter_step(all, plays_media(), i as int);
        }
        if node.layer.kind.media().is_some() {
            out.push(copy_path(&node.path));
            assert(path_views(out@) =~= before.push(node.path@));
            assert(all.take(i as int).filter(plays_media()).push(node@).map_values(first)
                =~= before.push(node.path@));
        }
        i = i + 1;
    }
    assert(all.take(i as int) =~= all);
    out
}

/// The first scene that a trigger enters.
pub open spec fn entered(show: Show, name: Seq<char>) -> Option<int> {
    first_where(show.scenes@, |s: Scene| s.trigger.has(name), 0)
}

fn entered_by(show: &Show, name: &str) -> (r: Option<usize>)
    ensures
        match r {
            Some(i) => entered(*show, name@) == Some(i as int),
            None => entered(*show, name@) is None,
        },
{
    let ghost pred = |s: Scene| s.trigger.has(name@);
    let mut i: usize = 0;
    while i < show.scenes.len()
        invariant
            i <= show.scenes.len(),
            pred == (|s: Scene| s.trigger.has(name@)),
            first_where(show.scenes@, pred, 0) == first_where(show.scenes@, pred, i as int),
        decreases show.scenes.len() - i,
    {
        if show.scenes[i].trigger.contains(name) {
            return Some(i);
        }
        i = i + 1;
    }
    None
}

/// Which timelines a start is asking for.
#[derive(Clone, Copy, Debug)]
pub enum Want<'a> {
    /// Everything that starts when the show loads or a scene is entered.
    Autoplay,
    /// Everything this trigger starts.
    Trigger(&'a str),
}

/// A [`Want`], by value.
pub ghost enum Wanted {
    Autoplay,
    Trigger(Seq<char>),
}

impl<'a> View for Want<'a> {
    type V = Wanted;

    open spec fn view(&self) -> Wanted {
        match self {
            Want::Autoplay => Wanted::Autoplay,
            Want::Trigger(name) => Wanted::Trigger(name@),
        }
    }
}

impl Wanted {
    pub open spec fn picks(self, autoplay: bool, trigger: Triggers) -> bool {
        match self {
            Wanted::Autoplay => autoplay,
            Wanted::Trigger(name) => trigger.has(name),
        }
    }
}

impl<'a> Want<'a> {
    pub fn picks(self, autoplay: bool, trigger: &Triggers) -> (r: bool)
        ensures
            r == self@.picks(autoplay, *trigger),
    {
        match self {
            Want::Autoplay => autoplay,
            Want::Trigger(name) => trigger.contains(name),
        }
    }
}

/// A timeline to start, with its delay.
#[derive(Debug)]
pub struct Start {
    pub owner: Owner,
    pub timeline: usize,
    pub delay: Num,
}

/// A [`Start`], by value.
pub ghost struct Begin {
    pub owner: OwnerKey,
    pub timeline: usize,
    pub delay: Num,
}

impl View for Start {
    type V = Begin;

    open spec fn view(&self) -> Begin {
        Begin { owner: self.owner@, timeline: self.timeline, delay: self.delay }
    }
}

pub open spec fn begins_of(list: Seq<Start>) -> Seq<Begin> {
    list.map_values(|s: Start| s@)
}

/// What is wanted of the first `n` timelines of a layer.
pub open spec fn layer_begins(
    owner: OwnerKey,
    timelines: Seq<Timeline>,
    want: Wanted,
    n: nat,
) -> Seq<Begin>
    decreases n,
{
    if n == 0 || n > timelines.len() {
        Seq::empty()
    } else {
        let before = layer_begins(owner, timelines, want, (n - 1) as nat);
        let tl = timelines[n - 1];
        if want.picks(tl.autoplay, tl.trigger) {
            before.push(
                Begin { owner, timeline: (n - 1) as usize, delay: max_of(tl.delay, num(0)) },
            )
        } else {
            before
        }
    }
}

/// What is wanted of the timelines of the first `n` layers of a tree.
pub open spec fn tree_begins(
    root: Root,
    list: Seq<(Seq<usize>, Layer)>,
    want: Wanted,
    n: nat,
) -> Seq<Begin>
    decreases n,
{
    if n == 0 || n > list.len() {
        Seq::empty()
    } else {
        let (path, layer) = list[n - 1];
        tree_begins(root, list, want, (n - 1) as nat) + layer_begins(
            OwnerKey::Layer(root, path),
            layer.timelines@,
            want,
            layer.timelines@.len(),
        )
    }
}

/// What is wanted of the timelines of one tree.
pub open spec fn root_begins(show: Show, root: Root, want: Wanted) -> Seq<Begin> {
    match rooted(show, root) {
        Some(layers) => {
            let list = nodes(layers, Seq::empty());
            tree_begins(root, list, want, list.len())
        },
        None => Seq::empty(),
    }
}

/// What is wanted of the first `n` timelines of a show value.
pub open spec fn value_begins(
    owner: OwnerKey,
    timelines: Seq<ValueTimeline>,
    want: Wanted,
    n: nat,
) -> Seq<Begin>
    decreases n,
{
    if n == 0 || n > timelines.len() {
        Seq::empty()
    } else {
        let before = value_begins(owner, timelines, want, (n - 1) as nat);
        let tl = timelines[n - 1];
        if want.picks(tl.autoplay, tl.trigger) {
            before.push(
                Begin { owner, timeline: (n - 1) as usize, delay: max_of(tl.delay, num(0)) },
            )
        } else {
            before
        }
    }
}

/// What is wanted of the first `n` show values.
pub open spec fn values_begins(
    values: Seq<(Seq<char>, ShowValue)>,
    want: Wanted,
    n: nat,
) -> Seq<Begin>
    decreases n,
{
    if n == 0 || n > values.len() {
        Seq::empty()
    } else {
        let (name, value) = values[n - 1];
        values_begins(values, want, (n - 1) as nat) + value_begins(
            OwnerKey::Value(name),
            value.timelines@,
            want,
            value.timelines@.len(),
        )
    }
}

fn push_tree_starts(show: &Show, root: Root, want: Want<'_>, out: &mut Vec<Start>)
    ensures
        begins_of(final(out)@) == begins_of(old(out)@) + root_begins(*show, root, want@),
{
    let ghost before = begins_of(out@);
    let layers = match root_layers(show, root) {
        Some(layers) => layers,
        None => {
            assert(before + Seq::<Begin>::empty() =~= before);
            return ;
        },
    };
    let list = layer_nodes(layers);
    let ghost all = nodes(layers@, Seq::empty());
    let mut i: usize = 0;
    assert(before + Seq::<Begin>::empty() =~= before);
    while i < list.len()
        invariant
            i <= list.len(),
            node_views(list@) == all,
            begins_of(out@) == before + tree_begins(root, all, want@, i as nat),
        decreases list.len() - i,
    {
        let node = &list[i];
        assert(all[i as int] == node@);
        let ghost here = begins_of(out@);
        let ghost owner = OwnerKey::Layer(root, node.path@);
        let mut k: usize = 0;
        assert(here + Seq::<Begin>::empty() =~= here);
        while k < node.layer.timelines.len()
            invariant
                k <= node.layer.timelines.len(),
                owner == OwnerKey::Layer(root, node.path@),
                begins_of(out@) == here + layer_begins(
                    owner,
                    node.layer.timelines@,
                    want@,
                    k as nat,
                ),
            decreases node.layer.timelines.len() - k,
        {
            let tl = &node.layer.timelines[k];
            if want.picks(tl.autoplay, &tl.trigger) {
                let ghost was = begins_of(out@);
                out.push(
                    Start {
                        owner: Owner::Layer { root, path: copy_path(&node.path) },
                        timeline: k,
                        delay: tl.delay.max(num(0)),
                    },
                );
                proof {
                    let b = Begin { owner, timeline: k, delay: max_of(tl.delay, num(0)) };
                    assert(begins_of(out@) =~= was.push(b));
                    assert(was.push(b) =~= here + layer_begins(
                        owner,
                        node.layer.timelines@,
                        want@,
                        k as nat,
                    ).push(b));
                }
            }
            k = k + 1;
        }
        proof {
            assert(begins_of(out@) =~= before + tree_begins(root, all, want@, (i + 1) as nat));
        }
        i = i + 1;
    }
}

fn push_value_starts(show: &Show, want: Want<'_>, out: &mut Vec<Start>)
    ensures
        begins_of(final(out)@) == begins_of(old(out)@) + values_begins(
            show.values@,
            want@,
            show.values@.len(),
        ),
{
    let ghost before = begins_of(out@);
    let ghost all = show.values@;
    let mut i: usize = 0;
    assert(before + Seq::<Begin>::empty() =~= before);
    while i < show.values.len()
        invariant
            i <= show.values@.len(),
            all == show.values@,
            begins_of(out@) == before + values_begins(all, want@, i as nat),
        decreases show.values@.len() - i,
    {
        let value = show.values.value_at(i);
        let name = show.values.name_at(i);
        let ghost here = begins_of(out@);
        let ghost owner = OwnerKey::Value(name@);
        assert(all[i as int] == (name@, *value));
        let mut k: usize = 0;
        assert(here + Seq::<Begin>::empty() =~= here);
        while k < value.timelines.len()
            invariant
                k <= value.timelines.len(),
                owner == OwnerKey::Value(name@),
                begins_of(out@) == here + value_begins(owner, value.timelines@, want@, k as nat),
            decreases value.timelines.len() - k,
        {
            let tl = &value.timelines[k];
            if want.picks(tl.autoplay, &tl.trigger) {
                let ghost was = begins_of(out@);
                out.push(
                    Start {
                        owner: Owner::Value(name.clone()),
                        timeline: k,
                        delay: tl.delay.max(num(0)),
                    },
                );
                proof {
                    let b = Begin { owner, timeline: k, delay: max_of(tl.delay, num(0)) };
                    assert(begins_of(out@) =~= was.push(b));
                    assert(was.push(b) =~= here + value_begins(
                        owner,
                        value.timelines@,
                        want@,
                        k as nat,
                    ).push(b));
                }
            }
            k = k + 1;
        }
        proof {
            assert(begins_of(out@) =~= before + values_begins(all, want@, (i + 1) as nat));
        }
        i = i + 1;
    }
}

/// The reel row at a site.
pub open spec fn reel_in(show: Show, site: SiteKey) -> Option<Reel> {
    match layer_in(show, site.root, site.path) {
        Some(Layer { kind: LayerKind::Digits { display: DigitDisplay::Reel(reel), .. }, .. }) => Some(
            reel,
        ),
        _ => None,
    }
}

pub(crate) fn reel_at<'a>(show: &'a Show, site: &Site) -> (r: Option<&'a Reel>)
    ensures
        match r {
            Some(reel) => reel_in(*show, site@) == Some(*reel),
            None => reel_in(*show, site@) is None,
        },
{
    match find_layer(show, site.root, site.path.as_slice()) {
        Some(layer) => match &layer.kind {
            LayerKind::Digits { display: DigitDisplay::Reel(reel), .. } => Some(reel),
            _ => None,
        },
        None => None,
    }
}

/// The plays without the first `over` of a layer's.
pub open spec fn without_oldest(plays: Seq<Play>, root: Root, path: Seq<usize>, over: nat) -> Seq<
    Play,
>
    decreases plays.len(),
{
    if plays.len() == 0 {
        plays
    } else if over > 0 && plays[0].on(root, path) {
        without_oldest(plays.drop_first(), root, path, (over - 1) as nat)
    } else {
        seq![plays[0]] + without_oldest(plays.drop_first(), root, path, over)
    }
}

impl State {
    /// The layer at a path of the loaded show.
    pub open spec fn layer(self, root: Root, path: Seq<usize>) -> Option<Layer> {
        match self.show {
            Some(show) => layer_in(show, root, path),
            None => None,
        }
    }

    /// The playhead of the layer at a path.
    pub open spec fn media_at(self, root: Root, path: Seq<usize>) -> Option<MediaInfo> {
        match self.layer(root, path) {
            Some(layer) => layer.kind.playhead(),
            None => None,
        }
    }

    /// Where the layer at a path is pointed.
    pub open spec fn pointed(self, root: Root, path: Seq<usize>) -> Option<Seq<char>> {
        match self.layer(root, path) {
            Some(layer) => self.pointed_at(root, path, layer),
            None => None,
        }
    }

    /// How many plays a layer has started.
    pub open spec fn play_count(self, root: Root, path: Seq<usize>) -> u64 {
        let site = layer_site(root, path);
        if self.plays.contains_key(site) {
            self.plays[site].count
        } else {
            0
        }
    }

    /// The asset a new play of a layer would take: what the layer is pointed at, or the next
    /// of the several it names.
    pub open spec fn media_name(self, root: Root, path: Seq<usize>) -> Seq<char> {
        match self.layer(root, path) {
            None => Seq::empty(),
            Some(layer) => match (self.pointed_at(root, path, layer), layer.kind.playhead()) {
                (Some(name), _) => name,
                (None, None) => Seq::empty(),
                (None, Some(media)) => media.names.name_at(
                    picked(
                        media.names.0@.len(),
                        media.pick,
                        self.play_count(root, path),
                        self.seed ^ layer_seed(root, path),
                    ),
                ),
            },
        }
    }

    /// How long the content of a playhead runs, while it is registered.
    pub open spec fn media_length(self, media: MediaInfo, playing: Seq<char>) -> Option<Num> {
        let name = if playing.len() == 0 {
            media.names.name_at(0)
        } else {
            playing
        };
        match media.kind {
            MediaKind::Sound => lookup(self.sounds, name),
            MediaKind::Video => match lookup(self.videos, name) {
                Some(info) => Some(info.duration),
                None => None,
            },
        }
    }

    /// Whether a play of a layer is running.
    pub open spec fn busy(self, root: Root, path: Seq<usize>) -> bool {
        some_is(self.sounding, |p: Play| p.on(root, path))
    }

    /// A layer's plays.
    pub open spec fn plays_on(self, root: Root, path: Seq<usize>) -> Seq<Play> {
        self.sounding.filter(|p: Play| p.on(root, path))
    }

    /// The turns waiting for a layer.
    pub open spec fn turns_on(self, root: Root, path: Seq<usize>) -> Seq<Turn> {
        self.waiting.filter(|t: Turn| t.on(root, path))
    }

    /// With every play of a layer stopped.
    pub open spec fn silenced(self, root: Root, path: Seq<usize>) -> State {
        State { sounding: self.sounding.filter(|p: Play| !p.on(root, path)), ..self }
    }

    /// With nothing waiting for a layer.
    pub open spec fn unqueued(self, root: Root, path: Seq<usize>) -> State {
        State { waiting: self.waiting.filter(|t: Turn| !t.on(root, path)), ..self }
    }

    /// With one more play of a layer, of an asset, from an instant on.
    pub open spec fn launched(
        self,
        root: Root,
        path: Seq<usize>,
        asked: Option<Seq<char>>,
        at: Num,
    ) -> State {
        let site = layer_site(root, path);
        let id = self.next_voice.saturating_add(1);
        let playing = match asked {
            Some(name) => name,
            None => self.media_name(root, path),
        };
        State {
            next_voice: id,
            shown: self.shown.insert(site, playing),
            plays: self.plays.insert(
                site,
                Played { count: self.play_count(root, path).wrapping_add(1), at },
            ),
            sounding: self.sounding.push(Play { root, path, id, started: at, playing }),
            ..self
        }
    }

    /// Whether a play asked for at an instant comes too soon after the last.
    pub open spec fn too_soon(self, root: Root, path: Seq<usize>, rest: Num, at: Num) -> bool {
        let site = layer_site(root, path);
        less(num(0), rest) && self.plays.contains_key(site) && less(
            sum_of(at, opposite_of(self.plays[site].at)),
            rest,
        )
    }

    /// A play of a layer asked for at an instant, as the layer's `retrigger` says when it
    /// already plays.
    pub open spec fn started(
        self,
        root: Root,
        path: Seq<usize>,
        asked: Option<Seq<char>>,
        at: Num,
    ) -> State {
        match self.media_at(root, path) {
            None => self,
            Some(media) => {
                let voices: nat = if media.voices > 1 {
                    media.voices as nat
                } else {
                    1
                };
                if self.too_soon(root, path, media.rest, at) {
                    self
                } else {
                    match media.retrigger {
                        Retrigger::Restart => self.silenced(root, path).launched(
                            root,
                            path,
                            asked,
                            at,
                        ),
                        Retrigger::Ignore => if self.busy(root, path) {
                            self
                        } else {
                            self.launched(root, path, asked, at)
                        },
                        Retrigger::Queue => if !self.busy(root, path) {
                            self.launched(root, path, asked, at)
                        } else if self.turns_on(root, path).len() < voices {
                            State {
                                waiting: self.waiting.push(
                                    Turn { root, path, asked: self.media_name(root, path) },
                                ),
                                ..self
                            }
                        } else {
                            self
                        },
                        Retrigger::Overlap => {
                            let mine = self.plays_on(root, path).len();
                            let over: nat = if mine + 1 > voices {
                                (mine + 1 - voices) as nat
                            } else {
                                0
                            };
                            State {
                                sounding: without_oldest(self.sounding, root, path, over),
                                ..self
                            }.launched(root, path, asked, at)
                        },
                    }
                }
            },
        }
    }

    /// With the autoplay media of the first `n` of some layers started.
    pub open spec fn autoplayed(self, root: Root, paths: Seq<Seq<usize>>, n: nat) -> State
        decreases n,
    {
        if n == 0 || n > paths.len() {
            self
        } else {
            let before = self.autoplayed(root, paths, (n - 1) as nat);
            let path = paths[n - 1];
            match before.media_at(root, path) {
                Some(media) => if media.autoplay {
                    before.started(root, path, None, before.time)
                } else {
                    before
                },
                None => before,
            }
        }
    }

    /// With the autoplay media of a tree started.
    pub open spec fn play_autoplay(self, root: Root) -> State {
        match self.show {
            Some(show) => {
                let paths = media_paths(show, root);
                self.autoplayed(root, paths, paths.len())
            },
            None => self,
        }
    }

    /// With a timeline of an owner started anew.
    pub open spec fn begun(self, owner: OwnerKey, timeline: usize, starts: Num) -> State {
        State {
            playing: self.playing.filter(
                |p: Running| !(p.owner == owner && p.timeline == timeline),
            ).push(Running { owner, timeline, starts, held: false }),
            ..self
        }
    }

    /// With the first `n` of some timelines started at an instant.
    pub open spec fn begun_all(self, list: Seq<Begin>, at: Num, n: nat) -> State
        decreases n,
    {
        if n == 0 || n > list.len() {
            self
        } else {
            let b = list[n - 1];
            self.begun_all(list, at, (n - 1) as nat).begun(
                b.owner,
                b.timeline,
                sum_of(at, b.delay),
            )
        }
    }

    /// The timelines that are wanted: of one tree, or of everything that is showing; with the
    /// show's own layers come its values.
    pub open spec fn matching(self, show: Show, root: Option<Root>, want: Wanted) -> Seq<Begin> {
        let values = values_begins(show.values@, want, show.values@.len());
        match root {
            Some(root) => root_begins(show, root, want) + if root == Root::Show {
                values
            } else {
                Seq::empty()
            },
            None => match self.active_scene {
                Some(scene) => root_begins(show, Root::Show, want) + root_begins(
                    show,
                    Root::Scene(scene),
                    want,
                ) + values,
                None => root_begins(show, Root::Show, want) + values,
            },
        }
    }

    /// With every timeline that is wanted started anew at an instant.
    pub open spec fn start_matching(self, root: Option<Root>, at: Num, want: Wanted) -> State {
        match self.show {
            Some(show) => {
                let list = self.matching(show, root, want);
                self.begun_all(list, at, list.len())
            },
            None => self,
        }
    }

    /// With only what belongs to the show's own layers left.
    pub open spec fn without_scene(self) -> State {
        State {
            playing: self.playing.filter(|p: Running| p.owner.root() == Root::Show),
            sounding: self.sounding.filter(|p: Play| p.root == Root::Show),
            waiting: self.waiting.filter(|t: Turn| t.root == Root::Show),
            transitions: shows_own(self.transitions),
            color_transitions: shows_own(self.color_transitions),
            debounced: shows_own(self.debounced),
            reels: shows_own(self.reels),
            ..self
        }
    }

    /// With a scene entered: the previous one's timelines and sounds stop, its own start.
    pub open spec fn enter_scene(self, scene: usize) -> State {
        State { active_scene: Some(scene), ..self.without_scene() }.start_matching(
            Some(Root::Scene(scene)),
            self.time,
            Wanted::Autoplay,
        ).play_autoplay(Root::Scene(scene))
    }

    /// With the reel rows that a trigger spins noted.
    pub open spec fn set_spinning(self, name: Seq<char>) -> State {
        match self.show {
            Some(show) => State {
                spinning: self.spinning + self.reel_sites.filter(
                    |site: SiteKey| self.spins(show, site, name),
                ),
                ..self
            },
            None => self,
        }
    }

    /// Whether a trigger sets a reel row spinning that is not yet.
    pub open spec fn spins(self, show: Show, site: SiteKey, name: Seq<char>) -> bool {
        self.shows(site.root) && reel_in(show, site) is Some && reel_in(show, site)->0.spin.has(
            name,
        ) && !self.spinning.contains(site)
    }

    /// What a trigger does to one layer: what it stops, then what it plays.
    pub open spec fn cued(self, root: Root, path: Seq<usize>, name: Seq<char>, at: Num) -> State {
        match self.media_at(root, path) {
            Some(media) => {
                let stopped = if media.stop.has(name) {
                    self.silenced(root, path).unqueued(root, path)
                } else {
                    self
                };
                if media.trigger.has(name) {
                    stopped.started(root, path, None, at)
                } else {
                    stopped
                }
            },
            None => self,
        }
    }

    /// With the first `n` of some layers told of a trigger.
    pub open spec fn cued_all(
        self,
        root: Root,
        paths: Seq<Seq<usize>>,
        name: Seq<char>,
        at: Num,
        n: nat,
    ) -> State
        decreases n,
    {
        if n == 0 || n > paths.len() {
            self
        } else {
            self.cued_all(root, paths, name, at, (n - 1) as nat).cued(
                root,
                paths[n - 1],
                name,
                at,
            )
        }
    }

    /// With the layers of a tree told of a trigger.
    pub open spec fn cued_tree(self, root: Root, name: Seq<char>, at: Num) -> State {
        match self.show {
            Some(show) => {
                let paths = media_paths(show, root);
                self.cued_all(root, paths, name, at, paths.len())
            },
            None => self,
        }
    }

    /// With a trigger fired as if at an instant: a scene entered, timelines started, reels set
    /// spinning, sounds and videos stopped and played.
    #[verifier::opaque]
    pub open spec fn trigger_at(self, name: Seq<char>, at: Num) -> State {
        let scene = match self.show {
            Some(show) => entered(show, name),
            None => None,
        };
        let there = match scene {
            Some(i) => self.enter_scene(i as usize),
            None => self,
        };
        let set = there.start_matching(None, at, Wanted::Trigger(name)).set_spinning(name);
        let own = set.cued_tree(Root::Show, name, at);
        match set.active_scene {
            Some(scene) => own.cued_tree(Root::Scene(scene), name, at),
            None => own,
        }
    }

    /// The show put back to its beginning, before anything starts.
    pub open spec fn rewound(self, show: Show) -> State {
        State {
            variables: show.variables@,
            playing: Seq::empty(),
            sounding: Seq::empty(),
            transitions: Map::empty(),
            color_transitions: Map::empty(),
            debounced: Map::empty(),
            reels: Map::empty(),
            spinning: Seq::empty(),
            shown: Map::empty(),
            ducking: Map::empty(),
            conditions: Map::empty(),
            plays: Map::empty(),
            waiting: Seq::empty(),
            events: Seq::empty(),
            time: num(0),
            active_scene: if show.scenes@.len() == 0 {
                None
            } else {
                Some(0)
            },
            ..self
        }
    }

    /// The show put back to its beginning: time 0, the first scene, nothing but the autoplay
    /// timelines and media playing, every variable at the value the document declares.
    pub open spec fn restart(self) -> State {
        match self.show {
            Some(show) => {
                let own = self.rewound(show).start_matching(
                    Some(Root::Show),
                    num(0),
                    Wanted::Autoplay,
                ).play_autoplay(Root::Show);
                if show.scenes@.len() == 0 {
                    own
                } else {
                    own.start_matching(
                        Some(Root::Scene(0)),
                        num(0),
                        Wanted::Autoplay,
                    ).play_autoplay(Root::Scene(0))
                }
            },
            None => self,
        }
    }
}

impl Engine {
    pub(crate) fn layer<'a>(&'a self, root: Root, path: &Vec<usize>) -> (r: Option<&'a Layer>)
        ensures
            match r {
                Some(layer) => self@.layer(root, path@) == Some(*layer),
                None => self@.layer(root, path@) is None,
            },
    {
        match &self.show {
            Some(show) => find_layer(show, root, path.as_slice()),
            None => None,
        }
    }

    pub(crate) fn media_at<'a>(&'a self, root: Root, path: &Vec<usize>) -> (r: Option<Media<'a>>)
        ensures
            match r {
                Some(media) => self@.media_at(root, path@) == Some(media@),
                None => self@.media_at(root, path@) is None,
            },
    {
        match self.layer(root, path) {
            Some(layer) => layer.kind.media(),
            None => None,
        }
    }

    pub(crate) fn pointed(&self, root: Root, path: &Vec<usize>) -> (r: Option<String>)
        ensures
            match r {
                Some(name) => self@.pointed(root, path@) == Some(name@),
                None => self@.pointed(root, path@) is None,
            },
    {
        match self.layer(root, path) {
            Some(layer) => self.pointed_at(root, layer, path),
            None => None,
        }
    }

    fn play_count(&self, root: Root, path: &Vec<usize>) -> (r: u64)
        ensures
            r == self@.play_count(root, path@),
    {
        let site = Site::of_layer(root, path);
        match self.plays.get(&site) {
            Some(played) => played.count,
            None => 0,
        }
    }

    /// The asset a new play of the layer at `path` would take.
    pub(crate) fn media_name(&self, root: Root, path: &Vec<usize>) -> (r: String)
        ensures
            r@ == self@.media_name(root, path@),
    {
        let layer = match self.layer(root, path) {
            Some(layer) => layer,
            None => {
                return String::new();
            },
        };
        if let Some(pointed) = self.pointed_at(root, layer, path) {
            return pointed;
        }
        match layer.kind.media() {
            None => String::new(),
            Some(media) => pick_one(
                media.names,
                media.pick,
                self.play_count(root, path),
                self.seed ^ seed_of(root, path.as_slice()),
            ),
        }
    }

    /// How long the content of a playhead runs, whichever registry it comes from.
    pub(crate) fn media_duration(&self, media: &Media<'_>, playing: &str) -> (r: Option<Num>)
        ensures
            r == self@.media_length(media@, playing@),
    {
        let name = if playing.unicode_len() == 0 {
            media.names.first()
        } else {
            playing
        };
        match media.kind {
            MediaKind::Sound => match self.sounds.get(name) {
                Some(n) => Some(*n),
                None => None,
            },
            MediaKind::Video => match self.videos.get(name) {
                Some(video) => Some(video.duration),
                None => None,
            },
        }
    }

    pub(crate) fn is_busy(&self, root: Root, path: &Vec<usize>) -> (r: bool)
        ensures
            r == self@.busy(root, path@),
    {
        let ghost pred = |p: Play| p.on(root, path@);
        let mut i: usize = 0;
        while i < self.sounding.len()
            invariant
                i <= self.sounding.len(),
                pred == (|p: Play| p.on(root, path@)),
                forall|j: int| 0 <= j < i ==> !(#[trigger] self@.sounding[j]).on(root, path@),
            decreases self.sounding.len() - i,
        {
            assert(self@.sounding[i as int] == self.sounding@[i as int]@);
            if self.sounding[i].on(root, path) {
                assert(pred(self@.sounding[i as int]));
                return true;
            }
            i = i + 1;
        }
        false
    }

    fn count_plays(&self, root: Root, path: &Vec<usize>) -> (r: usize)
        ensures
            r == self@.plays_on(root, path@).len(),
            r <= self.sounding@.len(),
    {
        let ghost pred = |p: Play| p.on(root, path@);
        let ghost all = self@.sounding;
        let mut n: usize = 0;
        let mut i: usize = 0;
        proof {
            lemma_filter_none(all, pred);
        }
        while i < self.sounding.len()
            invariant
                i <= self.sounding.len(),
                n <= i,
                all == self@.sounding,
                pred == (|p: Play| p.on(root, path@)),
                n == all.take(i as int).filter(pred).len(),
            decreases self.sounding.len() - i,
        {
            proof {
                lemma_filter_step(all, pred, i as int);
            }
            assert(all[i as int] == self.sounding@[i as int]@);
            if self.sounding[i].on(root, path) {
                n = n + 1;
            }
            i = i + 1;
        }
        assert(all.take(i as int) =~= all);
        n
    }

    pub(crate) fn count_turns(&self, root: Root, path: &Vec<usize>) -> (r: usize)
        ensures
            r == self@.turns_on(root, path@).len(),
    {
        let ghost pred = |t: Turn| t.on(root, path@);
        let ghost all = self@.waiting;
        let mut n: usize = 0;
        let mut i: usize = 0;
        proof {
            lemma_filter_none(all, pred);
        }
        while i < self.waiting.len()
            invariant
                i <= self.waiting.len(),
                n <= i,
                all == self@.waiting,
                pred == (|t: Turn| t.on(root, path@)),
                n == all.take(i as int).filter(pred).len(),
            decreases self.waiting.len() - i,
        {
            proof {
                lemma_filter_step(all, pred, i as int);
            }
            assert(all[i as int] == self.waiting@[i as int]@);
            if self.waiting[i].on(root, path) {
                n = n + 1;
            }
            i = i + 1;
        }
        assert(all.take(i as int) =~= all);
        n
    }

    /// Stops every play of a layer.
    pub(crate) fn silence(&mut self, root: Root, path: &Vec<usize>)
        ensures
            final(self)@ == old(self)@.silenced(root, path@),
    {
        retain_plays(&mut self.sounding, Some((root, path)));
        assert(self@ =~= old(self)@.silenced(root, path@));
    }

    fn unqueue(&mut self, root: Root, path: &Vec<usize>)
        ensures
            final(self)@ == old(self)@.unqueued(root, path@),
    {
        retain_turns(&mut self.waiting, Some((root, path)));
        assert(self@ =~= old(self)@.unqueued(root, path@));
    }

    fn launch(&mut self, root: Root, path: &Vec<usize>, asked: Option<String>, at: Num)
        ensures
            final(self)@ == old(self)@.launched(
                root,
                path@,
                match asked {
                    Some(name) => Some(name@),
                    None => None,
                },
                at,
            ),
    {
        let count: u64 = self.play_count(root, path);
        let playing = match asked {
            Some(name) => name,
            None => self.media_name(root, path),
        };
        self.next_voice = self.next_voice.saturating_add(1);
        self.shown.insert(Site::of_layer(root, path), playing.clone());
        self.plays.insert(
            Site::of_layer(root, path),
            Played { count: count.wrapping_add(1), at },
        );
        let ghost was = self@;
        self.sounding.push(
            Sounding { root, layer_path: copy_path(path), id: self.next_voice, started: at, playing },
        );
        assert(self@.sounding =~= was.sounding.push(
            Play { root, path: path@, id: self.next_voice, started: at, playing: playing@ },
        ));
        assert(self@ =~= old(self)@.launched(
            root,
            path@,
            match asked {
                Some(name) => Some(name@),
                None => None,
            },
            at,
        ));
    }

    /// Start a play of the layer at `path`, of `asked` when the caller has already settled
    /// which asset it wants.
    pub(crate) fn start(&mut self, root: Root, path: &Vec<usize>, asked: Option<String>, at: Num)
        ensures
            final(self)@ == old(self)@.started(
                root,
                path@,
                match asked {
                    Some(name) => Some(name@),
                    None => None,
                },
                at,
            ),
    {
        let (retrigger, limit, rest): (Retrigger, usize, Num) = match self.media_at(root, path) {
            Some(media) => (
                media.retrigger,
                if media.voices > 1 {
                    media.voices as usize
                } else {
                    1
                },
                media.rest,
            ),
            None => {
                return ;
            },
        };
        // Too soon after the last play: dropped, whatever the layer would otherwise do.
        if num(0).lt(rest) {
            let site = Site::of_layer(root, path);
            if let Some(played) = self.plays.get(&site) {
                if at.minus(played.at).lt(rest) {
                    return ;
                }
            }
        }
        match retrigger {
            Retrigger::Restart => {
                self.silence(root, path);
                self.launch(root, path, asked, at);
            },
            Retrigger::Ignore => {
                if !self.is_busy(root, path) {
                    self.launch(root, path, asked, at);
                }
            },
            Retrigger::Queue => {
                if !self.is_busy(root, path) {
                    self.launch(root, path, asked, at);
                } else if self.count_turns(root, path) < limit {
                    // In line behind what is playing, and behind whatever is already waiting.
                    let name = self.media_name(root, path);
                    let ghost was = self@;
                    self.waiting.push(Waiting { root, path: copy_path(path), asked: name });
                    assert(self@.waiting =~= was.waiting.push(
                        Turn { root, path: path@, asked: name@ },
                    ));
                    assert(self@ =~= State {
                        waiting: was.waiting.push(Turn { root, path: path@, asked: name@ }),
                        ..was
                    });
                }
            },
            Retrigger::Overlap => {
                // Plays are in start order: the oldest of this layer's stands first.
                let mine: usize = self.count_plays(root, path);
                let over: usize = if mine >= limit {
                    mine - limit + 1
                } else {
                    0
                };
                let ghost was = self@;
                drop_oldest(&mut self.sounding, root, path, over);
                assert(self@ =~= State {
                    sounding: without_oldest(was.sounding, root, path@, over as nat),
                    ..was
                });
                self.launch(root, path, asked, at);
            },
        }
    }

    /// Play the layer at `path`, as its `retrigger` says when it already plays.
    pub(crate) fn play(&mut self, root: Root, path: &Vec<usize>, at: Num)
        ensures
            final(self)@ == old(self)@.started(root, path@, None, at),
    {
        self.start(root, path, None, at);
    }

    /// Start the autoplay sounds and videos of `root`.
    pub(crate) fn play_autoplay(&mut self, root: Root)
        ensures
            final(self)@ == old(self)@.play_autoplay(root),
    {
        let paths = match &self.show {
            Some(show) => media_path_list(show, root),
            None => {
                return ;
            },
        };
        let ghost was = self@;
        let ghost all = path_views(paths@);
        let mut i: usize = 0;
        while i < paths.len()
            invariant
                i <= paths.len(),
                all == path_views(paths@),
                self@ == was.autoplayed(root, all, i as nat),
            decreases paths.len() - i,
        {
            let path = &paths[i];
            assert(all[i as int] == path@);
            let autoplay = match self.media_at(root, path) {
                Some(media) => media.autoplay,
                None => false,
            };
            if autoplay {
                self.play(root, path, self.time);
            }
            i = i + 1;
        }
    }

    fn begin(&mut self, owner: Owner, timeline: usize, starts: Num)
        ensures
            final(self)@ == old(self)@.begun(owner@, timeline, starts),
    {
        let ghost key = owner@;
        retain_running(&mut self.playing, Some((&owner, timeline)));
        let ghost kept = runnings(self.playing@);
        self.playing.push(Playhead { owner, timeline, starts, held: false });
        assert(runnings(self.playing@) =~= kept.push(
            Running { owner: key, timeline, starts, held: false },
        ));
        assert(self@ =~= old(self)@.begun(key, timeline, starts));
    }

    /// (Re)start the timelines `want` selects, in `root` or, with `None`, in the show's layers
    /// and the active scene.
    pub(crate) fn start_matching(&mut self, root: Option<Root>, at: Num, want: Want<'_>)
        ensures
            final(self)@ == old(self)@.start_matching(root, at, want@),
    {
        let mut starts: Vec<Start> = Vec::new();
        let ghost was = self@;
        match &self.show {
            Some(show) => {
                proof {
                    assert(begins_of(starts@) =~= Seq::<Begin>::empty());
                }
                match root {
                    Some(root) => {
                        push_tree_starts(show, root, want, &mut starts);
                        if root == Root::Show {
                            push_value_starts(show, want, &mut starts);
                        }
                    },
                    None => {
                        push_tree_starts(show, Root::Show, want, &mut starts);
                        if let Some(scene) = self.active_scene {
                            push_tree_starts(show, Root::Scene(scene), want, &mut starts);
                        }
                        push_value_starts(show, want, &mut starts);
                    },
                }
                assert(begins_of(starts@) =~= was.matching(*show, root, want@));
            },
            None => {
                return ;
            },
        }
        let ghost list = begins_of(starts@);
        let total: usize = starts.len();
        let mut done: usize = 0;
        proof {
            assert(list.skip(0) =~= list);
        }
        // Taken from the front, so that each owner moves into its playhead.
        while starts.len() > 0
            invariant
                done + starts@.len() == total,
                total == list.len(),
                begins_of(starts@) == list.skip(done as int),
                self@ == was.begun_all(list, at, done as nat),
            decreases starts@.len(),
        {
            let ghost before = begins_of(starts@);
            let next = starts.remove(0);
            assert(begins_of(starts@) =~= before.drop_first());
            assert(before[0] == list[done as int]);
            assert(next@ == before[0]);
            self.begin(next.owner, next.timeline, at.plus(next.delay));
            done = done + 1;
            assert(before.drop_first() =~= list.skip(done as int));
        }
    }

    /// (Re)start one timeline of a layer from the top, minding its delay.
    pub(crate) fn start_timeline(&mut self, root: Root, path: &Vec<usize>, timeline: usize, at: Num)
        ensures
            final(self)@ == (match old(self)@.show {
                Some(show) => old(self)@.begun(
                    OwnerKey::Layer(root, path@),
                    timeline,
                    sum_of(at, timeline_delay(show, root, path@, timeline)),
                ),
                None => old(self)@,
            }),
    {
        let delay = match &self.show {
            Some(show) => match find_layer(show, root, path.as_slice()) {
                Some(layer) => {
                    if timeline < layer.timelines.len() {
                        layer.timelines[timeline].delay.max(num(0))
                    } else {
                        num(0)
                    }
                },
                None => num(0),
            },
            None => {
                return ;
            },
        };
        self.begin(Owner::Layer { root, path: copy_path(path) }, timeline, at.plus(delay));
    }

    fn enter_scene(&mut self, scene: usize)
        ensures
            final(self)@ == old(self)@.enter_scene(scene),
    {
        retain_running(&mut self.playing, None);
        // Leaving a scene stops its sounds.
        retain_plays(&mut self.sounding, None);
        retain_turns(&mut self.waiting, None);
        // A scene's properties start at their values, like at load.
        self.transitions.keep_show();
        self.color_transitions.keep_show();
        self.debounced.keep_show();
        self.reels.keep_show();
        self.active_scene = Some(scene);
        assert(self@ =~= State { active_scene: Some(scene), ..old(self)@.without_scene() });
        self.start_matching(Some(Root::Scene(scene)), self.time, Want::Autoplay);
        self.play_autoplay(Root::Scene(scene));
    }

    /// Note the reel rows whose `spin` trigger is `name`; the next frame sets their cells off.
    pub(crate) fn set_spinning(&mut self, name: &str)
        ensures
            final(self)@ == old(self)@.set_spinning(name@),
    {
        let mut found: Vec<Site> = Vec::new();
        let ghost was = self@;
        match &self.show {
            Some(show) => {
                let ghost pred = |site: SiteKey| was.spins(*show, site, name@);
                let ghost all = was.reel_sites;
                let mut i: usize = 0;
                proof {
                    lemma_filter_none(all, pred);
                    assert(site_keys(found@) =~= Seq::<SiteKey>::empty());
                }
                while i < self.reel_sites.len()
                    invariant
                        i <= self.reel_sites.len(),
                        self@ == was,
                        self.show == Some(*show),
                        all == was.reel_sites,
                        pred == (|site: SiteKey| was.spins(*show, site, name@)),
                        site_keys(found@) == all.take(i as int).filter(pred),
                    decreases self.reel_sites.len() - i,
                {
                    let site = &self.reel_sites[i];
                    assert(all[i as int] == site@);
                    proof {
                        lemma_filter_step(all, pred, i as int);
                    }
                    let spins = match reel_at(show, site) {
                        Some(reel) => reel.spin.contains(name),
                        None => false,
                    };
                    if self.shows(site.root) && spins && !has_site(&self.spinning, site) {
                        let ghost before = site_keys(found@);
                        found.push(site.copy());
                        assert(site_keys(found@) =~= before.push(site@));
                    }
                    i = i + 1;
                }
                assert(all.take(i as int) =~= all);
            },
            None => {
                return ;
            },
        }
        let ghost more = site_keys(found@);
        self.spinning.append(&mut found);
        assert(site_keys(self.spinning@) =~= was.spinning + more);
        assert(self@ =~= was.set_spinning(name@));
    }

    fn cue_tree(&mut self, root: Root, name: &str, at: Num)
        ensures
            final(self)@ == old(self)@.cued_tree(root, name@, at),
    {
        let paths = match &self.show {
            Some(show) => media_path_list(show, root),
            None => {
                return ;
            },
        };
        let ghost was = self@;
        let ghost all = path_views(paths@);
        let mut i: usize = 0;
        while i < paths.len()
            invariant
                i <= paths.len(),
                all == path_views(paths@),
                self@ == was.cued_all(root, all, name@, at, i as nat),
            decreases paths.len() - i,
        {
            let path = &paths[i];
            assert(all[i as int] == path@);
            let (stops, plays) = match self.media_at(root, path) {
                Some(media) => (media.stop.contains(name), media.trigger.contains(name)),
                None => (false, false),
            };
            if stops {
                self.silence(root, path);
                // Whatever was waiting its turn is not owed a turn.
                self.unqueue(root, path);
            }
            if plays {
                self.play(root, path, at);
            }
            i = i + 1;
        }
    }

    /// Fire `name` as if at the instant `at`, which is what whatever it starts is timed from.
    pub(crate) fn trigger_at(&mut self, name: &str, at: Num)
        ensures
            final(self)@ == old(self)@.trigger_at(name@, at),
    {
        proof {
            reveal(State::trigger_at);
        }
        let scene = match &self.show {
            Some(show) => entered_by(show, name),
            None => None,
        };
        if let Some(scene) = scene {
            self.enter_scene(scene);
        }
        self.start_matching(None, at, Want::Trigger(name));
        self.set_spinning(name);
        let active = self.active_scene;
        self.cue_tree(Root::Show, name, at);
        if let Some(scene) = active {
            self.cue_tree(Root::Scene(scene), name, at);
        }
    }

    /// Fire a named event. A scene declaring it as its trigger becomes the active scene
    /// (restarting it when already active); then every timeline declaring it, in the show's
    /// layers or the active scene, (re)starts from 0, and every audio or video layer declaring
    /// it plays (or stops, when it is the layer's `stop`).
    pub fn trigger(&mut self, name: &str)
        ensures
            final(self)@ == old(self)@.trigger_at(name@, old(self)@.time),
    {
        self.trigger_at(name, self.time);
    }

    /// Put the loaded show back to its beginning: time 0, the first scene, nothing playing,
    /// every variable at the value the document declares. Does nothing without a show.
    pub fn restart(&mut self)
        ensures
            final(self)@ == old(self)@.restart(),
    {
        let (variables, scenes) = match &self.show {
            Some(show) => (show.variables.copy(), show.scenes.len() != 0),
            None => {
                return ;
            },
        };
        self.variables = variables;
        self.playing = Vec::new();
        self.sounding = Vec::new();
        self.transitions.clear();
        self.color_transitions.clear();
        self.debounced.clear();
        self.reels.clear();
        self.spinning = Vec::new();
        self.shown.clear();
        self.ducking.clear();
        self.conditions.clear();
        self.plays.clear();
        self.waiting = Vec::new();
        self.events = Vec::new();
        self.time = num(0);
        self.active_scene = if scenes {
            Some(0)
        } else {
            None
        };
        assert(self@ =~= old(self)@.rewound(old(self)@.show->0));
        self.start_matching(Some(Root::Show), num(0), Want::Autoplay);
        self.play_autoplay(Root::Show);
        if scenes {
            self.start_matching(Some(Root::Scene(0)), num(0), Want::Autoplay);
            self.play_autoplay(Root::Scene(0));
        }
    }
}

/// The delay of one timeline of a layer.
pub open spec fn timeline_delay(show: Show, root: Root, path: Seq<usize>, timeline: usize) -> Num {
    match layer_in(show, root, path) {
        Some(layer) => if timeline < layer.timelines@.len() {
            max_of(layer.timelines@[timeline as int].delay, num(0))
        } else {
            num(0)
        },
        None => num(0),
    }
}

/// Keeps the plays off one layer, or only those of the show's own layers.
fn retain_plays(list: &mut Vec<Sounding>, gone: Option<(Root, &Vec<usize>)>)
    ensures
        match gone {
            Some((root, path)) => plays_of(final(list)@) == plays_of(old(list)@).filter(
                |p: Play| !p.on(root, path@),
            ),
            None => plays_of(final(list)@) == plays_of(old(list)@).filter(
                |p: Play| p.root == Root::Show,
            ),
        },
{
    let ghost pred = match gone {
        Some((root, path)) => |p: Play| !p.on(root, path@),
        None => |p: Play| p.root == Root::Show,
    };
    let ghost was = plays_of(list@);
    let ghost mut done: int = 0;
    let mut i: usize = 0;
    proof {
        lemma_filter_none(was, pred);
        assert(plays_of(list@) =~= was.take(0).filter(pred) + was.skip(0));
    }
    while i < list.len()
        invariant
            0 <= done <= was.len(),
            i == was.take(done).filter(pred).len(),
            plays_of(list@) == was.take(done).filter(pred) + was.skip(done),
            pred == (match gone {
                Some((root, path)) => |p: Play| !p.on(root, path@),
                None => |p: Play| p.root == Root::Show,
            }),
        decreases list.len() - i,
    {
        let ghost here = plays_of(list@);
        proof {
            assert(here.len() == i + (was.len() - done));
            assert(here[i as int] == was.skip(done)[0]);
            assert(here[i as int] == list@[i as int]@);
            lemma_filter_step(was, pred, done);
        }
        let stay = match gone {
            Some((root, path)) => !list[i].on(root, path),
            None => list[i].root == Root::Show,
        };
        if stay {
            i = i + 1;
        } else {
            list.remove(i);
            assert(plays_of(list@) =~= here.remove(i as int));
        }
        proof {
            assert(plays_of(list@) =~= was.take(done + 1).filter(pred) + was.skip(done + 1));
            done = done + 1;
        }
    }
    proof {
        assert(done == was.len());
        assert(was.take(done) =~= was);
        assert(plays_of(list@) =~= was.filter(pred));
    }
}

/// Keeps the turns off one layer, or only those of the show's own layers.
fn retain_turns(list: &mut Vec<Waiting>, gone: Option<(Root, &Vec<usize>)>)
    ensures
        match gone {
            Some((root, path)) => turns_of(final(list)@) == turns_of(old(list)@).filter(
                |t: Turn| !t.on(root, path@),
            ),
            None => turns_of(final(list)@) == turns_of(old(list)@).filter(
                |t: Turn| t.root == Root::Show,
            ),
        },
{
    let ghost pred = match gone {
        Some((root, path)) => |t: Turn| !t.on(root, path@),
        None => |t: Turn| t.root == Root::Show,
    };
    let ghost was = turns_of(list@);
    let ghost mut done: int = 0;
    let mut i: usize = 0;
    proof {
        lemma_filter_none(was, pred);
        assert(turns_of(list@) =~= was.take(0).filter(pred) + was.skip(0));
    }
    while i < list.len()
        invariant
            0 <= done <= was.len(),
            i == was.take(done).filter(pred).len(),
            turns_of(list@) == was.take(done).filter(pred) + was.skip(done),
            pred == (match gone {
                Some((root, path)) => |t: Turn| !t.on(root, path@),
                None => |t: Turn| t.root == Root::Show,
            }),
        decreases list.len() - i,
    {
        let ghost here = turns_of(list@);
        proof {
            assert(here.len() == i + (was.len() - done));
            assert(here[i as int] == was.skip(done)[0]);
            assert(here[i as int] == list@[i as int]@);
            lemma_filter_step(was, pred, done);
        }
        let stay = match gone {
            Some((root, path)) => !list[i].on(root, path),
            None => list[i].root == Root::Show,
        };
        if stay {
            i = i + 1;
        } else {
            list.remove(i);
            assert(turns_of(list@) =~= here.remove(i as int));
        }
        proof {
            assert(turns_of(list@) =~= was.take(done + 1).filter(pred) + was.skip(done + 1));
            done = done + 1;
        }
    }
    proof {
        assert(done == was.len());
        assert(was.take(done) =~= was);
        assert(turns_of(list@) =~= was.filter(pred));
    }
}

/// Keeps the playheads but one timeline's, or only those of the show's own layers.
pub(crate) fn retain_running(list: &mut Vec<Playhead>, gone: Option<(&Owner, usize)>)
    ensures
        match gone {
            Some((owner, timeline)) => runnings(final(list)@) == runnings(old(list)@).filter(
                |p: Running| !(p.owner == owner@ && p.timeline == timeline),
            ),
            None => runnings(final(list)@) == runnings(old(list)@).filter(
                |p: Running| p.owner.root() == Root::Show,
            ),
        },
{
    let ghost pred = match gone {
        Some((owner, timeline)) => |p: Running| !(p.owner == owner@ && p.timeline == timeline),
        None => |p: Running| p.owner.root() == Root::Show,
    };
    let ghost was = runnings(list@);
    let ghost mut done: int = 0;
    let mut i: usize = 0;
    proof {
        lemma_filter_none(was, pred);
        assert(runnings(list@) =~= was.take(0).filter(pred) + was.skip(0));
    }
    while i < list.len()
        invariant
            0 <= done <= was.len(),
            i == was.take(done).filter(pred).len(),
            runnings(list@) == was.take(done).filter(pred) + was.skip(done),
            pred == (match gone {
                Some((owner, timeline)) => |p: Running|
                    !(p.owner == owner@ && p.timeline == timeline),
                None => |p: Running| p.owner.root() == Root::Show,
            }),
        decreases list.len() - i,
    {
        let ghost here = runnings(list@);
        proof {
            assert(here.len() == i + (was.len() - done));
            assert(here[i as int] == was.skip(done)[0]);
            assert(here[i as int] == list@[i as int]@);
            lemma_filter_step(was, pred, done);
        }
        let stay = match gone {
            Some((owner, timeline)) => !(list[i].owner.same(owner) && list[i].timeline
                == timeline),
            None => list[i].owner.root() == Root::Show,
        };
        if stay {
            i = i + 1;
        } else {
            list.remove(i);
            assert(runnings(list@) =~= here.remove(i as int));
        }
        proof {
            assert(runnings(list@) =~= was.take(done + 1).filter(pred) + was.skip(done + 1));
            done = done + 1;
        }
    }
    proof {
        assert(done == was.len());
        assert(was.take(done) =~= was);
        assert(runnings(list@) =~= was.filter(pred));
    }
}

/// Drops the first `over` plays of a layer.
fn drop_oldest(list: &mut Vec<Sounding>, root: Root, path: &Vec<usize>, over: usize)
    ensures
        plays_of(final(list)@) == without_oldest(plays_of(old(list)@), root, path@, over as nat),
{
    let ghost was = plays_of(list@);
    let ghost goal = without_oldest(was, root, path@, over as nat);
    let mut left: usize = over;
    let mut i: usize = 0;
    assert(was.skip(0) =~= was);
    assert(was.take(0) + goal =~= goal);
    while i < list.len()
        invariant
            i <= list.len(),
            goal == plays_of(list@).take(i as int) + without_oldest(
                plays_of(list@).skip(i as int),
                root,
                path@,
                left as nat,
            ),
        decreases list.len() - i,
    {
        let ghost here = plays_of(list@);
        proof {
            assert(here.skip(i as int)[0] == here[i as int]);
            assert(here[i as int] == list@[i as int]@);
            assert(here.skip(i as int).drop_first() =~= here.skip(i as int + 1));
        }
        if left > 0 && list[i].on(root, path) {
            list.remove(i);
            left = left - 1;
            proof {
                let now = plays_of(list@);
                assert(now =~= here.remove(i as int));
                assert(now.take(i as int) =~= here.take(i as int));
                assert(now.skip(i as int) =~= here.skip(i as int + 1));
            }
        } else {
            proof {
                let tail = without_oldest(here.skip(i as int + 1), root, path@, left as nat);
                assert(here.take(i as int) + (seq![here[i as int]] + tail) =~= here.take(
                    i as int + 1,
                ) + tail);
            }
            i = i + 1;
        }
    }
    proof {
        assert(plays_of(list@).skip(i as int) =~= Seq::<Play>::empty());
        assert(plays_of(list@).take(i as int) =~= plays_of(list@));
        assert(goal =~= plays_of(list@));
    }
}

} // verus!
