//! What the engine notes at every step: ducking, debounced inputs, conditions, transitions
//! and reels.

use crate::cells::{celled, cells};
use crate::color::{color_of, parse_color};
use crate::lamp::{heat, settled, settled_at, temperature, Filament};
use crate::lists::{lemma_filter_none, lemma_filter_step};
use crate::model::{
    Binding, DigitDisplay, Duck, Justify, Layer, LayerKind, Property, Reel, Show, Timeline,
    Transition,
};
use crate::num::{
    at_most, clamp_of, equal, less, max_of, min_of, num, opposite_of, product_of, quotient_of,
    rem_euclid_of, sum_of, trunc_of, Num, SIGN,
};
use crate::play::timeline_delay;
use crate::sites::{has_site, layer_site, site_keys, Site, SiteKey};
use crate::state::{
    Change, ColorChange, Ducked, Engine, Owner, OwnerKey, Play, Running, Settled, Settling, State,
    SAME_INSTANT,
};
use crate::text::same_text;
use crate::tree::{
    copy_path, find_layer, layer_in, layer_nodes, node_views, nodes, root_layers, rooted, Root,
};
use crate::value::Held;
use crate::waves::ONE;
use vstd::prelude::*;

verus! {

/// The bus a sound is on when it names none.
pub const MAIN_BUS: &'static str = "main";

/// The bus a layer's sound is on.
pub open spec fn bus_of(bus: Option<String>) -> Seq<char> {
    match bus {
        Some(name) => name@,
        None => MAIN_BUS@,
    }
}

/// The bus a layer's sound is on: the one it names, or [`MAIN_BUS`].
pub fn effective_bus(bus: &Option<String>) -> (r: &str)
    ensures
        r@ == bus_of(*bus),
{
    match bus {
        Some(name) => name.as_str(),
        None => MAIN_BUS,
    }
}

impl LayerKind {
    /// The bus and the delay of a layer that sounds.
    pub open spec fn sound(self) -> Option<(Seq<char>, Num)> {
        match self {
            LayerKind::Audio { bus, delay, .. } => Some((bus_of(bus), max_of(delay, num(0)))),
            LayerKind::Video { bus, delay, .. } => Some((bus_of(bus), max_of(delay, num(0)))),
            _ => None,
        }
    }

    /// How a layer steps back for another bus.
    pub open spec fn ducks(self) -> Option<Duck> {
        match self {
            LayerKind::Audio { duck, .. } => duck,
            LayerKind::Video { duck, .. } => duck,
            _ => None,
        }
    }

    fn sound_of(&self) -> (r: Option<(&str, Num)>)
        ensures
            match r {
                Some((bus, delay)) => self.sound() == Some((bus@, delay)),
                None => self.sound() is None,
            },
    {
        match self {
            LayerKind::Audio { bus, delay, .. } => Some((effective_bus(bus), delay.max(num(0)))),
            LayerKind::Video { bus, delay, .. } => Some((effective_bus(bus), delay.max(num(0)))),
            _ => None,
        }
    }

    pub(crate) fn duck_of(&self) -> (r: Option<&Duck>)
        ensures
            match r {
                Some(duck) => self.ducks() == Some(*duck),
                None => self.ducks() is None,
            },
    {
        match self {
            LayerKind::Audio { duck, .. } => match duck {
                Some(duck) => Some(duck),
                None => None,
            },
            LayerKind::Video { duck, .. } => match duck {
                Some(duck) => Some(duck),
                None => None,
            },
            _ => None,
        }
    }
}

/// Where a number stands in the total order of all doubles.
pub open spec fn total_rank(x: Num) -> int {
    if x.bits >= SIGN {
        -(x.bits as int)
    } else {
        x.bits as int
    }
}

/// The instant since which a play sounds on a bus, if it does.
pub open spec fn sounding_since(show: Show, time: Num, play: Play, bus: Seq<char>) -> Option<Num> {
    match layer_in(show, play.root, play.path) {
        Some(layer) => match layer.kind.sound() {
            Some((on, delay)) => {
                let from = sum_of(play.started, delay);
                if !less(time, from) && on == bus {
                    Some(from)
                } else {
                    None
                }
            },
            None => None,
        },
        None => None,
    }
}

/// The layers of a tree that duck, with their paths.
pub open spec fn duck_nodes(show: Show, root: Root) -> Seq<(Seq<usize>, Layer)> {
    match rooted(show, root) {
        Some(layers) => nodes(layers, Seq::empty()).filter(does_duck()),
        None => Seq::empty(),
    }
}

pub open spec fn does_duck() -> spec_fn((Seq<usize>, Layer)) -> bool {
    |n: (Seq<usize>, Layer)| n.1.kind.ducks() is Some
}

/// What the conditions of timelines were found to be.
#[verifier::ext_equal]
pub ghost struct Noted {
    /// Timelines to start.
    pub edges: Seq<SiteKey>,
    /// Timelines to stop.
    pub stops: Seq<SiteKey>,
    /// What to remember, in the order it was noted.
    pub now: Seq<(SiteKey, bool)>,
}

/// The tree at a place in the list of all trees: the show's own, then each scene's.
pub open spec fn tree_at(r: nat) -> Root {
    if r == 0 {
        Root::Show
    } else {
        Root::Scene((r - 1) as usize)
    }
}

/// A map with a list of entries put in, in order.
pub open spec fn put_all(
    m: Map<SiteKey, bool>,
    list: Seq<(SiteKey, bool)>,
    n: nat,
) -> Map<SiteKey, bool>
    decreases n,
{
    if n == 0 || n > list.len() {
        m
    } else {
        put_all(m, list, (n - 1) as nat).insert(list[n - 1].0, list[n - 1].1)
    }
}

/// The binding at a site.
pub open spec fn binding_in(show: Show, site: SiteKey) -> Option<Binding> {
    match layer_in(show, site.root, site.path) {
        Some(layer) => if site.index < layer.bindings@.len() {
            Some(layer.bindings@[site.index as int])
        } else {
            None
        },
        None => None,
    }
}

fn binding_at<'a>(show: &'a Show, site: &Site) -> (r: Option<&'a Binding>)
    ensures
        match r {
            Some(b) => binding_in(*show, site@) == Some(*b),
            None => binding_in(*show, site@) is None,
        },
{
    match find_layer(show, site.root, site.path.as_slice()) {
        Some(layer) => {
            if site.index < layer.bindings.len() {
                Some(&layer.bindings[site.index])
            } else {
                None
            }
        },
        None => None,
    }
}

/// Whether a number has no fraction.
pub open spec fn is_whole(n: Num) -> bool {
    equal(sum_of(n, opposite_of(trunc_of(n))), num(0))
}

/// The place on a ring that a cell's character names.
pub open spec fn ring_place(ring: Seq<char>, cell: Option<char>) -> Option<Num> {
    match cell {
        Some(c) => match crate::lists::first_where(ring, |x: char| x == c, 0) {
            Some(i) => Some(crate::num::from_int(i)),
            None => None,
        },
        None => None,
    }
}

fn ring_place_of(ring: &Vec<char>, cell: Option<char>) -> (r: Option<Num>)
    ensures
        r == ring_place(ring@, cell),
{
    let c: char = match cell {
        Some(c) => c,
        None => {
            return None;
        },
    };
    let ghost pred = |x: char| x == c;
    let mut i: usize = 0;
    while i < ring.len()
        invariant
            i <= ring.len(),
            cell == Some(c),
            pred == (|x: char| x == c),
            crate::lists::first_where(ring@, pred, 0) == crate::lists::first_where(
                ring@,
                pred,
                i as int,
            ),
        decreases ring.len() - i,
    {
        if ring[i] == c {
            return Some(Num::from_u64(i as u64));
        }
        i = i + 1;
    }
    None
}

/// A row of cells with the first `n` of them set off to what is wanted of them.
pub open spec fn rolled(
    reel: Reel,
    records: Seq<Change>,
    wanted: Seq<Option<Num>>,
    time: Num,
    spin: bool,
    n: nat,
) -> Seq<Change>
    decreases n,
{
    if n == 0 || n > wanted.len() {
        records
    } else {
        let before = rolled(reel, records, wanted, time, spin, (n - 1) as nat);
        let i = n - 1;
        match wanted[i] {
            None => before,
            Some(character) => {
                let change = before[i];
                if !spin && equal(rem_euclid_of(change.target, reel.ring_size()), character) {
                    before
                } else {
                    let reached = reel.rolling().value(
                        change.start,
                        change.target,
                        sum_of(time, opposite_of(change.started)),
                    );
                    let delay = product_of(
                        crate::num::from_int(wanted.len() - 1 - i),
                        max_of(reel.stagger, num(0)),
                    );
                    before.update(
                        i,
                        Change {
                            start: reached,
                            target: reel.landing(reached, character),
                            started: sum_of(time, delay),
                            whole: false,
                        },
                    )
                }
            },
        }
    }
}

/// A cell at rest.
pub open spec fn resting(place: Num, time: Num) -> Change {
    Change { start: place, target: place, started: time, whole: false }
}

/// A row of `count` cells: the known ones, and the rest at the start of the ring.
pub open spec fn resized(records: Seq<Change>, count: nat, time: Num) -> Seq<Change> {
    Seq::new(
        count,
        |i: int|
            if i < records.len() {
                records[i]
            } else {
                resting(num(0), time)
            },
    )
}

/// The places on the ring that a row's text asks for.
pub open spec fn places(reel: Reel, text: Seq<char>, count: nat, justify: Justify) -> Seq<
    Option<Num>,
> {
    celled(text, count, justify).map_values(|c: Option<char>| ring_place(reel.charset@, c))
}

/// A row standing at what it shows.
pub open spec fn standing(wanted: Seq<Option<Num>>, time: Num) -> Seq<Change> {
    wanted.map_values(
        |w: Option<Num>|
            resting(
                match w {
                    Some(n) => n,
                    None => num(0),
                },
                time,
            ),
    )
}

impl State {
    /// The instant since which other layers' plays among the first `n` sound on a bus.
    pub open spec fn busy_since(
        self,
        show: Show,
        bus: Seq<char>,
        root: Root,
        path: Seq<usize>,
        n: nat,
    ) -> Option<Num>
        decreases n,
    {
        if n == 0 || n > self.sounding.len() {
            None
        } else {
            let before = self.busy_since(show, bus, root, path, (n - 1) as nat);
            let play = self.sounding[n - 1];
            match sounding_since(show, self.time, play, bus) {
                Some(at) => if play.on(root, path) {
                    before
                } else {
                    match before {
                        Some(first) => if total_rank(at) < total_rank(first) {
                            Some(at)
                        } else {
                            before
                        },
                        None => Some(at),
                    }
                },
                None => before,
            }
        }
    }

    /// Where a ducking layer's level is at an instant: 1 when its bus is quiet, the duck's
    /// `to` while it sounds, and on the ramp between.
    pub open spec fn duck_level(self, site: SiteKey, time: Num) -> Num {
        if !self.ducking.contains_key(site) {
            num(ONE)
        } else {
            let state = self.ducking[site];
            match self.layer(site.root, site.path) {
                None => num(ONE),
                Some(layer) => match layer.kind.ducks() {
                    None => num(ONE),
                    Some(duck) => {
                        let target = if state.down {
                            duck.to
                        } else {
                            num(ONE)
                        };
                        let ramp = if state.down {
                            duck.attack
                        } else {
                            duck.release
                        };
                        if at_most(ramp, num(0)) || !ramp.finite() {
                            target
                        } else {
                            let t = clamp_of(
                                quotient_of(sum_of(time, opposite_of(state.since)), ramp),
                                num(0),
                                num(ONE),
                            );
                            sum_of(
                                state.from,
                                product_of(sum_of(target, opposite_of(state.from)), t),
                            )
                        }
                    },
                },
            }
        }
    }

    /// With a ducking layer's state noted, given since when its bus sounds.
    pub open spec fn duck_noted(self, site: SiteKey, busy: Option<Num>) -> State {
        let down = busy is Some;
        if self.ducking.contains_key(site) && self.ducking[site].down == down {
            self
        } else {
            let since = min_of(
                match busy {
                    Some(at) => at,
                    None => self.time,
                },
                self.time,
            );
            State {
                ducking: self.ducking.insert(
                    site,
                    Ducked { down, since, from: self.duck_level(site, since) },
                ),
                ..self
            }
        }
    }

    /// With the first `n` of a tree's ducking layers noted.
    pub open spec fn ducks_noted(
        self,
        show: Show,
        root: Root,
        list: Seq<(Seq<usize>, Layer)>,
        n: nat,
    ) -> State
        decreases n,
    {
        if n == 0 || n > list.len() {
            self
        } else {
            let (path, layer) = list[n - 1];
            let busy = self.busy_since(
                show,
                layer.kind.ducks()->0.under@,
                root,
                path,
                self.sounding.len(),
            );
            self.ducks_noted(show, root, list, (n - 1) as nat).duck_noted(
                layer_site(root, path),
                busy,
            )
        }
    }

    pub open spec fn tree_ducks_noted(self, show: Show, root: Root) -> State {
        let list = duck_nodes(show, root);
        self.ducks_noted(show, root, list, list.len())
    }

    /// With every showing layer that ducks noted: whether its bus sounds, and since when.
    #[verifier::opaque]
    pub open spec fn follow_ducks(self) -> State {
        match self.show {
            None => self,
            Some(show) => {
                let own = self.tree_ducks_noted(show, Root::Show);
                match self.active_scene {
                    Some(scene) => own.tree_ducks_noted(show, Root::Scene(scene)),
                    None => own,
                }
            },
        }
    }

    /// A debounced binding's input after a value was seen, in a step that lands on `to`.
    pub open spec fn settling(self, site: SiteKey, value: Held, hold: Num, to: Num) -> Settled {
        let known = if self.debounced.contains_key(site) {
            self.debounced[site]
        } else {
            Settled { settled: value, candidate: value, since: self.time }
        };
        let seen = if known.candidate.same(value) {
            known
        } else {
            Settled { settled: known.settled, candidate: value, since: self.time }
        };
        if !seen.settled.same(seen.candidate) && at_most(
            hold,
            sum_of(sum_of(to, num(SAME_INSTANT)), opposite_of(seen.since)),
        ) {
            Settled { settled: seen.candidate, candidate: seen.candidate, since: seen.since }
        } else {
            seen
        }
    }

    /// With one debounced binding's input taken in.
    pub open spec fn debounce_one(self, show: Show, site: SiteKey, to: Num) -> State {
        if !self.shows(site.root) {
            self
        } else {
            match binding_in(show, site) {
                Some(b) => match b.debounce {
                    Some(hold) => match self.value(b.variable@) {
                        Some(value) => State {
                            debounced: self.debounced.insert(
                                site,
                                self.settling(site, value, hold, to),
                            ),
                            ..self
                        },
                        None => State { debounced: self.debounced.remove(site), ..self },
                    },
                    None => self,
                },
                None => self,
            }
        }
    }

    pub open spec fn debounced_through(self, show: Show, to: Num, n: nat) -> State
        decreases n,
    {
        if n == 0 || n > self.debounce_sites.len() {
            self
        } else {
            self.debounced_through(show, to, (n - 1) as nat).debounce_one(
                show,
                self.debounce_sites[n - 1],
                to,
            )
        }
    }

    /// With every debounced binding's input taken in: a new value becomes the candidate, and a
    /// candidate that will have held long enough by `to` settles.
    #[verifier::opaque]
    pub open spec fn settle_debounces(self, to: Num) -> State {
        match self.show {
            Some(show) => self.debounced_through(show, to, self.debounce_sites.len()),
            None => self,
        }
    }

    /// What one timeline's condition adds to what was noted.
    pub open spec fn note_one(self, root: Root, path: Seq<usize>, idx: usize, tl: Timeline, noted: Noted) -> Noted {
        let key = SiteKey { root, path, index: idx };
        match (tl.when, tl.whilst) {
            (Some(when), _) => {
                let holds = self.holds(when);
                if !self.shows(root) {
                    if holds {
                        noted
                    } else {
                        Noted { now: noted.now.push((key, false)), ..noted }
                    }
                } else {
                    let rising = holds && !(self.conditions.contains_key(key)
                        && self.conditions[key]);
                    Noted {
                        edges: if rising {
                            noted.edges.push(key)
                        } else {
                            noted.edges
                        },
                        now: noted.now.push((key, holds)),
                        ..noted
                    }
                }
            },
            (None, Some(whilst)) => if !self.shows(root) {
                noted
            } else {
                let holds = self.holds(whilst);
                let running = self.runs(OwnerKey::Layer(root, path), idx);
                if holds && !running {
                    Noted { edges: noted.edges.push(key), ..noted }
                } else if !holds && running {
                    Noted { stops: noted.stops.push(key), ..noted }
                } else {
                    noted
                }
            },
            (None, None) => noted,
        }
    }

    /// Whether a timeline is running or held.
    pub open spec fn runs(self, owner: OwnerKey, timeline: usize) -> bool {
        crate::lists::some_is(
            self.playing,
            |p: Running| p.owner == owner && p.timeline == timeline,
        )
    }

    pub open spec fn note_layer(
        self,
        root: Root,
        path: Seq<usize>,
        timelines: Seq<Timeline>,
        n: nat,
        noted: Noted,
    ) -> Noted
        decreases n,
    {
        if n == 0 || n > timelines.len() {
            noted
        } else {
            self.note_one(
                root,
                path,
                (n - 1) as usize,
                timelines[n - 1],
                self.note_layer(root, path, timelines, (n - 1) as nat, noted),
            )
        }
    }

    pub open spec fn note_nodes(
        self,
        root: Root,
        list: Seq<(Seq<usize>, Layer)>,
        n: nat,
        noted: Noted,
    ) -> Noted
        decreases n,
    {
        if n == 0 || n > list.len() {
            noted
        } else {
            let (path, layer) = list[n - 1];
            self.note_layer(
                root,
                path,
                layer.timelines@,
                layer.timelines@.len(),
                self.note_nodes(root, list, (n - 1) as nat, noted),
            )
        }
    }

    pub open spec fn note_tree(self, show: Show, root: Root, noted: Noted) -> Noted {
        match rooted(show, root) {
            Some(layers) => {
                let list = nodes(layers, Seq::empty());
                self.note_nodes(root, list, list.len(), noted)
            },
            None => noted,
        }
    }

    /// What the conditions of the first `n` trees were found to be.
    pub open spec fn note_trees(self, show: Show, n: nat) -> Noted
        decreases n,
    {
        if n == 0 {
            Noted { edges: Seq::empty(), stops: Seq::empty(), now: Seq::empty() }
        } else {
            self.note_tree(show, tree_at((n - 1) as nat), self.note_trees(show, (n - 1) as nat))
        }
    }

    /// With the first `n` of some timelines stopped.
    pub open spec fn stopped_all(self, list: Seq<SiteKey>, n: nat) -> State
        decreases n,
    {
        if n == 0 || n > list.len() {
            self
        } else {
            let before = self.stopped_all(list, (n - 1) as nat);
            let key = list[n - 1];
            State {
                playing: before.playing.filter(
                    |p: Running|
                        !(p.owner == OwnerKey::Layer(key.root, key.path) && p.timeline
                            == key.index),
                ),
                ..before
            }
        }
    }

    /// With the first `n` of some timelines started now.
    pub open spec fn started_all(self, show: Show, list: Seq<SiteKey>, n: nat) -> State
        decreases n,
    {
        if n == 0 || n > list.len() {
            self
        } else {
            let before = self.started_all(show, list, (n - 1) as nat);
            let key = list[n - 1];
            before.begun(
                OwnerKey::Layer(key.root, key.path),
                key.index,
                sum_of(before.time, timeline_delay(show, key.root, key.path, key.index)),
            )
        }
    }

    /// With every timeline started whose condition has just become true, or that runs under a
    /// condition that holds; and those stopped whose condition no longer holds.
    #[verifier::opaque]
    pub open spec fn follow_conditions(self) -> State {
        match self.show {
            None => self,
            Some(show) => {
                let noted = self.note_trees(show, show.scenes@.len() + 1);
                State {
                    conditions: put_all(self.conditions, noted.now, noted.now.len()),
                    ..self
                }.stopped_all(noted.stops, noted.stops.len()).started_all(
                    show,
                    noted.edges,
                    noted.edges.len(),
                )
            },
        }
    }

    /// The color a tint binding asks for.
    pub open spec fn wanted_color(self, site: SiteKey, b: Binding) -> Option<[u8; 4]> {
        match self.binding_value(site, b) {
            Some(value) => match self.convert(b, value) {
                Some(v) => color_of(v.text()),
                None => None,
            },
            None => None,
        }
    }

    /// With one transition noted: a first look starts the property at its value, a new target
    /// starts a change from the value reached.
    pub open spec fn transition_one(self, show: Show, site: SiteKey) -> State {
        if !self.shows(site.root) {
            self
        } else {
            match binding_in(show, site) {
                Some(b) => match b.transition {
                    Some(t) => if b.property == Property::Tint && t.model is None {
                        match self.wanted_color(site, b) {
                            None => State {
                                color_transitions: self.color_transitions.remove(site),
                                ..self
                            },
                            Some(target) => State {
                                color_transitions: self.color_transitions.insert(
                                    site,
                                    self.color_change(site, t, target),
                                ),
                                ..self
                            },
                        }
                    } else {
                        match self.binding_number(site, b) {
                            None => State { transitions: self.transitions.remove(site), ..self },
                            Some(target) => State {
                                transitions: self.transitions.insert(
                                    site,
                                    self.change(site, t, target),
                                ),
                                ..self
                            },
                        }
                    },
                    None => self,
                },
                None => self,
            }
        }
    }

    /// The change toward a color.
    pub open spec fn color_change(self, site: SiteKey, t: Transition, target: [u8; 4]) -> ColorChange {
        if !self.color_transitions.contains_key(site) {
            ColorChange { start: target, target, started: self.time }
        } else {
            let change = self.color_transitions[site];
            if change.target == target {
                change
            } else {
                let progress = t.moves().value(
                    num(0),
                    num(ONE),
                    sum_of(self.time, opposite_of(change.started)),
                );
                ColorChange { start: change.color(progress), target, started: self.time }
            }
        }
    }

    /// The change toward a number.
    pub open spec fn change(self, site: SiteKey, t: Transition, target: Num) -> Change {
        let known = if self.transitions.contains_key(site) {
            self.transitions[site]
        } else {
            Change {
                start: if t.model is Some {
                    settled_at(Filament::asked(t), num(0))
                } else {
                    target
                },
                target,
                started: self.time,
                whole: is_whole(target),
            }
        };
        if equal(known.target, target) {
            known
        } else {
            let elapsed = sum_of(self.time, opposite_of(known.started));
            Change {
                start: if t.model is Some {
                    heat(Filament::asked(t), known.start, known.target, elapsed)
                } else {
                    t.moves().value(known.start, known.target, elapsed)
                },
                target,
                started: self.time,
                whole: is_whole(known.target) && is_whole(target),
            }
        }
    }

    pub open spec fn transitions_through(self, show: Show, n: nat) -> State
        decreases n,
    {
        if n == 0 || n > self.transition_sites.len() {
            self
        } else {
            self.transitions_through(show, (n - 1) as nat).transition_one(
                show,
                self.transition_sites[n - 1],
            )
        }
    }

    /// With every showing binding with a transition noted.
    #[verifier::opaque]
    pub open spec fn follow_transitions(self) -> State {
        match self.show {
            Some(show) => self.transitions_through(show, self.transition_sites.len()),
            None => self,
        }
    }

    /// Where the cells of a reel row are heading.
    pub open spec fn row(self, site: SiteKey, layer: Layer, spin: bool) -> Option<Seq<Change>> {
        match layer.kind {
            LayerKind::Digits { digits, justify, display: DigitDisplay::Reel(reel), .. } => {
                let text = self.text(site.root, site.path, layer, Property::Text);
                let wanted = places(reel, text, digits as nat, justify);
                let known = if self.reels.contains_key(site) {
                    self.reels[site]
                } else {
                    standing(wanted, self.time)
                };
                Some(
                    rolled(
                        reel,
                        resized(known, digits as nat, self.time),
                        wanted,
                        self.time,
                        spin,
                        wanted.len(),
                    ),
                )
            },
            _ => None,
        }
    }

    pub open spec fn reel_one(self, show: Show, site: SiteKey, spinning: Seq<SiteKey>) -> State {
        if !self.shows(site.root) {
            self
        } else {
            match layer_in(show, site.root, site.path) {
                Some(layer) => match self.row(site, layer, spinning.contains(site)) {
                    Some(row) => State { reels: self.reels.insert(site, row), ..self },
                    None => self,
                },
                None => self,
            }
        }
    }

    pub open spec fn reels_through(self, show: Show, spinning: Seq<SiteKey>, n: nat) -> State
        decreases n,
    {
        if n == 0 || n > self.reel_sites.len() {
            self
        } else {
            self.reels_through(show, spinning, (n - 1) as nat).reel_one(
                show,
                self.reel_sites[n - 1],
                spinning,
            )
        }
    }

    /// With the cells of every showing reel row set off to the characters they should show.
    #[verifier::opaque]
    pub open spec fn follow_reels(self) -> State {
        match self.show {
            Some(show) => State { spinning: Seq::empty(), ..self }.reels_through(
                show,
                self.spinning,
                self.reel_sites.len(),
            ),
            None => self,
        }
    }
}

fn total_less(a: Num, b: Num) -> (r: bool)
    ensures
        r == (total_rank(a) < total_rank(b)),
{
    if a.bits >= SIGN {
        if b.bits >= SIGN {
            a.bits > b.bits
        } else {
            true
        }
    } else {
        b.bits < SIGN && a.bits < b.bits
    }
}

impl Engine {
    fn busy_since(&self, show: &Show, bus: &str, root: Root, path: &Vec<usize>) -> (r: Option<Num>)
        ensures
            r == self@.busy_since(*show, bus@, root, path@, self@.sounding.len()),
    {
        let mut first: Option<Num> = None;
        let mut i: usize = 0;
        while i < self.sounding.len()
            invariant
                i <= self.sounding.len(),
                first == self@.busy_since(*show, bus@, root, path@, i as nat),
            decreases self.sounding.len() - i,
        {
            let play = &self.sounding[i];
            assert(self@.sounding[i as int] == play@);
            if let Some(layer) = find_layer(show, play.root, play.layer_path.as_slice()) {
                if let Some((on, delay)) = layer.kind.sound_of() {
                    let from = play.started.plus(delay);
                    // A layer's own plays do not duck it.
                    if !self.time.lt(from) && same_text(on, bus) && !play.on(root, path) {
                        first = match first {
                            Some(known) => {
                                if total_less(from, known) {
                                    Some(from)
                                } else {
                                    Some(known)
                                }
                            },
                            None => Some(from),
                        };
                    }
                }
            }
            i = i + 1;
        }
        first
    }

    /// Where a ducking layer's level is: 1 when its bus is quiet, the duck's `to` while it
    /// sounds, and on the ramp between.
    pub(crate) fn duck_level_at(&self, site: &Site, time: Num) -> (r: Num)
        ensures
            r == self@.duck_level(site@, time),
    {
        let state = match self.ducking.get(site) {
            Some(state) => *state,
            None => {
                return num(ONE);
            },
        };
        let duck = match self.layer(site.root, &site.path) {
            Some(layer) => match layer.kind.duck_of() {
                Some(duck) => duck,
                None => {
                    return num(ONE);
                },
            },
            None => {
                return num(ONE);
            },
        };
        let (target, ramp) = if state.down {
            (duck.to, duck.attack)
        } else {
            (num(ONE), duck.release)
        };
        if ramp.le(num(0)) || !ramp.is_finite() {
            return target;
        }
        let t = time.minus(state.since).over(ramp).clamp(num(0), num(ONE));
        state.from.plus(target.minus(state.from).times(t))
    }

    fn note_duck(&mut self, site: Site, busy: Option<Num>)
        ensures
            final(self)@ == old(self)@.duck_noted(site@, busy),
    {
        let down = busy.is_some();
        if let Some(known) = self.ducking.get(&site) {
            if known.down == down {
                return ;
            }
        }
        // When the bus started, not when this step noticed it.
        let since = busy.unwrap_or(self.time).min(self.time);
        // Where it had got to, so turning round halfway carries on from there.
        let from = self.duck_level_at(&site, since);
        let ghost key = site@;
        self.ducking.insert(site, Ducked { down, since, from });
        assert(self@ =~= old(self)@.duck_noted(key, busy));
    }

    fn note_tree_ducks(&mut self, root: Root)
        requires
            old(self)@.show is Some,
        ensures
            final(self)@ == old(self)@.tree_ducks_noted(old(self)@.show->0, root),
    {
        let ghost was = self@;
        let ghost show = self@.show->0;
        let ghost all = duck_nodes(show, root);
        let mut found: Vec<(Site, Option<Num>)> = Vec::new();
        if let Some(shown) = &self.show {
            if let Some(layers) = root_layers(shown, root) {
                let list = layer_nodes(layers);
                let ghost nodes_all = nodes(layers@, Seq::empty());
                let mut i: usize = 0;
                proof {
                    lemma_filter_none(nodes_all, does_duck());
                }
                while i < list.len()
                    invariant
                        i <= list.len(),
                        self@ == was,
                        *shown == show,
                        node_views(list@) == nodes_all,
                        found@.len() == nodes_all.take(i as int).filter(does_duck()).len(),
                        forall|j: int|
                            0 <= j < found@.len() ==> {
                                let n = nodes_all.take(i as int).filter(does_duck())[j];
                                &&& (#[trigger] found@[j]).0@ == layer_site(root, n.0)
                                &&& found@[j].1 == was.busy_since(
                                    show,
                                    n.1.kind.ducks()->0.under@,
                                    root,
                                    n.0,
                                    was.sounding.len(),
                                )
                            },
                    decreases list.len() - i,
                {
                    let node = &list[i];
                    assert(nodes_all[i as int] == node@);
                    proof {
                        lemma_filter_step(nodes_all, does_duck(), i as int);
                    }
                    if let Some(duck) = node.layer.kind.duck_of() {
                        let busy = self.busy_since(shown, duck.under.as_str(), root, &node.path);
                        found.push((Site::of_layer(root, &node.path), busy));
                    }
                    i = i + 1;
                }
                assert(nodes_all.take(i as int) =~= nodes_all);
            }
        }
        assert(found@.len() == all.len());
        let mut k: usize = 0;
        while k < found.len()
            invariant
                k <= found.len(),
                found@.len() == all.len(),
                self@ == was.ducks_noted(show, root, all, k as nat),
                forall|j: int|
                    0 <= j < found@.len() ==> {
                        let n = all[j];
                        &&& (#[trigger] found@[j]).0@ == layer_site(root, n.0)
                        &&& found@[j].1 == was.busy_since(
                            show,
                            n.1.kind.ducks()->0.under@,
                            root,
                            n.0,
                            was.sounding.len(),
                        )
                    },
            decreases found.len() - k,
        {
            let site = found[k].0.copy();
            let busy = found[k].1;
            self.note_duck(site, busy);
            k = k + 1;
        }
    }

    /// Note, for every layer that ducks, whether the bus it listens to is sounding now, and
    /// when that last changed.
    pub(crate) fn follow_ducks(&mut self)
        ensures
            final(self)@ == old(self)@.follow_ducks(),
    {
        proof {
            reveal(State::follow_ducks);
        }
        if self.show.is_none() {
            return ;
        }
        let ghost was = self@;
        let ghost show = self@.show->0;
        proof {
            lemma_ducks_keep(was, show, Root::Show, duck_nodes(show, Root::Show), duck_nodes(
                show,
                Root::Show,
            ).len());
        }
        self.note_tree_ducks(Root::Show);
        if let Some(scene) = self.active_scene {
            self.note_tree_ducks(Root::Scene(scene));
        }
    }

    fn debounce_one(&mut self, site: Site, to: Num)
        ensures
            old(self)@.show matches Some(show) ==> final(self)@ == old(self)@.debounce_one(
                show,
                site@,
                to,
            ),
            old(self)@.show is None ==> final(self)@ == old(self)@,
    {
        if !self.shows(site.root) {
            return ;
        }
        let (hold, value) = match &self.show {
            Some(show) => match binding_at(show, &site) {
                Some(b) => match b.debounce {
                    Some(hold) => (hold, self.value(b.variable.as_str())),
                    None => {
                        return ;
                    },
                },
                None => {
                    return ;
                },
            },
            None => {
                return ;
            },
        };
        let value = match value {
            Some(value) => value,
            None => {
                self.debounced.remove(&site);
                assert(self@ =~= State {
                    debounced: old(self)@.debounced.remove(site@),
                    ..old(self)@
                });
                return ;
            },
        };
        let (mut settled, mut candidate, mut since) = match self.debounced.get(&site) {
            Some(known) => (known.settled.copy(), known.candidate.copy(), known.since),
            None => (value.copy(), value.copy(), self.time),
        };
        if !candidate.same(&value) {
            candidate = value;
            since = self.time;
        }
        if !settled.same(&candidate) && hold.le(to.plus(num(SAME_INSTANT)).minus(since)) {
            settled = candidate.copy();
        }
        let ghost key = site@;
        self.debounced.insert(site, Settling { settled, candidate, since });
        assert(self@ =~= State {
            debounced: old(self)@.debounced.insert(
                key,
                old(self)@.settling(key, value@, hold, to),
            ),
            ..old(self)@
        });
    }

    /// Let every binding with a debounce take in its variable.
    pub(crate) fn settle_debounces(&mut self, to: Num)
        ensures
            final(self)@ == old(self)@.settle_debounces(to),
    {
        proof {
            reveal(State::settle_debounces);
        }
        if self.show.is_none() {
            return ;
        }
        let ghost was = self@;
        let ghost show = self@.show->0;
        let mut i: usize = 0;
        while i < self.debounce_sites.len()
            invariant
                i <= was.debounce_sites.len(),
                was.show == Some(show),
                self@ == was.debounced_through(show, to, i as nat),
                self@.show == was.show,
                self@.debounce_sites == was.debounce_sites,
                self.debounce_sites@.len() == was.debounce_sites.len(),
            decreases was.debounce_sites.len() - i,
        {
            let site = self.debounce_sites[i].copy();
            assert(site@ == self@.debounce_sites[i as int]);
            self.debounce_one(site, to);
            i = i + 1;
        }
    }
}

impl Engine {
    fn is_running(&self, root: Root, path: &Vec<usize>, timeline: usize) -> (r: bool)
        ensures
            r == self@.runs(OwnerKey::Layer(root, path@), timeline),
    {
        let ghost owner = OwnerKey::Layer(root, path@);
        let ghost pred = |p: Running| p.owner == owner && p.timeline == timeline;
        let mut i: usize = 0;
        while i < self.playing.len()
            invariant
                i <= self.playing.len(),
                owner == OwnerKey::Layer(root, path@),
                pred == (|p: Running| p.owner == owner && p.timeline == timeline),
                forall|j: int| 0 <= j < i ==> !pred(#[trigger] self@.playing[j]),
            decreases self.playing.len() - i,
        {
            assert(self@.playing[i as int] == self.playing@[i as int]@);
            if self.playing[i].owner.is_layer(root, path) && self.playing[i].timeline == timeline {
                assert(pred(self@.playing[i as int]));
                return true;
            }
            i = i + 1;
        }
        false
    }

    fn note_one(
        &self,
        root: Root,
        path: &Vec<usize>,
        idx: usize,
        tl: &Timeline,
        edges: &mut Vec<Site>,
        stops: &mut Vec<Site>,
        now: &mut Vec<(Site, bool)>,
    )
        ensures
            noted(final(edges)@, final(stops)@, final(now)@) == self@.note_one(
                root,
                path@,
                idx,
                *tl,
                noted(old(edges)@, old(stops)@, old(now)@),
            ),
    {
        let ghost before = noted(edges@, stops@, now@);
        let ghost key = SiteKey { root, path: path@, index: idx };
        if let Some(when) = &tl.when {
            let holds = self.holds(when);
            let site = Site { root, path: copy_path(path), index: idx };
            if !self.shows(root) {
                // Away: only the fall is worth remembering.
                if !holds {
                    now.push((site, false));
                    assert(flags(now@) =~= before.now.push((key, false)));
                    assert(noted(edges@, stops@, now@) =~= self@.note_one(
                        root,
                        path@,
                        idx,
                        *tl,
                        before,
                    ));
                }
                return ;
            }
            let known = match self.conditions.get(&site) {
                Some(on) => *on,
                None => false,
            };
            // The rising edge, and only that.
            if holds && !known {
                edges.push(site.copy());
                assert(site_keys(edges@) =~= before.edges.push(key));
            }
            now.push((site, holds));
            assert(flags(now@) =~= before.now.push((key, holds)));
            assert(noted(edges@, stops@, now@) =~= self@.note_one(root, path@, idx, *tl, before));
        } else if let Some(whilst) = &tl.whilst {
            if !self.shows(root) {
                return ;
            }
            let holds = self.holds(whilst);
            let running = self.is_running(root, path, idx);
            if holds && !running {
                edges.push(Site { root, path: copy_path(path), index: idx });
                assert(site_keys(edges@) =~= before.edges.push(key));
            } else if !holds && running {
                stops.push(Site { root, path: copy_path(path), index: idx });
                assert(site_keys(stops@) =~= before.stops.push(key));
            }
            assert(noted(edges@, stops@, now@) =~= self@.note_one(root, path@, idx, *tl, before));
        }
    }

    fn note_tree(
        &self,
        show: &Show,
        root: Root,
        edges: &mut Vec<Site>,
        stops: &mut Vec<Site>,
        now: &mut Vec<(Site, bool)>,
    )
        ensures
            noted(final(edges)@, final(stops)@, final(now)@) == self@.note_tree(
                *show,
                root,
                noted(old(edges)@, old(stops)@, old(now)@),
            ),
    {
        let layers = match root_layers(show, root) {
            Some(layers) => layers,
            None => {
                return ;
            },
        };
        let list = layer_nodes(layers);
        let ghost all = nodes(layers@, Seq::empty());
        let ghost before = noted(edges@, stops@, now@);
        let mut i: usize = 0;
        while i < list.len()
            invariant
                i <= list.len(),
                node_views(list@) == all,
                noted(edges@, stops@, now@) == self@.note_nodes(root, all, i as nat, before),
            decreases list.len() - i,
        {
            let node = &list[i];
            assert(all[i as int] == node@);
            let ghost here = noted(edges@, stops@, now@);
            let mut k: usize = 0;
            while k < node.layer.timelines.len()
                invariant
                    k <= node.layer.timelines.len(),
                    noted(edges@, stops@, now@) == self@.note_layer(
                        root,
                        node.path@,
                        node.layer.timelines@,
                        k as nat,
                        here,
                    ),
                decreases node.layer.timelines.len() - k,
            {
                self.note_one(root, &node.path, k, &node.layer.timelines[k], edges, stops, now);
                k = k + 1;
            }
            i = i + 1;
        }
    }

    /// Start every timeline whose `when` has just become true, and follow those that run
    /// under a `while`.
    pub(crate) fn follow_conditions(&mut self)
        ensures
            final(self)@ == old(self)@.follow_conditions(),
    {
        proof {
            reveal(State::follow_conditions);
        }
        let mut edges: Vec<Site> = Vec::new();
        let mut stops: Vec<Site> = Vec::new();
        let mut now: Vec<(Site, bool)> = Vec::new();
        let ghost was = self@;
        match &self.show {
            Some(show) => {
                // Every tree, not only the showing one: a condition in a scene that is away
                // still has to notice its variable falling.
                proof {
                    assert(noted(edges@, stops@, now@) =~= was.note_trees(*show, 0));
                }
                self.note_tree(show, Root::Show, &mut edges, &mut stops, &mut now);
                let mut r: usize = 0;
                assert(noted(edges@, stops@, now@) == was.note_trees(*show, 1));
                while r < show.scenes.len()
                    invariant
                        r <= show.scenes.len(),
                        self@ == was,
                        noted(edges@, stops@, now@) == was.note_trees(*show, (r + 1) as nat),
                    decreases show.scenes.len() - r,
                {
                    self.note_tree(show, Root::Scene(r), &mut edges, &mut stops, &mut now);
                    r = r + 1;
                    assert(tree_at(r as nat) == Root::Scene((r - 1) as usize));
                }
            },
            None => {
                return ;
            },
        }
        let ghost show = was.show->0;
        let ghost found = noted(edges@, stops@, now@);
        let mut i: usize = 0;
        while i < now.len()
            invariant
                i <= now.len(),
                flags(now@) == found.now,
                self@ == (State {
                    conditions: put_all(was.conditions, found.now, i as nat),
                    ..was
                }),
            decreases now.len() - i,
        {
            let site = now[i].0.copy();
            assert(found.now[i as int] == (now@[i as int].0@, now@[i as int].1));
            self.conditions.insert(site, now[i].1);
            i = i + 1;
            assert(self@ =~= State {
                conditions: put_all(was.conditions, found.now, i as nat),
                ..was
            });
        }
        let ghost remembered = self@;
        let mut j: usize = 0;
        while j < stops.len()
            invariant
                j <= stops.len(),
                site_keys(stops@) == found.stops,
                self@ == remembered.stopped_all(found.stops, j as nat),
            decreases stops.len() - j,
        {
            let site = &stops[j];
            assert(found.stops[j as int] == site@);
            let ghost before = self@;
            let owner = Owner::Layer { root: site.root, path: copy_path(&site.path) };
            crate::play::retain_running(&mut self.playing, Some((&owner, site.index)));
            j = j + 1;
            assert(self@ =~= remembered.stopped_all(found.stops, j as nat));
        }
        let ghost quiet = self@;
        proof {
            lemma_stopped_keeps(remembered, found.stops, j as nat);
        }
        let mut k: usize = 0;
        while k < edges.len()
            invariant
                k <= edges.len(),
                site_keys(edges@) == found.edges,
                quiet.show == Some(show),
                self@.show == quiet.show,
                self@ == quiet.started_all(show, found.edges, k as nat),
            decreases edges.len() - k,
        {
            let site = &edges[k];
            assert(found.edges[k as int] == site@);
            self.start_timeline(site.root, &site.path, site.index, self.time);
            k = k + 1;
        }
    }

    fn transition_one(&mut self, site: Site)
        ensures
            old(self)@.show matches Some(show) ==> final(self)@ == old(self)@.transition_one(
                show,
                site@,
            ),
            old(self)@.show is None ==> final(self)@ == old(self)@,
    {
        if !self.shows(site.root) {
            return ;
        }
        let ghost key = site@;
        match &self.show {
            Some(show) => match binding_at(show, &site) {
                Some(b) => match &b.transition {
                    Some(t) => {
                        if b.property == Property::Tint && t.model.is_none() {
                            let target = match self.binding_value(&site, b) {
                                Some(value) => match self.convert(b, value) {
                                    Some(v) => parse_color(v.to_text().as_str()),
                                    None => None,
                                },
                                None => None,
                            };
                            match target {
                                Some(target) => {
                                    let change = self.color_change(&site, t, target);
                                    self.color_transitions.insert(site, change);
                                },
                                None => {
                                    self.color_transitions.remove(&site);
                                },
                            }
                        } else {
                            match self.binding_number(&site, b) {
                                Some(target) => {
                                    let change = self.change(&site, t, target);
                                    self.transitions.insert(site, change);
                                },
                                None => {
                                    self.transitions.remove(&site);
                                },
                            }
                        }
                    },
                    None => {},
                },
                None => {},
            },
            None => {},
        }
        assert(old(self)@.show matches Some(show) ==> self@ =~= old(self)@.transition_one(
            show,
            key,
        ));
    }

    fn color_change(&self, site: &Site, t: &Transition, target: [u8; 4]) -> (r: ColorChange)
        ensures
            r == self@.color_change(site@, *t, target),
    {
        match self.color_transitions.get(site) {
            None => ColorChange { start: target, target, started: self.time },
            Some(change) => {
                if same_color(change.target, target) {
                    *change
                } else {
                    let progress = t.value_at(num(0), num(ONE), self.time.minus(change.started));
                    ColorChange { start: change.value_at(progress), target, started: self.time }
                }
            },
        }
    }

    fn change(&self, site: &Site, t: &Transition, target: Num) -> (r: Change)
        ensures
            r == self@.change(site@, *t, target),
    {
        let modelled = t.model.is_some();
        let known = match self.transitions.get(site) {
            Some(change) => *change,
            None => Change {
                // A show starts with its lamps cold, whatever they are being told.
                start: if modelled {
                    settled(Filament::of(t), num(0))
                } else {
                    target
                },
                target,
                started: self.time,
                whole: target.fract().same(num(0)),
            },
        };
        if known.target.same(target) {
            return known;
        }
        let elapsed = self.time.minus(known.started);
        Change {
            // A bulb re-lit while still warm comes up from where it is.
            start: if modelled {
                temperature(Filament::of(t), known.start, known.target, elapsed)
            } else {
                t.value_at(known.start, known.target, elapsed)
            },
            target,
            started: self.time,
            whole: known.target.fract().same(num(0)) && target.fract().same(num(0)),
        }
    }

    /// Note where every binding with a transition is heading, as of now.
    pub(crate) fn follow_transitions(&mut self)
        ensures
            final(self)@ == old(self)@.follow_transitions(),
    {
        proof {
            reveal(State::follow_transitions);
        }
        if self.show.is_none() {
            return ;
        }
        let ghost was = self@;
        let ghost show = self@.show->0;
        let mut i: usize = 0;
        while i < self.transition_sites.len()
            invariant
                i <= was.transition_sites.len(),
                was.show == Some(show),
                self@ == was.transitions_through(show, i as nat),
                self@.show == was.show,
                self@.transition_sites == was.transition_sites,
                self.transition_sites@.len() == was.transition_sites.len(),
            decreases was.transition_sites.len() - i,
        {
            let site = self.transition_sites[i].copy();
            assert(site@ == self@.transition_sites[i as int]);
            self.transition_one(site);
            i = i + 1;
        }
    }

    fn row(&self, site: &Site, layer: &Layer, spin: bool) -> (r: Option<Vec<Change>>)
        ensures
            match r {
                Some(row) => self@.row(site@, *layer, spin) == Some(row@),
                None => self@.row(site@, *layer, spin) is None,
            },
    {
        let (digits, justify, reel) = match &layer.kind {
            LayerKind::Digits { digits, justify, display: DigitDisplay::Reel(reel), .. } => (
                *digits,
                *justify,
                reel,
            ),
            _ => {
                return None;
            },
        };
        let count: usize = digits as usize;
        let ring = reel.characters();
        let text = self.text(site.root, layer, &site.path, Property::Text);
        let asked = cells(text.as_str(), count, justify);
        let ghost goal = places(*reel, text@, digits as nat, justify);
        let mut wanted: Vec<Option<Num>> = Vec::new();
        let mut i: usize = 0;
        while i < asked.len()
            invariant
                i <= asked.len(),
                asked@ == celled(text@, digits as nat, justify),
                ring@ == reel.charset@,
                goal == places(*reel, text@, digits as nat, justify),
                wanted@ == goal.take(i as int),
            decreases asked.len() - i,
        {
            wanted.push(ring_place_of(&ring, asked[i]));
            i = i + 1;
            assert(wanted@ =~= goal.take(i as int));
        }
        assert(wanted@ =~= goal);
        let mut row: Vec<Change> = Vec::new();
        let known = self.reels.get(site);
        let ghost known_seq = if self@.reels.contains_key(site@) {
            self@.reels[site@]
        } else {
            standing(goal, self@.time)
        };
        let ghost all = resized(known_seq, digits as nat, self@.time);
        let mut k: usize = 0;
        while k < count
            invariant
                k <= count,
                count == digits,
                wanted@ == goal,
                goal.len() == count,
                match known {
                    Some(records) => known_seq == records@,
                    None => known_seq == standing(goal, self.time),
                },
                all == resized(known_seq, digits as nat, self.time),
                row@ == all.take(k as int),
            decreases count - k,
        {
            let change = match known {
                Some(records) => {
                    if k < records.len() {
                        records[k]
                    } else {
                        Change { start: num(0), target: num(0), started: self.time, whole: false }
                    }
                },
                None => {
                    let place = wanted[k].unwrap_or(num(0));
                    Change { start: place, target: place, started: self.time, whole: false }
                },
            };
            row.push(change);
            k = k + 1;
            assert(row@ =~= all.take(k as int));
        }
        assert(row@ =~= all);
        let roll = reel.roll();
        let ring_length = reel.ring();
        let mut n: usize = 0;
        while n < count
            invariant
                n <= count,
                count == digits,
                wanted@ == goal,
                goal.len() == count,
                row@.len() == count,
                ring_length == reel.ring_size(),
                roll.moves() == reel.rolling(),
                row@ == rolled(*reel, all, goal, self.time, spin, n as nat),
            decreases count - n,
        {
            if let Some(character) = wanted[n] {
                let change = row[n];
                // A cell that is already going there carries on, unless the row was told to
                // spin.
                if spin || !change.target.rem_euclid(ring_length).same(character) {
                    let reached = roll.value_at(
                        change.start,
                        change.target,
                        self.time.minus(change.started),
                    );
                    // The cell on the right moves first; the rest follow.
                    let delay = Num::from_u64((count - 1 - n) as u64).times(
                        reel.stagger.max(num(0)),
                    );
                    row.set(
                        n,
                        Change {
                            start: reached,
                            target: reel.travel(reached, character),
                            started: self.time.plus(delay),
                            whole: false,
                        },
                    );
                }
            }
            n = n + 1;
        }
        Some(row)
    }

    fn reel_one(&mut self, site: Site, spinning: &Vec<Site>)
        ensures
            old(self)@.show matches Some(show) ==> final(self)@ == old(self)@.reel_one(
                show,
                site@,
                site_keys(spinning@),
            ),
            old(self)@.show is None ==> final(self)@ == old(self)@,
    {
        if !self.shows(site.root) {
            return ;
        }
        let spin = has_site(spinning, &site);
        let row = match self.layer(site.root, &site.path) {
            Some(layer) => self.row(&site, layer, spin),
            None => None,
        };
        let ghost key = site@;
        if let Some(row) = row {
            self.reels.insert(site, row);
        }
        assert(old(self)@.show matches Some(show) ==> self@ =~= old(self)@.reel_one(
            show,
            key,
            site_keys(spinning@),
        ));
    }

    /// Note which character each reel cell is heading for, as of now.
    pub(crate) fn follow_reels(&mut self)
        ensures
            final(self)@ == old(self)@.follow_reels(),
    {
        proof {
            reveal(State::follow_reels);
        }
        if self.show.is_none() {
            return ;
        }
        let ghost was = self@;
        let ghost show = self@.show->0;
        let mut spinning: Vec<Site> = Vec::new();
        spinning.append(&mut self.spinning);
        assert(site_keys(spinning@) =~= was.spinning);
        let ghost begun = State { spinning: Seq::empty(), ..was };
        assert(self@ =~= begun);
        let mut i: usize = 0;
        while i < self.reel_sites.len()
            invariant
                i <= was.reel_sites.len(),
                begun.show == Some(show),
                begun.reel_sites == was.reel_sites,
                site_keys(spinning@) == was.spinning,
                self@ == begun.reels_through(show, was.spinning, i as nat),
                self@.show == was.show,
                was.show == Some(show),
                self@.reel_sites == was.reel_sites,
                self.reel_sites@.len() == was.reel_sites.len(),
            decreases was.reel_sites.len() - i,
        {
            let site = self.reel_sites[i].copy();
            assert(site@ == self@.reel_sites[i as int]);
            self.reel_one(site, &spinning);
            i = i + 1;
        }
    }

    /// Where the cells of the reel row at `path` stand on their ring now.
    pub(crate) fn reel_positions(&self, root: Root, path: &Vec<usize>, reel: &Reel) -> (r: Vec<Num>)
        ensures
            r@ == self@.reel_positions(root, path@, *reel),
    {
        let mut out: Vec<Num> = Vec::new();
        let site = Site::of_layer(root, path);
        let roll = reel.roll();
        if let Some(records) = self.reels.get(&site) {
            let ghost all = self@.reel_positions(root, path@, *reel);
            let mut i: usize = 0;
            while i < records.len()
                invariant
                    i <= records.len(),
                    self@.reels.contains_key(layer_site(root, path@)),
                    self@.reels[layer_site(root, path@)] == records@,
                    all == self@.reel_positions(root, path@, *reel),
                    roll.moves() == reel.rolling(),
                    out@ == all.take(i as int),
                decreases records.len() - i,
            {
                let c = records[i];
                out.push(roll.value_at(c.start, c.target, self.time.minus(c.started)));
                i = i + 1;
                assert(out@ =~= all.take(i as int));
            }
            assert(out@ =~= all);
        } else {
            assert(out@ =~= Seq::<Num>::empty());
        }
        out
    }
}

impl State {
    /// Where the cells of a reel row stand on their ring.
    pub open spec fn reel_positions(self, root: Root, path: Seq<usize>, reel: Reel) -> Seq<Num> {
        let site = layer_site(root, path);
        if self.reels.contains_key(site) {
            self.reels[site].map_values(
                |c: Change|
                    reel.rolling().value(
                        c.start,
                        c.target,
                        sum_of(self.time, opposite_of(c.started)),
                    ),
            )
        } else {
            Seq::empty()
        }
    }
}

pub open spec fn flags(list: Seq<(Site, bool)>) -> Seq<(SiteKey, bool)> {
    list.map_values(|e: (Site, bool)| (e.0@, e.1))
}

/// What lists of sites note.
pub open spec fn noted(edges: Seq<Site>, stops: Seq<Site>, now: Seq<(Site, bool)>) -> Noted {
    Noted { edges: site_keys(edges), stops: site_keys(stops), now: flags(now) }
}

fn same_color(a: [u8; 4], b: [u8; 4]) -> (r: bool)
    ensures
        r == (a == b),
{
    let same = a[0] == b[0] && a[1] == b[1] && a[2] == b[2] && a[3] == b[3];
    proof {
        if same {
            assert(a =~= b);
        }
    }
    same
}

proof fn lemma_stopped_keeps(s: State, list: Seq<SiteKey>, n: nat)
    ensures
        s.stopped_all(list, n).show == s.show,
    decreases n,
{
    if n > 0 && n <= list.len() {
        lemma_stopped_keeps(s, list, (n - 1) as nat);
    }
}

/// Noting ducks changes nothing but what is noted of them.
proof fn lemma_ducks_keep(
    s: State,
    show: Show,
    root: Root,
    list: Seq<(Seq<usize>, Layer)>,
    n: nat,
)
    ensures
        s.ducks_noted(show, root, list, n).show == s.show,
        s.ducks_noted(show, root, list, n).active_scene == s.active_scene,
        s.ducks_noted(show, root, list, n).sounding == s.sounding,
    decreases n,
{
    if n > 0 && n <= list.len() {
        lemma_ducks_keep(s, show, root, list, (n - 1) as nat);
    }
}

} // verus!
