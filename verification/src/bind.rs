//! What a layer's properties are: authored values, overridden by bindings, overridden by
//! running timelines.

use crate::color::{color_chars, color_of, color_text, parse_color};
use crate::lamp::{glow, heat, seen, Filament};
use crate::lamp;
use crate::model::{
    played_for, sample_keys, sampled, Binding, Layer, Property, Show, ShowValue, Timeline, Track,
    ValueTimeline, When,
};
use crate::names::lookup;
use crate::num::{
    at_most, equal, less, num, opposite_of, product_of, remainder_of, round_of, sum_of, Num,
};
use crate::sites::{Site, SiteKey};
use crate::state::{ColorChange, Engine, Owner, OwnerKey, Playhead, Running, State, SAME_INSTANT};
use crate::text::owned;
use crate::tree::{copy_path, find_layer, layer_in, Root};
use crate::value::{format_text, Held, Value};
use crate::waves::ONE;
use vstd::prelude::*;

verus! {

/// A timeline's timing, whatever it animates.
#[derive(Debug)]
pub struct Timing<'a> {
    pub duration: Num,
    pub play_time: Num,
    pub looping: bool,
    pub hold: bool,
    pub on_end: &'a Option<String>,
}

/// A [`Timing`], by value.
pub ghost struct Pace {
    pub duration: Num,
    pub play_time: Num,
    pub looping: bool,
    pub hold: bool,
    pub on_end: Option<String>,
}

impl<'a> View for Timing<'a> {
    type V = Pace;

    open spec fn view(&self) -> Pace {
        Pace {
            duration: self.duration,
            play_time: self.play_time,
            looping: self.looping,
            hold: self.hold,
            on_end: *self.on_end,
        }
    }
}

pub open spec fn timeline_pace(tl: Timeline) -> Pace {
    Pace {
        duration: tl.length(),
        play_time: played_for(tl.length(), tl.repeat),
        looping: tl.looping,
        hold: tl.hold,
        on_end: tl.on_end,
    }
}

pub open spec fn value_pace(tl: ValueTimeline) -> Pace {
    Pace {
        duration: tl.length(),
        play_time: played_for(tl.length(), tl.repeat),
        looping: tl.looping,
        hold: tl.hold,
        on_end: tl.on_end,
    }
}

fn timing_of(tl: &Timeline) -> (r: Timing<'_>)
    ensures
        r@ == timeline_pace(*tl),
{
    Timing {
        duration: tl.duration(),
        play_time: tl.play_time(),
        looping: tl.looping,
        hold: tl.hold,
        on_end: &tl.on_end,
    }
}

fn timing_of_value(tl: &ValueTimeline) -> (r: Timing<'_>)
    ensures
        r@ == value_pace(*tl),
{
    Timing {
        duration: tl.duration(),
        play_time: tl.play_time(),
        looping: tl.looping,
        hold: tl.hold,
        on_end: &tl.on_end,
    }
}

/// The timing of whatever a playhead is playing.
pub open spec fn pace_in(show: Show, p: Running) -> Option<Pace> {
    match p.owner {
        OwnerKey::Layer(root, path) => match layer_in(show, root, path) {
            Some(layer) => if p.timeline < layer.timelines@.len() {
                Some(timeline_pace(layer.timelines@[p.timeline as int]))
            } else {
                None
            },
            None => None,
        },
        OwnerKey::Value(name) => match lookup(show.values@, name) {
            Some(value) => if p.timeline < value.timelines@.len() {
                Some(value_pace(value.timelines@[p.timeline as int]))
            } else {
                None
            },
            None => None,
        },
    }
}

/// The timing of whatever `p` is playing, from the loaded show.
pub fn timing_in<'a>(show: &'a Show, p: &Playhead) -> (r: Option<Timing<'a>>)
    ensures
        match r {
            Some(t) => pace_in(*show, p@) == Some(t@),
            None => pace_in(*show, p@) is None,
        },
{
    match &p.owner {
        Owner::Layer { root, path } => match find_layer(show, *root, path.as_slice()) {
            Some(layer) => {
                if p.timeline < layer.timelines.len() {
                    Some(timing_of(&layer.timelines[p.timeline]))
                } else {
                    None
                }
            },
            None => None,
        },
        Owner::Value(name) => match show.values.get(name.as_str()) {
            Some(value) => {
                if p.timeline < value.timelines.len() {
                    Some(timing_of_value(&value.timelines[p.timeline]))
                } else {
                    None
                }
            },
            None => None,
        },
    }
}

impl Running {
    /// Seconds since the delay ended at show time `now`: negative while still delayed, and
    /// wrapped for a loop.
    pub open spec fn elapsed(self, now: Num, pace: Pace) -> Num {
        if self.held {
            pace.play_time
        } else {
            let raw = sum_of(now, opposite_of(self.starts));
            let e = if less(raw, num(0)) && less(opposite_of(num(SAME_INSTANT)), raw) {
                num(0)
            } else {
                raw
            };
            if less(num(0), e) && pace.looping && less(num(0), pace.duration) {
                remainder_of(e, pace.duration)
            } else {
                e
            }
        }
    }

    /// The instant it finishes, for a timeline that does finish.
    pub open spec fn finish(self, pace: Pace) -> Num {
        sum_of(self.starts, pace.play_time)
    }
}

impl Playhead {
    /// Seconds since the delay ended at show time `now`: negative while still delayed, and
    /// wrapped for a loop.
    pub fn at(&self, now: Num, tl: &Timing<'_>) -> (r: Num)
        ensures
            r == self@.elapsed(now, tl@),
    {
        if self.held {
            return tl.play_time;
        }
        let mut elapsed = now.minus(self.starts);
        // An anchor a hair ahead of the clock is one that has just started, not one still
        // waiting.
        if elapsed.lt(num(0)) && num(SAME_INSTANT).neg().lt(elapsed) {
            elapsed = num(0);
        }
        if num(0).lt(elapsed) && tl.looping && num(0).lt(tl.duration) {
            return elapsed.rem(tl.duration);
        }
        elapsed
    }

    /// The instant it finishes, for a timeline that does finish.
    pub fn ends(&self, tl: &Timing<'_>) -> (r: Num)
        ensures
            r == self@.finish(tl@),
    {
        self.starts.plus(tl.play_time)
    }
}

/// A binding's number after `threshold`, `curve`, `scale` and `offset`.
pub open spec fn scaled_by(b: Binding, n: Num) -> Num {
    let level = match b.threshold {
        Some(level) => if at_most(level, n) {
            num(ONE)
        } else {
            num(0)
        },
        None => n,
    };
    let bent = match sampled(b.curve@, level) {
        Some(v) => v,
        None => level,
    };
    sum_of(product_of(bent, b.scale), b.offset)
}

pub(crate) fn scaled(b: &Binding, n: Num) -> (r: Num)
    ensures
        r == scaled_by(*b, n),
{
    let n = match b.threshold {
        Some(level) => {
            if level.le(n) {
                num(ONE)
            } else {
                num(0)
            }
        },
        None => n,
    };
    let n = sample_keys(&b.curve, n).unwrap_or(n);
    n.times(b.scale).plus(b.offset)
}

/// A text binding's value with its words round it.
pub open spec fn worded_by(b: Binding, text: Seq<char>) -> Seq<char> {
    b.prefix@ + text + b.suffix@
}

pub(crate) fn worded(b: &Binding, text: String) -> (r: String)
    ensures
        r@ == worded_by(*b, text@),
{
    let mut out = b.prefix.clone();
    out.append(text.as_str());
    out.append(b.suffix.as_str());
    out
}

impl ColorChange {
    /// Where one channel has reached, `progress` of the way along.
    pub open spec fn channel(self, i: int, progress: Num) -> u8 {
        let from = crate::num::from_int(self.start[i] as int);
        let to = crate::num::from_int(self.target[i] as int);
        crate::num::to_byte_of(
            crate::num::clamp_of(
                round_of(sum_of(from, product_of(sum_of(to, opposite_of(from)), progress))),
                num(0),
                num(lamp::TOP),
            ),
        )
    }

    pub open spec fn color(self, progress: Num) -> [u8; 4] {
        [
            self.channel(0, progress),
            self.channel(1, progress),
            self.channel(2, progress),
            self.channel(3, progress),
        ]
    }

    fn channel_at(&self, i: usize, progress: Num) -> (r: u8)
        requires
            i < 4,
        ensures
            r == self.channel(i as int, progress),
    {
        let from = Num::from_u64(self.start[i] as u64);
        let to = Num::from_u64(self.target[i] as u64);
        from.plus(to.minus(from).times(progress)).round().clamp(num(0), num(lamp::TOP)).to_u8()
    }

    /// Where the color has reached, `progress` of the way along.
    pub fn value_at(&self, progress: Num) -> (r: [u8; 4])
        ensures
            r == self.color(progress),
    {
        [
            self.channel_at(0, progress),
            self.channel_at(1, progress),
            self.channel_at(2, progress),
            self.channel_at(3, progress),
        ]
    }
}

/// A value looked up in a map, as bindings and conditions do.
pub open spec fn mapped(
    map: Option<crate::names::NameMap<Value>>,
    default: Option<Value>,
    value: Held,
) -> Option<Held> {
    match map {
        None => Some(value),
        Some(map) => match lookup(map@, value.text()) {
            Some(v) => Some(v),
            None => match default {
                Some(v) => Some(v@),
                None => None,
            },
        },
    }
}

fn map_value(
    map: &Option<crate::names::NameMap<Value>>,
    default: &Option<Value>,
    value: Value,
) -> (r: Option<Value>)
    ensures
        match r {
            Some(v) => mapped(*map, *default, value@) == Some(v@),
            None => mapped(*map, *default, value@) is None,
        },
{
    match map {
        None => Some(value),
        Some(map) => match map.get(value.to_text().as_str()) {
            Some(v) => Some(v.copy()),
            None => match default {
                Some(v) => Some(v.copy()),
                None => None,
            },
        },
    }
}

impl State {
    /// The number a show value reaches through the first `n` playheads that are held or not.
    pub open spec fn value_through(
        self,
        value: ShowValue,
        name: Seq<char>,
        held: bool,
        n: nat,
        init: Option<Num>,
    ) -> Option<Num>
        decreases n,
    {
        if n == 0 || n > self.playing.len() {
            init
        } else {
            let before = self.value_through(value, name, held, (n - 1) as nat, init);
            let p = self.playing[n - 1];
            if p.held == held && p.owner == OwnerKey::Value(name) && p.timeline
                < value.timelines@.len() {
                let tl = value.timelines@[p.timeline as int];
                match tl.value(p.elapsed(self.time, value_pace(tl))) {
                    Some(v) => Some(v),
                    None => before,
                }
            } else {
                before
            }
        }
    }

    /// The number a show value stands at: from whichever of its timelines is running, a held
    /// one only if nothing else is.
    pub open spec fn show_value(self, name: Seq<char>) -> Option<Num> {
        match self.show {
            Some(show) => match lookup(show.values@, name) {
                Some(value) => {
                    let n = self.playing.len();
                    let held = self.value_through(value, name, true, n, None);
                    self.value_through(value, name, false, n, held)
                },
                None => None,
            },
            None => None,
        }
    }

    /// What a name reads as: the host's variable, or else the show's own value.
    pub open spec fn value(self, name: Seq<char>) -> Option<Held> {
        match lookup(self.variables, name) {
            Some(v) => Some(v),
            None => match self.show_value(name) {
                Some(n) => Some(Held::Number(n)),
                None => None,
            },
        }
    }

    /// Whether a condition reads as true.
    pub open spec fn holds(self, when: When) -> bool {
        match lookup(self.variables, when.variable@) {
            None => false,
            Some(value) => match mapped(when.map, when.default, value) {
                None => false,
                Some(v) => match when.threshold {
                    Some(level) => at_most(level, v.number()),
                    None => !equal(v.number(), num(0)),
                },
            },
        }
    }

    /// The value a binding feeds its property: the variable's (as debounced), or what its map
    /// turns it into.
    pub open spec fn binding_value(self, site: SiteKey, b: Binding) -> Option<Held> {
        let input = if b.debounce is Some && self.debounced.contains_key(site) {
            Some(self.debounced[site].settled)
        } else {
            self.value(b.variable@)
        };
        match input {
            Some(v) => mapped(b.map, b.default, v),
            None => None,
        }
    }

    /// The number a binding's transition eases toward.
    pub open spec fn binding_number(self, site: SiteKey, b: Binding) -> Option<Num> {
        let modelled = b.transition is Some && b.transition->0.model is Some;
        match self.binding_value(site, b) {
            None => None,
            Some(value) => match b.property {
                Property::Tint => if modelled {
                    Some(scaled_by(b, value.number()))
                } else {
                    None
                },
                Property::Font => None,
                Property::Text => match value {
                    Held::Number(n) => Some(scaled_by(b, n)),
                    _ => None,
                },
                _ => Some(scaled_by(b, value.number())),
            },
        }
    }

    /// What a bound value becomes in the binding's property.
    pub open spec fn convert(self, b: Binding, value: Held) -> Option<Held> {
        match b.property {
            Property::Text => Some(
                Held::Text(
                    worded_by(
                        b,
                        match value {
                            Held::Number(n) => format_text(b.format, scaled_by(b, n), b.decimals),
                            other => other.text(),
                        },
                    ),
                ),
            ),
            Property::Visible => Some(
                Held::Bool(!equal(scaled_by(b, value.number()), num(0))),
            ),
            Property::Tint => match value {
                Held::Text(color) => if color.len() == 0 || color_of(color) is Some {
                    Some(value)
                } else {
                    None
                },
                _ => None,
            },
            Property::Video => Some(Held::Text(value.text())),
            Property::Sound => Some(Held::Text(value.text())),
            Property::Font => match (value, self.show) {
                (Held::Text(style), Some(show)) => if lookup(show.fonts@, style) is Some {
                    Some(value)
                } else {
                    None
                },
                _ => None,
            },
            _ => Some(Held::Number(scaled_by(b, value.number()))),
        }
    }

    /// What a binding holds while its transition is under way.
    pub open spec fn in_transition(self, site: SiteKey, b: Binding) -> Option<Held> {
        match b.transition {
            None => None,
            Some(transition) => if b.property == Property::Tint && transition.model is None {
                if self.color_transitions.contains_key(site) {
                    let change = self.color_transitions[site];
                    let progress = transition.moves().value(
                        num(0),
                        num(ONE),
                        sum_of(self.time, opposite_of(change.started)),
                    );
                    Some(Held::Text(color_chars(change.color(progress))))
                } else {
                    None
                }
            } else if self.transitions.contains_key(site) {
                let change = self.transitions[site];
                let elapsed = sum_of(self.time, opposite_of(change.started));
                if transition.model is Some {
                    let lamp = Filament::asked(transition);
                    let hot = heat(lamp, change.start, change.target, elapsed);
                    if b.property == Property::Tint {
                        let c = glow(hot);
                        Some(Held::Text(color_chars([c[0], c[1], c[2], 255])))
                    } else {
                        Some(Held::Number(seen(lamp, hot)))
                    }
                } else {
                    let n = transition.moves().value(change.start, change.target, elapsed);
                    if b.property != Property::Text {
                        Some(Held::Number(n))
                    } else {
                        let shown = if change.whole && b.decimals is None {
                            round_of(n)
                        } else {
                            n
                        };
                        Some(
                            Held::Text(worded_by(b, format_text(b.format, shown, b.decimals))),
                        )
                    }
                }
            } else {
                None
            },
        }
    }

    /// What a binding gives its property now, if anything.
    pub open spec fn bound(self, site: SiteKey, b: Binding) -> Option<Held> {
        match self.in_transition(site, b) {
            Some(v) => Some(v),
            None => match self.binding_value(site, b) {
                Some(value) => self.convert(b, value),
                None => None,
            },
        }
    }

    /// A property's value through the first `n` bindings of its layer.
    pub open spec fn bound_through(
        self,
        root: Root,
        path: Seq<usize>,
        layer: Layer,
        prop: Property,
        n: nat,
        init: Held,
    ) -> Held
        decreases n,
    {
        if n == 0 || n > layer.bindings@.len() {
            init
        } else {
            let before = self.bound_through(root, path, layer, prop, (n - 1) as nat, init);
            let b = layer.bindings@[n - 1];
            if b.property == prop {
                match self.bound(SiteKey { root, path, index: (n - 1) as usize }, b) {
                    Some(v) => v,
                    None => before,
                }
            } else {
                before
            }
        }
    }

    /// A property's value through the first `n` playheads that are held or not.
    pub open spec fn played_through(
        self,
        root: Root,
        path: Seq<usize>,
        layer: Layer,
        prop: Property,
        held: bool,
        n: nat,
        init: Held,
    ) -> Held
        decreases n,
    {
        if n == 0 || n > self.playing.len() {
            init
        } else {
            let before = self.played_through(root, path, layer, prop, held, (n - 1) as nat, init);
            let p = self.playing[n - 1];
            if p.held == held && p.owner == OwnerKey::Layer(root, path) && p.timeline
                < layer.timelines@.len() {
                let tl = layer.timelines@[p.timeline as int];
                match crate::model::local_of(
                    tl.length(),
                    tl.repeat,
                    p.elapsed(self.time, timeline_pace(tl)),
                ) {
                    Some(time) => track_value(tl.tracks@, prop, time, tl.tracks@.len(), before),
                    None => before,
                }
            } else {
                before
            }
        }
    }

    /// A layer property: its authored value, overridden by bindings (eased by their
    /// transitions), overridden by a running timeline, for numbers.
    #[verifier::opaque]
    pub open spec fn resolve(self, root: Root, path: Seq<usize>, layer: Layer, prop: Property) -> Option<
        Held,
    > {
        match layer.authored(prop) {
            None => None,
            Some(base) => {
                let bound = self.bound_through(
                    root,
                    path,
                    layer,
                    prop,
                    layer.bindings@.len(),
                    base,
                );
                if !prop.numeric() {
                    Some(bound)
                } else {
                    let n = self.playing.len();
                    let held = self.played_through(root, path, layer, prop, true, n, bound);
                    Some(self.played_through(root, path, layer, prop, false, n, held))
                }
            },
        }
    }

    pub open spec fn number(self, root: Root, path: Seq<usize>, layer: Layer, prop: Property) -> Num {
        match self.resolve(root, path, layer, prop) {
            Some(v) => v.number(),
            None => num(0),
        }
    }

    pub open spec fn text(self, root: Root, path: Seq<usize>, layer: Layer, prop: Property) -> Seq<
        char,
    > {
        match self.resolve(root, path, layer, prop) {
            Some(v) => v.text(),
            None => Seq::empty(),
        }
    }

    /// Whether a layer shows and sounds: its `visible`, as bound.
    pub open spec fn visible(self, root: Root, path: Seq<usize>, layer: Layer) -> bool {
        match self.resolve(root, path, layer, Property::Visible) {
            Some(Held::Bool(on)) => on,
            Some(Held::Number(n)) => !equal(n, num(0)),
            Some(Held::Text(t)) => t.len() != 0,
            None => layer.visible,
        }
    }

    /// What the first `n` bindings have pointed a layer at.
    pub open spec fn pointed_through(
        self,
        root: Root,
        path: Seq<usize>,
        layer: Layer,
        n: nat,
    ) -> Option<Seq<char>>
        decreases n,
    {
        if n == 0 || n > layer.bindings@.len() {
            None
        } else {
            let before = self.pointed_through(root, path, layer, (n - 1) as nat);
            let b = layer.bindings@[n - 1];
            if b.property == Property::Video || b.property == Property::Sound {
                match self.bound(SiteKey { root, path, index: (n - 1) as usize }, b) {
                    Some(v) => Some(v.text()),
                    None => before,
                }
            } else {
                before
            }
        }
    }

    /// What a binding has pointed a layer at, if one has.
    #[verifier::opaque]
    pub open spec fn pointed_at(self, root: Root, path: Seq<usize>, layer: Layer) -> Option<
        Seq<char>,
    > {
        self.pointed_through(root, path, layer, layer.bindings@.len())
    }
}

/// A value through the first `n` tracks of a timeline at a time within it.
pub open spec fn track_value(tracks: Seq<Track>, prop: Property, time: Num, n: nat, init: Held) -> Held
    decreases n,
{
    if n == 0 || n > tracks.len() {
        init
    } else {
        let before = track_value(tracks, prop, time, (n - 1) as nat, init);
        let track = tracks[n - 1];
        if track.property == prop {
            match sampled(track.keys@, time) {
                Some(v) => Held::Number(v),
                None => before,
            }
        } else {
            before
        }
    }
}

/// Without bindings and timelines a property is what its layer was authored with.
pub proof fn lemma_authored_stands(
    s: State,
    root: Root,
    path: Seq<usize>,
    layer: Layer,
    prop: Property,
)
    requires
        layer.bindings@.len() == 0,
        layer.timelines@.len() == 0,
    ensures
        s.resolve(root, path, layer, prop) == layer.authored(prop),
{
    reveal(State::resolve);
    if layer.authored(prop) is Some {
        let base = layer.authored(prop)->0;
        lemma_nothing_played(s, root, path, layer, prop, true, s.playing.len(), base);
        lemma_nothing_played(s, root, path, layer, prop, false, s.playing.len(), base);
    }
}

proof fn lemma_track_sets(tracks: Seq<Track>, prop: Property, time: Num, n: nat, i: int, a: Held, b: Held)
    requires
        0 <= i < n <= tracks.len(),
        tracks[i].property == prop,
        sampled(tracks[i].keys@, time) is Some,
    ensures
        track_value(tracks, prop, time, n, a) == track_value(tracks, prop, time, n, b),
    decreases n,
{
    if i < n - 1 {
        lemma_track_sets(tracks, prop, time, (n - 1) as nat, i, a, b);
    }
}

proof fn lemma_played_alike(
    s: State,
    root: Root,
    path: Seq<usize>,
    a: Layer,
    b: Layer,
    prop: Property,
    held: bool,
    n: nat,
    init: Held,
)
    requires
        a.timelines@ == b.timelines@,
    ensures
        s.played_through(root, path, a, prop, held, n, init) == s.played_through(
            root,
            path,
            b,
            prop,
            held,
            n,
            init,
        ),
    decreases n,
{
    if n > 0 && n <= s.playing.len() {
        lemma_played_alike(s, root, path, a, b, prop, held, (n - 1) as nat, init);
    }
}

/// Whether a running timeline of a layer animates a property now: playhead `k`, track `i`.
pub open spec fn animates(
    s: State,
    root: Root,
    path: Seq<usize>,
    layer: Layer,
    prop: Property,
    k: int,
    i: int,
) -> bool {
    &&& 0 <= k < s.playing.len()
    &&& !s.playing[k].held
    &&& s.playing[k].owner == OwnerKey::Layer(root, path)
    &&& s.playing[k].timeline < layer.timelines@.len()
    &&& {
        let tl = layer.timelines@[s.playing[k].timeline as int];
        &&& 0 <= i < tl.tracks@.len()
        &&& tl.tracks@[i].property == prop
        &&& crate::model::local_of(
            tl.length(),
            tl.repeat,
            s.playing[k].elapsed(s.time, timeline_pace(tl)),
        ) matches Some(time) && sampled(tl.tracks@[i].keys@, time) is Some
    }
}

proof fn lemma_playing_sets(
    s: State,
    root: Root,
    path: Seq<usize>,
    layer: Layer,
    prop: Property,
    k: int,
    i: int,
    n: nat,
    a: Held,
    b: Held,
)
    requires
        animates(s, root, path, layer, prop, k, i),
        k < n <= s.playing.len(),
    ensures
        s.played_through(root, path, layer, prop, false, n, a) == s.played_through(
            root,
            path,
            layer,
            prop,
            false,
            n,
            b,
        ),
    decreases n,
{
    if k < n - 1 {
        lemma_playing_sets(s, root, path, layer, prop, k, i, (n - 1) as nat, a, b);
    } else {
        let tl = layer.timelines@[s.playing[k].timeline as int];
        let time = crate::model::local_of(
            tl.length(),
            tl.repeat,
            s.playing[k].elapsed(s.time, timeline_pace(tl)),
        )->0;
        lemma_track_sets(
            tl.tracks@,
            prop,
            time,
            tl.tracks@.len(),
            i,
            s.played_through(root, path, layer, prop, false, (n - 1) as nat, a),
            s.played_through(root, path, layer, prop, false, (n - 1) as nat, b),
        );
    }
}

/// A running timeline is the strongest: a property it animates does not depend on what its
/// layer was authored with, on its bindings, or on timelines that only hold their values.
pub proof fn lemma_timeline_wins(
    s: State,
    root: Root,
    path: Seq<usize>,
    layer: Layer,
    other: Layer,
    prop: Property,
    k: int,
    i: int,
)
    requires
        prop.numeric(),
        animates(s, root, path, layer, prop, k, i),
        other.timelines@ == layer.timelines@,
        layer.authored(prop) is Some,
        other.authored(prop) is Some,
    ensures
        s.resolve(root, path, layer, prop) == s.resolve(root, path, other, prop),
{
    reveal(State::resolve);
    let n = s.playing.len();
    let a = s.bound_through(
        root,
        path,
        layer,
        prop,
        layer.bindings@.len(),
        layer.authored(prop)->0,
    );
    let b = s.bound_through(
        root,
        path,
        other,
        prop,
        other.bindings@.len(),
        other.authored(prop)->0,
    );
    let ha = s.played_through(root, path, layer, prop, true, n, a);
    let hb = s.played_through(root, path, other, prop, true, n, b);
    lemma_playing_sets(s, root, path, layer, prop, k, i, n, ha, hb);
    lemma_played_alike(s, root, path, layer, other, prop, false, n, hb);
}

proof fn lemma_bound_stays(
    s: State,
    root: Root,
    path: Seq<usize>,
    layer: Layer,
    prop: Property,
    i: int,
    n: nat,
    v: Held,
    init: Held,
)
    requires
        0 <= i < n <= layer.bindings@.len() <= usize::MAX,
        layer.bindings@[i].property == prop,
        s.bound(SiteKey { root, path, index: i as usize }, layer.bindings@[i]) == Some(v),
        forall|j: int|
            i < j < n && (#[trigger] layer.bindings@[j]).property == prop ==> s.bound(
                SiteKey { root, path, index: j as usize },
                layer.bindings@[j],
            ) is None,
    ensures
        s.bound_through(root, path, layer, prop, n, init) == v,
    decreases n,
{
    if i < n - 1 {
        lemma_bound_stays(s, root, path, layer, prop, i, (n - 1) as nat, v, init);
        assert(layer.bindings@[n - 1].property == prop ==> s.bound(
            SiteKey { root, path, index: (n - 1) as usize },
            layer.bindings@[n - 1],
        ) is None);
    }
}

/// A binding is stronger than what the layer was authored with: without timelines a property
/// is what its last binding with a value gives.
pub proof fn lemma_binding_wins(
    s: State,
    root: Root,
    path: Seq<usize>,
    layer: Layer,
    prop: Property,
    i: int,
    v: Held,
)
    requires
        layer.timelines@.len() == 0,
        layer.authored(prop) is Some,
        0 <= i < layer.bindings@.len() <= usize::MAX,
        layer.bindings@[i].property == prop,
        s.bound(SiteKey { root, path, index: i as usize }, layer.bindings@[i]) == Some(v),
        forall|j: int|
            i < j < layer.bindings@.len() && (#[trigger] layer.bindings@[j]).property == prop
                ==> s.bound(
                SiteKey { root, path, index: j as usize },
                layer.bindings@[j],
            ) is None,
    ensures
        s.resolve(root, path, layer, prop) == Some(v),
{
    reveal(State::resolve);
    let base = layer.authored(prop)->0;
    lemma_bound_stays(s, root, path, layer, prop, i, layer.bindings@.len(), v, base);
    lemma_nothing_played(s, root, path, layer, prop, true, s.playing.len(), v);
    lemma_nothing_played(s, root, path, layer, prop, false, s.playing.len(), v);
}

proof fn lemma_nothing_played(
    s: State,
    root: Root,
    path: Seq<usize>,
    layer: Layer,
    prop: Property,
    held: bool,
    n: nat,
    init: Held,
)
    requires
        layer.timelines@.len() == 0,
    ensures
        s.played_through(root, path, layer, prop, held, n, init) == init,
    decreases n,
{
    if n > 0 && n <= s.playing.len() {
        lemma_nothing_played(s, root, path, layer, prop, held, (n - 1) as nat, init);
    }
}

impl Engine {
    /// Push a named value from the host. Unknown names are accepted.
    pub fn set_variable(&mut self, name: &str, value: Value)
        ensures
            final(self)@ == (State {
                variables: crate::names::inserted(old(self)@.variables, name@, value@),
                ..old(self)@
            }),
    {
        self.variables.insert(owned(name), value);
    }

    /// The host's variable of that name.
    pub fn variable(&self, name: &str) -> (r: Option<&Value>)
        ensures
            match r {
                Some(v) => lookup(self@.variables, name@) == Some(v@),
                None => lookup(self@.variables, name@) is None,
            },
    {
        self.variables.get(name)
    }

    fn value_scan(&self, value: &ShowValue, name: &str, held: bool, init: Option<Num>) -> (r: Option<
        Num,
    >)
        ensures
            r == self@.value_through(*value, name@, held, self@.playing.len(), init),
    {
        let mut out = init;
        let mut i: usize = 0;
        while i < self.playing.len()
            invariant
                i <= self.playing.len(),
                out == self@.value_through(*value, name@, held, i as nat, init),
            decreases self.playing.len() - i,
        {
            let p = &self.playing[i];
            assert(self@.playing[i as int] == p@);
            let mine = match &p.owner {
                Owner::Value(v) => crate::text::same_text(v.as_str(), name),
                _ => false,
            };
            if p.held == held && mine && p.timeline < value.timelines.len() {
                let tl = &value.timelines[p.timeline];
                let timing = timing_of_value(tl);
                if let Some(v) = tl.at(p.at(self.time, &timing)) {
                    out = Some(v);
                }
            }
            i = i + 1;
        }
        out
    }

    /// The number a show value stands at now.
    pub(crate) fn show_value(&self, name: &str) -> (r: Option<Num>)
        ensures
            r == self@.show_value(name@),
    {
        match &self.show {
            Some(show) => match show.values.get(name) {
                Some(value) => {
                    let held = self.value_scan(value, name, true, None);
                    self.value_scan(value, name, false, held)
                },
                None => None,
            },
            None => None,
        }
    }

    /// What `name` reads as now: the host's variable of that name, or failing that the show's
    /// own value of it.
    pub fn value(&self, name: &str) -> (r: Option<Value>)
        ensures
            match r {
                Some(v) => self@.value(name@) == Some(v@),
                None => self@.value(name@) is None,
            },
    {
        match self.variables.get(name) {
            Some(v) => Some(v.copy()),
            None => match self.show_value(name) {
                Some(n) => Some(Value::Number(n)),
                None => None,
            },
        }
    }

    /// Whether a condition reads as true right now.
    pub(crate) fn holds(&self, when: &When) -> (r: bool)
        ensures
            r == self@.holds(*when),
    {
        match self.variables.get(when.variable.as_str()) {
            None => false,
            Some(value) => match map_value(&when.map, &when.default, value.copy()) {
                None => false,
                Some(v) => match when.threshold {
                    Some(level) => level.le(v.as_number()),
                    None => !v.as_number().same(num(0)),
                },
            },
        }
    }

    pub(crate) fn binding_value(&self, site: &Site, b: &Binding) -> (r: Option<Value>)
        ensures
            match r {
                Some(v) => self@.binding_value(site@, *b) == Some(v@),
                None => self@.binding_value(site@, *b) is None,
            },
    {
        let input = match (b.debounce, self.debounced.get(site)) {
            (Some(_), Some(settling)) => Some(settling.settled.copy()),
            _ => self.value(b.variable.as_str()),
        };
        match input {
            Some(v) => map_value(&b.map, &b.default, v),
            None => None,
        }
    }

    pub(crate) fn binding_number(&self, site: &Site, b: &Binding) -> (r: Option<Num>)
        ensures
            r == self@.binding_number(site@, *b),
    {
        let modelled = match &b.transition {
            Some(t) => t.model.is_some(),
            None => false,
        };
        match self.binding_value(site, b) {
            None => None,
            Some(value) => match b.property {
                Property::Tint => {
                    if modelled {
                        Some(scaled(b, value.as_number()))
                    } else {
                        None
                    }
                },
                Property::Font => None,
                Property::Text => match value {
                    Value::Number(n) => Some(scaled(b, n)),
                    _ => None,
                },
                _ => Some(scaled(b, value.as_number())),
            },
        }
    }

    pub(crate) fn convert(&self, b: &Binding, value: Value) -> (r: Option<Value>)
        ensures
            match r {
                Some(v) => self@.convert(*b, value@) == Some(v@),
                None => self@.convert(*b, value@) is None,
            },
    {
        match b.property {
            Property::Text => {
                let text = match value {
                    Value::Number(n) => b.format.format(scaled(b, n), b.decimals),
                    other => other.to_text(),
                };
                Some(Value::Text(worded(b, text)))
            },
            Property::Visible => Some(Value::Bool(!scaled(b, value.as_number()).same(num(0)))),
            Property::Tint => match value {
                Value::Text(color) => {
                    if color.as_str().unicode_len() == 0 || parse_color(
                        color.as_str(),
                    ).is_some() {
                        Some(Value::Text(color))
                    } else {
                        None
                    }
                },
                _ => None,
            },
            Property::Video => Some(Value::Text(value.to_text())),
            Property::Sound => Some(Value::Text(value.to_text())),
            Property::Font => match (value, &self.show) {
                (Value::Text(style), Some(show)) => {
                    if show.fonts.contains(style.as_str()) {
                        Some(Value::Text(style))
                    } else {
                        None
                    }
                },
                _ => None,
            },
            _ => Some(Value::Number(scaled(b, value.as_number()))),
        }
    }

    pub(crate) fn in_transition(&self, site: &Site, b: &Binding) -> (r: Option<Value>)
        ensures
            match r {
                Some(v) => self@.in_transition(site@, *b) == Some(v@),
                None => self@.in_transition(site@, *b) is None,
            },
    {
        let transition = match &b.transition {
            Some(t) => t,
            None => {
                return None;
            },
        };
        if b.property == Property::Tint && transition.model.is_none() {
            return match self.color_transitions.get(site) {
                Some(change) => {
                    let progress = transition.value_at(
                        num(0),
                        num(ONE),
                        self.time.minus(change.started),
                    );
                    Some(Value::Text(color_text(change.value_at(progress))))
                },
                None => None,
            };
        }
        let change = match self.transitions.get(site) {
            Some(change) => *change,
            None => {
                return None;
            },
        };
        let elapsed = self.time.minus(change.started);
        if transition.model.is_some() {
            let filament = Filament::of(transition);
            let hot = lamp::temperature(filament, change.start, change.target, elapsed);
            // The same filament, read two ways: how much light it gives, or what color that
            // light is.
            return if b.property == Property::Tint {
                let c = lamp::color(hot);
                Some(Value::Text(color_text([c[0], c[1], c[2], 255])))
            } else {
                Some(Value::Number(lamp::shown(filament, hot)))
            };
        }
        let mut n = transition.value_at(change.start, change.target, elapsed);
        if b.property != Property::Text {
            return Some(Value::Number(n));
        }
        // A counter between whole numbers shows whole numbers.
        if change.whole && b.decimals.is_none() {
            n = n.round();
        }
        Some(Value::Text(worded(b, b.format.format(n, b.decimals))))
    }

    pub(crate) fn bound(&self, site: &Site, b: &Binding) -> (r: Option<Value>)
        ensures
            match r {
                Some(v) => self@.bound(site@, *b) == Some(v@),
                None => self@.bound(site@, *b) is None,
            },
    {
        match self.in_transition(site, b) {
            Some(v) => Some(v),
            None => match self.binding_value(site, b) {
                Some(value) => self.convert(b, value),
                None => None,
            },
        }
    }

    fn played(
        &self,
        root: Root,
        layer: &Layer,
        path: &Vec<usize>,
        prop: Property,
        held: bool,
        init: Value,
    ) -> (r: Value)
        ensures
            r@ == self@.played_through(
                root,
                path@,
                *layer,
                prop,
                held,
                self@.playing.len(),
                init@,
            ),
    {
        let mut v = init;
        let mut i: usize = 0;
        while i < self.playing.len()
            invariant
                i <= self.playing.len(),
                v@ == self@.played_through(root, path@, *layer, prop, held, i as nat, init@),
            decreases self.playing.len() - i,
        {
            let p = &self.playing[i];
            assert(self@.playing[i as int] == p@);
            if p.held == held && p.owner.is_layer(root, path) && p.timeline < layer.timelines.len() {
                let tl = &layer.timelines[p.timeline];
                let timing = timing_of(tl);
                if let Some(time) = tl.local_time(p.at(self.time, &timing)) {
                    let ghost before = v@;
                    let mut k: usize = 0;
                    while k < tl.tracks.len()
                        invariant
                            k <= tl.tracks.len(),
                            v@ == track_value(tl.tracks@, prop, time, k as nat, before),
                        decreases tl.tracks.len() - k,
                    {
                        let track = &tl.tracks[k];
                        if track.property == prop {
                            if let Some(sample) = track.sample(time) {
                                v = Value::Number(sample);
                            }
                        }
                        k = k + 1;
                    }
                }
            }
            i = i + 1;
        }
        v
    }

    /// Resolve a layer property: its base value, overridden by bindings (eased by their
    /// transitions), overridden by a running timeline (numeric properties only). `None` when
    /// this kind of layer does not have the property.
    pub(crate) fn resolve(&self, root: Root, layer: &Layer, path: &Vec<usize>, prop: Property) -> (r:
        Option<Value>)
        ensures
            match r {
                Some(v) => self@.resolve(root, path@, *layer, prop) == Some(v@),
                None => self@.resolve(root, path@, *layer, prop) is None,
            },
    {
        proof {
            reveal(State::resolve);
        }
        let base = match layer.base_value(prop) {
            Some(v) => v,
            None => {
                return None;
            },
        };
        let ghost start = base@;
        let mut v = base;
        let mut i: usize = 0;
        while i < layer.bindings.len()
            invariant
                i <= layer.bindings.len(),
                v@ == self@.bound_through(root, path@, *layer, prop, i as nat, start),
            decreases layer.bindings.len() - i,
        {
            let b = &layer.bindings[i];
            if b.property == prop {
                let site = Site { root, path: copy_path(path), index: i };
                if let Some(value) = self.bound(&site, b) {
                    v = value;
                }
            }
            i = i + 1;
        }
        if !prop.is_numeric() {
            return Some(v);
        }
        // A running timeline owns the property, over one that has finished and is holding
        // its last value.
        let held = self.played(root, layer, path, prop, true, v);
        Some(self.played(root, layer, path, prop, false, held))
    }

    pub(crate) fn number(&self, root: Root, layer: &Layer, path: &Vec<usize>, prop: Property) -> (r: Num)
        ensures
            r == self@.number(root, path@, *layer, prop),
    {
        match self.resolve(root, layer, path, prop) {
            Some(v) => v.as_number(),
            None => num(0),
        }
    }

    pub(crate) fn text(&self, root: Root, layer: &Layer, path: &Vec<usize>, prop: Property) -> (r:
        String)
        ensures
            r@ == self@.text(root, path@, *layer, prop),
    {
        match self.resolve(root, layer, path, prop) {
            Some(v) => v.to_text(),
            None => String::new(),
        }
    }

    /// Whether the layer at `path` shows and sounds: its `visible`, as bound.
    pub(crate) fn is_visible(&self, root: Root, layer: &Layer, path: &Vec<usize>) -> (r: bool)
        ensures
            r == self@.visible(root, path@, *layer),
    {
        match self.resolve(root, layer, path, Property::Visible) {
            Some(Value::Bool(on)) => on,
            Some(Value::Number(n)) => !n.same(num(0)),
            Some(Value::Text(t)) => t.as_str().unicode_len() != 0,
            None => layer.visible,
        }
    }

    /// What a binding has pointed this layer at, if one has.
    pub(crate) fn pointed_at(&self, root: Root, layer: &Layer, path: &Vec<usize>) -> (r: Option<
        String,
    >)
        ensures
            match r {
                Some(name) => self@.pointed_at(root, path@, *layer) == Some(name@),
                None => self@.pointed_at(root, path@, *layer) is None,
            },
    {
        proof {
            reveal(State::pointed_at);
        }
        let mut pointed: Option<String> = None;
        let mut i: usize = 0;
        while i < layer.bindings.len()
            invariant
                i <= layer.bindings.len(),
                match pointed {
                    Some(name) => self@.pointed_through(root, path@, *layer, i as nat) == Some(
                        name@,
                    ),
                    None => self@.pointed_through(root, path@, *layer, i as nat) is None,
                },
            decreases layer.bindings.len() - i,
        {
            let b = &layer.bindings[i];
            if b.property == Property::Video || b.property == Property::Sound {
                let site = Site { root, path: copy_path(path), index: i };
                if let Some(value) = self.bound(&site, b) {
                    pointed = Some(value.to_text());
                }
            }
            i = i + 1;
        }
        pointed
    }
}

} // verus!
