//! What should be heard and seen now: voices, videos, and every property's value.

use crate::follow::{bus_of, effective_bus};
use crate::model::{Layer, LayerKind, MediaInfo, Property};
use crate::names::lookup;
use crate::num::{less, max_of, num, opposite_of, product_of, remainder_of, sum_of, Num};
use crate::sites::{layer_site, Site};
use crate::state::{Engine, Error, Play, Problem, State};
use crate::text::{decimal, decimal_of, lemma_decimal_digits, lemma_decimal_one_to_one, owned};
use crate::tree::{layer_nodes, node_views, nodes, root_layers, rooted, Root};
use crate::value::{Held, Value};
use crate::waves::ONE;
use vstd::prelude::*;

verus! {

/// A sound that should be heard now, as [`Engine::voices`] reports it. Plain data, so a
/// backend can be fed and tested without an engine.
#[derive(Debug, PartialEq)]
pub struct Voice {
    /// Identifies one play for as long as it lasts; never reused within an engine.
    pub id: u64,
    /// Name of the audio layer.
    pub layer: String,
    /// The sound, as registered with [`Engine::set_sound`].
    pub sound: String,
    /// Seconds into the sound, wrapped for loops and repeats.
    pub position: Num,
    /// Effective loudness: the layer's gain times every group's above it.
    pub gain: Num,
    /// Whether the sound plays on from its end.
    pub looping: bool,
    /// The bus the layer is on.
    pub bus: Option<String>,
}

/// A [`Voice`], by value.
pub ghost struct Heard {
    pub id: u64,
    pub layer: Seq<char>,
    pub sound: Seq<char>,
    pub position: Num,
    pub gain: Num,
    pub looping: bool,
    pub bus: Option<Seq<char>>,
}

impl View for Voice {
    type V = Heard;

    open spec fn view(&self) -> Heard {
        Heard {
            id: self.id,
            layer: self.layer@,
            sound: self.sound@,
            position: self.position,
            gain: self.gain,
            looping: self.looping,
            bus: match self.bus {
                Some(b) => Some(b@),
                None => None,
            },
        }
    }
}

/// A video that should be showing now, as [`Engine::videos`] reports it. A host decodes to
/// `position` and hands the frame back with [`Engine::set_image`] under `frame`.
#[derive(Debug, PartialEq)]
pub struct Playing {
    /// Identifies one play for as long as it lasts; never reused.
    pub id: u64,
    /// Name of the video layer.
    pub layer: String,
    /// The video, as registered with [`Engine::set_video`].
    pub video: String,
    /// The name to hand this play's picture over under. One per video layer, not per clip.
    pub frame: String,
    /// Seconds into the video, wrapped for loops and repeats.
    pub position: Num,
    /// Whether it plays on from its end.
    pub looping: bool,
}

/// A [`Playing`], by value.
pub ghost struct Watched {
    pub id: u64,
    pub layer: Seq<char>,
    pub video: Seq<char>,
    pub frame: Seq<char>,
    pub position: Num,
    pub looping: bool,
}

impl View for Playing {
    type V = Watched;

    open spec fn view(&self) -> Watched {
        Watched {
            id: self.id,
            layer: self.layer@,
            video: self.video@,
            frame: self.frame@,
            position: self.position,
            looping: self.looping,
        }
    }
}

/// The steps of a path as text.
pub open spec fn path_text(path: Seq<usize>) -> Seq<char>
    decreases path.len(),
{
    if path.len() == 0 {
        Seq::empty()
    } else {
        path_text(path.drop_last()) + "/"@ + decimal(path.last() as nat)
    }
}

/// The name one video layer's picture is registered under.
pub open spec fn frame_name(root: Root, path: Seq<usize>) -> Seq<char> {
    (match root {
        Root::Show => "video show"@,
        Root::Scene(i) => "video scene "@ + decimal(i as nat),
    }) + path_text(path)
}

/// The name one video layer's picture is registered under: a layer, not a clip, as a clip
/// playing on two layers is at two positions at once.
pub fn frame_key(root: Root, path: &[usize]) -> (r: String)
    ensures
        r@ == frame_name(root, path@),
{
    let mut key = match root {
        Root::Show => owned("video show"),
        Root::Scene(i) => {
            let mut k = owned("video scene ");
            k.append(decimal_of(i as u64).as_str());
            k
        },
    };
    let ghost head = key@;
    let mut i: usize = 0;
    assert(head + path_text(path@.take(0)) =~= head);
    while i < path.len()
        invariant
            i <= path.len(),
            key@ == head + path_text(path@.take(i as int)),
        decreases path.len() - i,
    {
        assert(path@.take(i as int + 1).drop_last() =~= path@.take(i as int));
        key.append("/");
        key.append(decimal_of(path[i] as u64).as_str());
        i = i + 1;
        assert(key@ =~= head + path_text(path@.take(i as int)));
    }
    assert(path@.take(i as int) =~= path@);
    key
}

pub open spec fn voice_views(list: Seq<Voice>) -> Seq<Heard> {
    list.map_values(|v: Voice| v@)
}

pub open spec fn playing_views(list: Seq<Playing>) -> Seq<Watched> {
    list.map_values(|p: Playing| p@)
}

/// Where a play of some length stands after `elapsed` seconds.
pub open spec fn position_of(media: MediaInfo, elapsed: Num, duration: Num) -> Num {
    if media.looping || media.repeat is Some {
        remainder_of(elapsed, duration)
    } else {
        elapsed
    }
}

impl State {
    /// Seconds since a play's delay ended.
    pub open spec fn since(self, play: Play, media: MediaInfo) -> Num {
        sum_of(
            sum_of(self.time, opposite_of(play.started)),
            opposite_of(media.wait()),
        )
    }

    /// How long the sound of a play is, where it can be heard: an audio layer's sound, or a
    /// video's length where the host registered a sound under its name.
    pub open spec fn audible(self, layer: Layer, playing: Seq<char>) -> Option<Num> {
        match layer.kind {
            LayerKind::Audio { .. } => lookup(self.sounds, playing),
            _ => match (lookup(self.sounds, playing), lookup(self.videos, playing)) {
                (Some(_), Some(info)) => if less(num(0), info.duration) {
                    Some(info.duration)
                } else {
                    None
                },
                _ => None,
            },
        }
    }

    /// What is heard of the first `n` plays of a layer.
    pub open spec fn heard_plays(
        self,
        root: Root,
        path: Seq<usize>,
        layer: Layer,
        media: MediaInfo,
        gain: Num,
        bus: Seq<char>,
        n: nat,
    ) -> Seq<Heard>
        decreases n,
    {
        if n == 0 || n > self.sounding.len() {
            Seq::empty()
        } else {
            let before = self.heard_plays(root, path, layer, media, gain, bus, (n - 1) as nat);
            let play = self.sounding[n - 1];
            let elapsed = self.since(play, media);
            match self.audible(layer, play.playing) {
                Some(duration) => if play.on(root, path) && !less(elapsed, num(0)) {
                    before.push(
                        Heard {
                            id: play.id,
                            layer: layer.name@,
                            sound: play.playing,
                            position: position_of(media, elapsed, duration),
                            gain,
                            looping: media.looping,
                            bus: Some(bus),
                        },
                    )
                } else {
                    before
                },
                None => before,
            }
        }
    }

    /// A layer's own gain below the gains above it; what a layer plays itself, a sound or a
    /// clip's soundtrack, is ducked.
    pub open spec fn loudness(self, root: Root, path: Seq<usize>, layer: Layer, chain: Num) -> Num {
        let own = product_of(
            chain,
            max_of(self.number(root, path, layer, Property::Gain), num(0)),
        );
        match layer.kind {
            LayerKind::Audio { .. } | LayerKind::Video { .. } => product_of(
                own,
                self.duck_level(layer_site(root, path), self.time),
            ),
            _ => own,
        }
    }

    /// What is heard of some layers, below a gain.
    pub open spec fn heard(self, root: Root, layers: Seq<Layer>, prefix: Seq<usize>, chain: Num) -> Seq<
        Heard,
    >
        decreases layers,
    {
        if layers.len() == 0 {
            Seq::empty()
        } else {
            let path = prefix.push((layers.len() - 1) as usize);
            self.heard(root, layers.drop_last(), prefix, chain) + self.heard_layer(
                root,
                layers.last(),
                path,
                chain,
            )
        }
    }

    pub open spec fn heard_layer(self, root: Root, layer: Layer, path: Seq<usize>, chain: Num) -> Seq<
        Heard,
    >
        decreases layer,
    {
        if !self.visible(root, path, layer) {
            Seq::empty()
        } else {
            let gain = self.loudness(root, path, layer, chain);
            match layer.kind {
                LayerKind::Group { children, .. } => self.heard(root, children@, path, gain),
                LayerKind::Audio { bus, .. } => self.heard_plays(
                    root,
                    path,
                    layer,
                    layer.kind.playhead()->0,
                    gain,
                    bus_of(bus),
                    self.sounding.len(),
                ),
                LayerKind::Video { bus, .. } => self.heard_plays(
                    root,
                    path,
                    layer,
                    layer.kind.playhead()->0,
                    gain,
                    bus_of(bus),
                    self.sounding.len(),
                ),
                _ => Seq::empty(),
            }
        }
    }

    /// What should be heard now, in tree order.
    pub open spec fn voices(self) -> Option<Seq<Heard>> {
        match self.show {
            None => None,
            Some(show) => {
                let own = self.heard(Root::Show, show.layers@, Seq::empty(), num(ONE));
                match self.active_scene {
                    Some(scene) => match rooted(show, Root::Scene(scene)) {
                        Some(layers) => Some(
                            own + self.heard(
                                Root::Scene(scene),
                                layers,
                                Seq::empty(),
                                num(ONE),
                            ),
                        ),
                        None => Some(own),
                    },
                    None => Some(own),
                }
            },
        }
    }

    /// What shows of the first `n` plays of a video layer.
    pub open spec fn watched_plays(
        self,
        root: Root,
        path: Seq<usize>,
        layer: Layer,
        media: MediaInfo,
        n: nat,
    ) -> Seq<Watched>
        decreases n,
    {
        if n == 0 || n > self.sounding.len() {
            Seq::empty()
        } else {
            let before = self.watched_plays(root, path, layer, media, (n - 1) as nat);
            let play = self.sounding[n - 1];
            let elapsed = self.since(play, media);
            match lookup(self.videos, play.playing) {
                Some(info) => if play.on(root, path) && !less(elapsed, num(0)) {
                    before.push(
                        Watched {
                            id: play.id,
                            layer: layer.name@,
                            video: play.playing,
                            frame: frame_name(root, path),
                            position: position_of(media, elapsed, info.duration),
                            looping: media.looping,
                        },
                    )
                } else {
                    before
                },
                None => before,
            }
        }
    }

    pub open spec fn watched(self, root: Root, layers: Seq<Layer>, prefix: Seq<usize>) -> Seq<
        Watched,
    >
        decreases layers,
    {
        if layers.len() == 0 {
            Seq::empty()
        } else {
            let path = prefix.push((layers.len() - 1) as usize);
            self.watched(root, layers.drop_last(), prefix) + self.watched_layer(
                root,
                layers.last(),
                path,
            )
        }
    }

    pub open spec fn watched_layer(self, root: Root, layer: Layer, path: Seq<usize>) -> Seq<Watched>
        decreases layer,
    {
        if !self.visible(root, path, layer) {
            Seq::empty()
        } else {
            match layer.kind {
                LayerKind::Group { children, .. } => self.watched(root, children@, path),
                LayerKind::Video { .. } => self.watched_plays(
                    root,
                    path,
                    layer,
                    layer.kind.playhead()->0,
                    self.sounding.len(),
                ),
                _ => Seq::empty(),
            }
        }
    }

    /// What should be showing now, in tree order.
    pub open spec fn watching(self) -> Option<Seq<Watched>> {
        match self.show {
            None => None,
            Some(show) => {
                let own = self.watched(Root::Show, show.layers@, Seq::empty());
                match self.active_scene {
                    Some(scene) => match rooted(show, Root::Scene(scene)) {
                        Some(layers) => Some(
                            own + self.watched(Root::Scene(scene), layers, Seq::empty()),
                        ),
                        None => Some(own),
                    },
                    None => Some(own),
                }
            },
        }
    }

    /// The first `n` of the listed properties that a layer has.
    pub open spec fn layer_values(
        self,
        root: Root,
        path: Seq<usize>,
        layer: Layer,
        n: nat,
    ) -> Seq<(Seq<char>, Property, Held)>
        decreases n,
    {
        if n == 0 || n > every_property().len() {
            Seq::empty()
        } else {
            let before = self.layer_values(root, path, layer, (n - 1) as nat);
            let prop = every_property()[n - 1];
            match self.resolve(root, path, layer, prop) {
                Some(value) => before.push((layer.name@, prop, value)),
                None => before,
            }
        }
    }

    pub open spec fn node_values(
        self,
        root: Root,
        list: Seq<(Seq<usize>, Layer)>,
        n: nat,
    ) -> Seq<(Seq<char>, Property, Held)>
        decreases n,
    {
        if n == 0 || n > list.len() {
            Seq::empty()
        } else {
            let (path, layer) = list[n - 1];
            self.node_values(root, list, (n - 1) as nat) + self.layer_values(
                root,
                path,
                layer,
                every_property().len(),
            )
        }
    }

    pub open spec fn tree_values(self, root: Root, layers: Seq<Layer>) -> Seq<
        (Seq<char>, Property, Held),
    > {
        let list = nodes(layers, Seq::empty());
        self.node_values(root, list, list.len())
    }

    /// Every property every layer resolves to now.
    pub open spec fn values(self) -> Option<Seq<(Seq<char>, Property, Held)>> {
        match self.show {
            None => None,
            Some(show) => {
                let own = self.tree_values(Root::Show, show.layers@);
                match self.active_scene {
                    Some(scene) => match rooted(show, Root::Scene(scene)) {
                        Some(layers) => Some(own + self.tree_values(Root::Scene(scene), layers)),
                        None => Some(own),
                    },
                    None => Some(own),
                }
            },
        }
    }
}

/// The properties that [`Engine::values`] lists, in order.
pub open spec fn every_property() -> Seq<Property> {
    seq![
        Property::X,
        Property::Y,
        Property::Opacity,
        Property::Scale,
        Property::ScaleX,
        Property::ScaleY,
        Property::Rotation,
        Property::Text,
        Property::Font,
        Property::Video,
        Property::Sound,
        Property::Frame,
        Property::Gain,
        Property::Visible,
        Property::Tint,
        Property::TileX,
        Property::TileY,
    ]
}

fn property_list() -> (r: Vec<Property>)
    ensures
        r@ == every_property(),
{
    let list: Vec<Property> = vec![
        Property::X,
        Property::Y,
        Property::Opacity,
        Property::Scale,
        Property::ScaleX,
        Property::ScaleY,
        Property::Rotation,
        Property::Text,
        Property::Font,
        Property::Video,
        Property::Sound,
        Property::Frame,
        Property::Gain,
        Property::Visible,
        Property::Tint,
        Property::TileX,
        Property::TileY,
    ];
    assert(list@ =~= every_property());
    list
}

pub open spec fn value_views(list: Seq<(String, Property, Value)>) -> Seq<
    (Seq<char>, Property, Held),
> {
    list.map_values(|v: (String, Property, Value)| (v.0@, v.1, v.2@))
}

impl Engine {
    fn hear_plays(
        &self,
        root: Root,
        layer: &Layer,
        path: &Vec<usize>,
        gain: Num,
        bus: &str,
        out: &mut Vec<Voice>,
    )
        requires
            layer.kind.playhead() is Some,
        ensures
            voice_views(final(out)@) == voice_views(old(out)@) + self@.heard_plays(
                root,
                path@,
                *layer,
                layer.kind.playhead()->0,
                gain,
                bus@,
                self@.sounding.len(),
            ),
    {
        let media = match layer.kind.media() {
            Some(media) => media,
            None => {
                return ;
            },
        };
        let ghost before = voice_views(out@);
        let ghost info = layer.kind.playhead()->0;
        let mut i: usize = 0;
        assert(before + Seq::<Heard>::empty() =~= before);
        while i < self.sounding.len()
            invariant
                i <= self.sounding.len(),
                media@ == info,
                voice_views(out@) == before + self@.heard_plays(
                    root,
                    path@,
                    *layer,
                    info,
                    gain,
                    bus@,
                    i as nat,
                ),
            decreases self.sounding.len() - i,
        {
            let play = &self.sounding[i];
            assert(self@.sounding[i as int] == play@);
            let name = play.playing.as_str();
            let length: Option<Num> = match &layer.kind {
                LayerKind::Audio { .. } => match self.sounds.get(name) {
                    Some(n) => Some(*n),
                    None => None,
                },
                // A clip is heard when the host has registered a sound under its name; the
                // picture's own duration governs the position.
                _ => match (self.sounds.get(name), self.videos.get(name)) {
                    (Some(_), Some(info)) => {
                        if num(0).lt(info.duration) {
                            Some(info.duration)
                        } else {
                            None
                        }
                    },
                    _ => None,
                },
            };
            if let Some(duration) = length {
                let elapsed = self.time.minus(play.started).minus(media.wait());
                if play.on(root, path) && !elapsed.lt(num(0)) {
                    let position = if media.looping || media.repeat.is_some() {
                        elapsed.rem(duration)
                    } else {
                        elapsed
                    };
                    let voice = Voice {
                        id: play.id,
                        layer: layer.name.clone(),
                        sound: play.playing.clone(),
                        position,
                        gain,
                        looping: media.looping,
                        bus: Some(owned(bus)),
                    };
                    let ghost here = self@.heard_plays(
                        root,
                        path@,
                        *layer,
                        info,
                        gain,
                        bus@,
                        i as nat,
                    );
                    let ghost was = voice_views(out@);
                    out.push(voice);
                    assert(voice_views(out@) =~= was.push(voice@));
                    assert((before + here).push(voice@) =~= before + here.push(voice@));
                }
            }
            i = i + 1;
        }
    }

    fn hear(&self, root: Root, layers: &[Layer], path: &mut Vec<usize>, chain: Num, out: &mut Vec<
        Voice,
    >)
        ensures
            final(path)@ == old(path)@,
            voice_views(final(out)@) == voice_views(old(out)@) + self@.heard(
                root,
                layers@,
                old(path)@,
                chain,
            ),
        decreases layers@,
    {
        let ghost before = voice_views(out@);
        let ghost prefix = path@;
        let mut i: usize = 0;
        assert(layers@.take(0) =~= Seq::<Layer>::empty());
        assert(before + self@.heard(root, layers@.take(0), prefix, chain) =~= before);
        while i < layers.len()
            invariant
                i <= layers.len(),
                path@ == prefix,
                voice_views(out@) == before + self@.heard(
                    root,
                    layers@.take(i as int),
                    prefix,
                    chain,
                ),
            decreases layers.len() - i,
        {
            let layer = &layers[i];
            path.push(i);
            let ghost here = voice_views(out@);
            proof {
                let upto = layers@.take(i as int + 1);
                assert(upto.drop_last() =~= layers@.take(i as int));
                assert(upto.last() == *layer);
                assert(here + Seq::<Heard>::empty() =~= here);
            }
            if self.is_visible(root, layer, path) {
                match &layer.kind {
                    LayerKind::Group { children, .. } => {
                        let gain = chain.times(
                            self.number(root, layer, path, Property::Gain).max(num(0)),
                        );
                        self.hear(root, children.as_slice(), path, gain, out);
                    },
                    LayerKind::Audio { bus, .. } => {
                        // The duck multiplies like every other gain.
                        let site = Site::of_layer(root, path);
                        let gain = chain.times(
                            self.number(root, layer, path, Property::Gain).max(num(0)),
                        ).times(self.duck_level_at(&site, self.time));
                        self.hear_plays(root, layer, path, gain, effective_bus(bus), out);
                    },
                    LayerKind::Video { bus, .. } => {
                        // A clip's soundtrack steps back like a sound.
                        let site = Site::of_layer(root, path);
                        let gain = chain.times(
                            self.number(root, layer, path, Property::Gain).max(num(0)),
                        ).times(self.duck_level_at(&site, self.time));
                        self.hear_plays(root, layer, path, gain, effective_bus(bus), out);
                    },
                    _ => {},
                }
            }
            assert(voice_views(out@) =~= here + self@.heard_layer(root, *layer, path@, chain));
            assert(voice_views(out@) =~= before + self@.heard(
                root,
                layers@.take(i as int + 1),
                prefix,
                chain,
            ));
            path.pop();
            assert(path@ =~= prefix);
            i = i + 1;
        }
        assert(layers@.take(i as int) =~= layers@);
    }

    /// The sounds that should be heard now, in tree order: every play of a visible audio layer
    /// whose sound is registered and whose delay is over, at its position and effective gain.
    pub fn voices(&self) -> (r: Result<Vec<Voice>, Error>)
        ensures
            match (r, self@.voices()) {
                (Ok(list), Some(voices)) => voice_views(list@) == voices,
                (Err(e), None) => e@ == Problem::NoShow,
                _ => false,
            },
    {
        let show = match &self.show {
            Some(show) => show,
            None => {
                return Err(Error::NoShow);
            },
        };
        let mut out: Vec<Voice> = Vec::new();
        let mut path: Vec<usize> = Vec::new();
        assert(voice_views(out@) =~= Seq::<Heard>::empty());
        self.hear(Root::Show, show.layers.as_slice(), &mut path, num(ONE), &mut out);
        assert(voice_views(out@) =~= self@.heard(
            Root::Show,
            show.layers@,
            Seq::empty(),
            num(ONE),
        ));
        if let Some(scene) = self.active_scene {
            if let Some(layers) = root_layers(show, Root::Scene(scene)) {
                self.hear(Root::Scene(scene), layers, &mut path, num(ONE), &mut out);
            }
        }
        Ok(out)
    }

    fn watch_plays(&self, root: Root, layer: &Layer, path: &Vec<usize>, out: &mut Vec<Playing>)
        requires
            layer.kind.playhead() is Some,
        ensures
            playing_views(final(out)@) == playing_views(old(out)@) + self@.watched_plays(
                root,
                path@,
                *layer,
                layer.kind.playhead()->0,
                self@.sounding.len(),
            ),
    {
        let media = match layer.kind.media() {
            Some(media) => media,
            None => {
                return ;
            },
        };
        let ghost before = playing_views(out@);
        let ghost kind = layer.kind.playhead()->0;
        let mut i: usize = 0;
        assert(before + Seq::<Watched>::empty() =~= before);
        while i < self.sounding.len()
            invariant
                i <= self.sounding.len(),
                media@ == kind,
                playing_views(out@) == before + self@.watched_plays(
                    root,
                    path@,
                    *layer,
                    kind,
                    i as nat,
                ),
            decreases self.sounding.len() - i,
        {
            let play = &self.sounding[i];
            assert(self@.sounding[i as int] == play@);
            if let Some(info) = self.videos.get(play.playing.as_str()) {
                let elapsed = self.time.minus(play.started).minus(media.wait());
                if play.on(root, path) && !elapsed.lt(num(0)) {
                    let position = if media.looping || media.repeat.is_some() {
                        elapsed.rem(info.duration)
                    } else {
                        elapsed
                    };
                    let item = Playing {
                        id: play.id,
                        layer: layer.name.clone(),
                        video: play.playing.clone(),
                        frame: frame_key(root, path.as_slice()),
                        position,
                        looping: media.looping,
                    };
                    let ghost here = self@.watched_plays(root, path@, *layer, kind, i as nat);
                    let ghost was = playing_views(out@);
                    out.push(item);
                    assert(playing_views(out@) =~= was.push(item@));
                    assert((before + here).push(item@) =~= before + here.push(item@));
                }
            }
            i = i + 1;
        }
    }

    fn watch(&self, root: Root, layers: &[Layer], path: &mut Vec<usize>, out: &mut Vec<Playing>)
        ensures
            final(path)@ == old(path)@,
            playing_views(final(out)@) == playing_views(old(out)@) + self@.watched(
                root,
                layers@,
                old(path)@,
            ),
        decreases layers@,
    {
        let ghost before = playing_views(out@);
        let ghost prefix = path@;
        let mut i: usize = 0;
        assert(layers@.take(0) =~= Seq::<Layer>::empty());
        assert(before + self@.watched(root, layers@.take(0), prefix) =~= before);
        while i < layers.len()
            invariant
                i <= layers.len(),
                path@ == prefix,
                playing_views(out@) == before + self@.watched(
                    root,
                    layers@.take(i as int),
                    prefix,
                ),
            decreases layers.len() - i,
        {
            let layer = &layers[i];
            path.push(i);
            let ghost here = playing_views(out@);
            proof {
                let upto = layers@.take(i as int + 1);
                assert(upto.drop_last() =~= layers@.take(i as int));
                assert(upto.last() == *layer);
                assert(here + Seq::<Watched>::empty() =~= here);
            }
            if self.is_visible(root, layer, path) {
                match &layer.kind {
                    LayerKind::Group { children, .. } => {
                        self.watch(root, children.as_slice(), path, out);
                    },
                    LayerKind::Video { .. } => {
                        self.watch_plays(root, layer, path, out);
                    },
                    _ => {},
                }
            }
            assert(playing_views(out@) =~= here + self@.watched_layer(root, *layer, path@));
            assert(playing_views(out@) =~= before + self@.watched(
                root,
                layers@.take(i as int + 1),
                prefix,
            ));
            path.pop();
            assert(path@ =~= prefix);
            i = i + 1;
        }
        assert(layers@.take(i as int) =~= layers@);
    }

    /// The videos that should be showing now, in tree order: every play of a visible video
    /// layer whose video is registered and whose delay is over, at its position.
    pub fn videos(&self) -> (r: Result<Vec<Playing>, Error>)
        ensures
            match (r, self@.watching()) {
                (Ok(list), Some(videos)) => playing_views(list@) == videos,
                (Err(e), None) => e@ == Problem::NoShow,
                _ => false,
            },
    {
        let show = match &self.show {
            Some(show) => show,
            None => {
                return Err(Error::NoShow);
            },
        };
        let mut out: Vec<Playing> = Vec::new();
        let mut path: Vec<usize> = Vec::new();
        assert(playing_views(out@) =~= Seq::<Watched>::empty());
        self.watch(Root::Show, show.layers.as_slice(), &mut path, &mut out);
        assert(playing_views(out@) =~= self@.watched(Root::Show, show.layers@, Seq::empty()));
        if let Some(scene) = self.active_scene {
            if let Some(layers) = root_layers(show, Root::Scene(scene)) {
                self.watch(Root::Scene(scene), layers, &mut path, &mut out);
            }
        }
        Ok(out)
    }

    fn tree_values(&self, root: Root, layers: &[Layer], out: &mut Vec<(String, Property, Value)>)
        ensures
            value_views(final(out)@) == value_views(old(out)@) + self@.tree_values(root, layers@),
    {
        let list = layer_nodes(layers);
        let props = property_list();
        let ghost all = nodes(layers@, Seq::empty());
        let ghost before = value_views(out@);
        let mut i: usize = 0;
        assert(before + Seq::<(Seq<char>, Property, Held)>::empty() =~= before);
        while i < list.len()
            invariant
                i <= list.len(),
                node_views(list@) == all,
                props@ == every_property(),
                value_views(out@) == before + self@.node_values(root, all, i as nat),
            decreases list.len() - i,
        {
            let node = &list[i];
            assert(all[i as int] == node@);
            let ghost here = value_views(out@);
            let mut k: usize = 0;
            assert(here + Seq::<(Seq<char>, Property, Held)>::empty() =~= here);
            while k < props.len()
                invariant
                    k <= props.len(),
                    props@ == every_property(),
                    value_views(out@) == here + self@.layer_values(
                        root,
                        node.path@,
                        *node.layer,
                        k as nat,
                    ),
                decreases props.len() - k,
            {
                let prop = props[k];
                if let Some(value) = self.resolve(root, node.layer, &node.path, prop) {
                    let ghost part = self@.layer_values(root, node.path@, *node.layer, k as nat);
                    let ghost was = value_views(out@);
                    let ghost item = (node.layer.name@, prop, value@);
                    out.push((node.layer.name.clone(), prop, value));
                    assert(value_views(out@) =~= was.push(item));
                    assert((here + part).push(item) =~= here + part.push(item));
                }
                k = k + 1;
            }
            assert(value_views(out@) =~= before + self@.node_values(root, all, (i + 1) as nat));
            i = i + 1;
        }
    }

    /// Every property every layer resolves to now, with no geometry built: layers in draw
    /// order, each with its name, and only the properties that layer actually has.
    pub fn values(&self) -> (r: Result<Vec<(String, Property, Value)>, Error>)
        ensures
            match (r, self@.values()) {
                (Ok(list), Some(values)) => value_views(list@) == values,
                (Err(e), None) => e@ == Problem::NoShow,
                _ => false,
            },
    {
        let show = match &self.show {
            Some(show) => show,
            None => {
                return Err(Error::NoShow);
            },
        };
        let mut out: Vec<(String, Property, Value)> = Vec::new();
        assert(value_views(out@) =~= Seq::<(Seq<char>, Property, Held)>::empty());
        self.tree_values(Root::Show, show.layers.as_slice(), &mut out);
        assert(value_views(out@) =~= self@.tree_values(Root::Show, show.layers@));
        if let Some(scene) = self.active_scene {
            if let Some(layers) = root_layers(show, Root::Scene(scene)) {
                self.tree_values(Root::Scene(scene), layers, &mut out);
            }
        }
        Ok(out)
    }
}

/// A text in front of a slash and a number can be told from both.
proof fn lemma_split_at_slash(a: Seq<char>, m: nat, b: Seq<char>, n: nat)
    requires
        a + "/"@ + decimal(m) == b + "/"@ + decimal(n),
    ensures
        a == b,
        m == n,
{
    reveal_strlit("/");
    lemma_decimal_digits(m);
    lemma_decimal_digits(n);
    let s = a + "/"@ + decimal(m);
    let t = b + "/"@ + decimal(n);
    assert("/"@ =~= seq!['/']);
    let x = a.len() as int;
    let y = b.len() as int;
    assert(s.len() == x + 1 + decimal(m).len());
    assert(t.len() == y + 1 + decimal(n).len());
    assert(s[x] == '/');
    assert(t[y] == '/');
    if x < y {
        assert(s[y] == decimal(m)[y - x - 1]);
    }
    if y < x {
        assert(t[x] == decimal(n)[x - y - 1]);
    }
    assert(a =~= s.take(a.len() as int));
    assert(b =~= s.take(a.len() as int));
    assert(decimal(m) =~= s.skip(a.len() as int + 1));
    assert(decimal(n) =~= s.skip(a.len() as int + 1));
    lemma_decimal_one_to_one(m, n);
}

proof fn lemma_path_text_one_to_one(p: Seq<usize>, q: Seq<usize>)
    requires
        path_text(p) == path_text(q),
    ensures
        p == q,
    decreases p.len(),
{
    reveal_strlit("/");
    if p.len() > 0 && q.len() > 0 {
        lemma_split_at_slash(
            path_text(p.drop_last()),
            p.last() as nat,
            path_text(q.drop_last()),
            q.last() as nat,
        );
        lemma_path_text_one_to_one(p.drop_last(), q.drop_last());
        assert(p =~= p.drop_last().push(p.last()));
        assert(q =~= q.drop_last().push(q.last()));
    } else {
        if p.len() > 0 {
            lemma_decimal_digits(p.last() as nat);
            assert(path_text(p).len() > 0);
        }
        if q.len() > 0 {
            lemma_decimal_digits(q.last() as nat);
            assert(path_text(q).len() > 0);
        }
        assert(p =~= q);
    }
}

proof fn lemma_path_text_slash(p: Seq<usize>)
    ensures
        path_text(p).len() > 0 ==> path_text(p)[0] == '/',
        path_text(p).len() == 0 ==> p.len() == 0,
    decreases p.len(),
{
    reveal_strlit("/");
    if p.len() > 0 {
        lemma_path_text_slash(p.drop_last());
    }
}

proof fn lemma_split_at_number(m: nat, a: Seq<char>, n: nat, b: Seq<char>)
    requires
        decimal(m) + a == decimal(n) + b,
        a.len() > 0 ==> a[0] == '/',
        b.len() > 0 ==> b[0] == '/',
    ensures
        m == n,
        a == b,
{
    lemma_decimal_digits(m);
    lemma_decimal_digits(n);
    let s = decimal(m) + a;
    let i = decimal(m).len() as int;
    let j = decimal(n).len() as int;
    if i < j {
        assert(s[i] == decimal(n)[i]);
        assert(s[i] == a[0]);
    }
    if j < i {
        assert(s[j] == decimal(m)[j]);
        assert(s[j] == b[0]);
    }
    assert(decimal(m) =~= s.take(i));
    assert(decimal(n) =~= s.take(i));
    lemma_decimal_one_to_one(m, n);
    assert(a =~= s.skip(i));
    assert(b =~= s.skip(i));
}

/// No two layers share the name their picture is handed over under: a clip that plays on two
/// layers is at two positions at once.
pub proof fn lemma_frames_apart(r1: Root, p1: Seq<usize>, r2: Root, p2: Seq<usize>)
    requires
        frame_name(r1, p1) == frame_name(r2, p2),
    ensures
        r1 == r2,
        p1 == p2,
{
    reveal_strlit("video show");
    reveal_strlit("video scene ");
    let s = frame_name(r1, p1);
    match (r1, r2) {
        (Root::Show, Root::Show) => {
            assert(path_text(p1) =~= s.skip(10));
            assert(path_text(p2) =~= s.skip(10));
            lemma_path_text_one_to_one(p1, p2);
        },
        (Root::Scene(i), Root::Scene(j)) => {
            lemma_path_text_slash(p1);
            lemma_path_text_slash(p2);
            assert(decimal(i as nat) + path_text(p1) =~= s.skip(12));
            assert(decimal(j as nat) + path_text(p2) =~= s.skip(12));
            lemma_split_at_number(i as nat, path_text(p1), j as nat, path_text(p2));
            lemma_path_text_one_to_one(p1, p2);
        },
        (Root::Show, Root::Scene(_)) => {
            assert(s[7] == 'h');
            assert(s[7] == 'c');
        },
        (Root::Scene(_), Root::Show) => {
            assert(s[7] == 'c');
            assert(s[7] == 'h');
        },
    }
}

/// The soundtrack of a clip stays with its picture: whatever is heard of a video layer is
/// watched at the same position, under the id of the same play.
pub proof fn lemma_sound_with_picture(
    state: State,
    root: Root,
    path: Seq<usize>,
    layer: Layer,
    media: MediaInfo,
    gain: Num,
    bus: Seq<char>,
    n: nat,
    i: int,
)
    requires
        layer.kind is Video,
        0 <= i < state.heard_plays(root, path, layer, media, gain, bus, n).len(),
    ensures
        ({
            let heard = state.heard_plays(root, path, layer, media, gain, bus, n)[i];
            let watched = state.watched_plays(root, path, layer, media, n);
            exists|j: int|
                0 <= j < watched.len() && (#[trigger] watched[j]).id == heard.id
                    && watched[j].position == heard.position && watched[j].video == heard.sound
        }),
    decreases n,
{
    let before = state.heard_plays(root, path, layer, media, gain, bus, (n - 1) as nat);
    let seen = state.watched_plays(root, path, layer, media, (n - 1) as nat);
    let heard = state.heard_plays(root, path, layer, media, gain, bus, n)[i];
    let watched = state.watched_plays(root, path, layer, media, n);
    if i < before.len() {
        lemma_sound_with_picture(
            state,
            root,
            path,
            layer,
            media,
            gain,
            bus,
            (n - 1) as nat,
            i,
        );
        let j = choose|j: int|
            0 <= j < seen.len() && (#[trigger] seen[j]).id == heard.id && seen[j].position
                == heard.position && seen[j].video == heard.sound;
        assert(watched[j] == seen[j]);
    } else {
        let j = watched.len() - 1;
        assert(watched[j].id == heard.id);
    }
}

} // verus!
