//! How loud everything is, and where in its sound: what is heard of each layer of a tree.

use crate::arith::lemma_times_zero;
use crate::exact::{is_at, lemma_compare_at, lemma_difference_at, lemma_rem_at, lemma_small_whole};
use crate::hear::{position_of, Heard};
use crate::model::{Layer, LayerKind, MediaInfo, Property, Show};
use crate::num::{
    lemma_size_zero, less, max_of, num, opposite_of, product_of, remainder_of, sum_of, Num, HIDDEN,
};
use crate::schedule::lemma_roots_fit;
use crate::sites::layer_site;
use crate::state::{Play, State};
use crate::tree::{layer_in, layer_under, rooted, Root};
use crate::waves::ONE;
use vstd::prelude::*;

verus! {

/// The gains from the top of a tree down to a layer, multiplied; none of them below nothing.
pub open spec fn gains_along(s: State, show: Show, root: Root, path: Seq<usize>) -> Num
    decreases path.len(),
{
    if path.len() == 0 {
        num(ONE)
    } else {
        product_of(
            gains_along(s, show, root, path.drop_last()),
            max_of(s.number(root, path, layer_in(show, root, path)->0, Property::Gain), num(0)),
        )
    }
}

/// Whether a layer and every group it is in shows.
pub open spec fn shown_along(s: State, show: Show, root: Root, path: Seq<usize>) -> bool
    decreases path.len(),
{
    path.len() == 0 || (layer_in(show, root, path) is Some && s.visible(
        root,
        path,
        layer_in(show, root, path)->0,
    ) && shown_along(s, show, root, path.drop_last()))
}

/// A layer that plays something.
pub open spec fn plays_media(layer: Layer) -> bool {
    layer.kind is Audio || layer.kind is Video
}

/// The bus a layer is on: the one it names, or the main one.
pub open spec fn on_bus(layer: Layer, bus: Seq<char>) -> bool {
    let named = match layer.kind {
        LayerKind::Audio { bus, .. } => bus,
        LayerKind::Video { bus, .. } => bus,
        _ => None,
    };
    match named {
        Some(name) => bus == name@,
        None => bus == "main"@,
    }
}

/// A voice is that of a play whose delay is over: under its id, of the sound it plays, and as far
/// into it as the play is.
pub open spec fn voiced_as(s: State, layer: Layer, play: Play, v: Heard) -> bool {
    let media = layer.kind.playhead()->0;
    &&& play.id == v.id && play.playing == v.sound && v.looping == media.looping
    &&& !less(s.since(play, media), num(0))
    &&& s.audible(layer, play.playing) matches Some(length) && v.position == position_of(
        media,
        s.since(play, media),
        length,
    )
}

/// A voice is that of a play of the layer at a path: under its id, of the sound it plays, on the
/// layer's bus, and as loud as the layer's gain, times that of every group it is in, times how far
/// it is ducked.
pub open spec fn voice_of(s: State, show: Show, root: Root, path: Seq<usize>, v: Heard) -> bool {
    match layer_in(show, root, path) {
        Some(layer) => {
            &&& plays_media(layer)
            &&& shown_along(s, show, root, path)
            &&& v.layer == layer.name@
            &&& v.bus is Some && on_bus(layer, v.bus->0)
            &&& v.gain == product_of(
                gains_along(s, show, root, path),
                s.duck_level(layer_site(root, path), s.time),
            )
            &&& exists|k: int|
                0 <= k < s.sounding.len() && (#[trigger] s.sounding[k]).on(root, path)
                    && voiced_as(s, layer, s.sounding[k], v)
        },
        None => false,
    }
}

proof fn lemma_plays_voiced(
    s: State,
    root: Root,
    path: Seq<usize>,
    layer: Layer,
    gain: Num,
    bus: Seq<char>,
    n: nat,
    i: int,
)
    requires
        n <= s.sounding.len(),
        0 <= i < s.heard_plays(root, path, layer, layer.kind.playhead()->0, gain, bus, n).len(),
    ensures
        ({
            let v = s.heard_plays(root, path, layer, layer.kind.playhead()->0, gain, bus, n)[i];
            &&& v.layer == layer.name@
            &&& v.gain == gain
            &&& v.bus == Some(bus)
            &&& exists|k: int|
                0 <= k < s.sounding.len() && (#[trigger] s.sounding[k]).on(root, path)
                    && voiced_as(s, layer, s.sounding[k], v)
        }),
    decreases n,
{
    let before = s.heard_plays(root, path, layer, layer.kind.playhead()->0, gain, bus, (n - 1) as nat);
    if i < before.len() {
        lemma_plays_voiced(s, root, path, layer, gain, bus, (n - 1) as nat, i);
    } else {
        let play = s.sounding[n - 1];
        assert(play.on(root, path));
    }
}

/// A path one step longer leads to a layer nested in the one it led to.
pub proof fn lemma_under_push(layers: Seq<Layer>, path: Seq<usize>, i: usize)
    requires
        path.len() > 0,
        layer_under(layers, path) is Some,
        (i as int) < layer_under(layers, path)->0.nested().len(),
    ensures
        layer_under(layers, path.push(i)) == Some(
            layer_under(layers, path)->0.nested()[i as int],
        ),
    decreases path.len(),
{
    let longer = path.push(i);
    assert(longer[0] == path[0]);
    reveal_with_fuel(layer_under, 2);
    if path.len() == 1 {
        assert(longer.drop_first() =~= seq![i]);
    } else {
        assert(longer.drop_first() =~= path.drop_first().push(i));
        lemma_under_push(layers[path[0] as int].nested(), path.drop_first(), i);
    }
}

/// The layers that stand at the steps behind a path.
pub open spec fn children_at(show: Show, root: Root, prefix: Seq<usize>) -> Option<Seq<Layer>> {
    if prefix.len() == 0 {
        rooted(show, root)
    } else {
        match layer_in(show, root, prefix) {
            Some(layer) => Some(layer.nested()),
            None => None,
        }
    }
}

pub proof fn lemma_child(show: Show, root: Root, prefix: Seq<usize>, layers: Seq<Layer>, i: usize)
    requires
        children_at(show, root, prefix) == Some(layers),
        (i as int) < layers.len(),
    ensures
        layer_in(show, root, prefix.push(i)) == Some(layers[i as int]),
{
    if prefix.len() == 0 {
        assert(prefix.push(i) =~= seq![i]);
    } else {
        lemma_under_push(rooted(show, root)->0, prefix, i);
    }
}

proof fn lemma_heard(
    s: State,
    show: Show,
    root: Root,
    layers: Seq<Layer>,
    all: Seq<Layer>,
    prefix: Seq<usize>,
    chain: Num,
    i: int,
)
    requires
        children_at(show, root, prefix) == Some(all),
        layers.len() <= all.len() <= usize::MAX,
        layers == all.take(layers.len() as int),
        shown_along(s, show, root, prefix),
        chain == gains_along(s, show, root, prefix),
        0 <= i < s.heard(root, layers, prefix, chain).len(),
    ensures
        exists|path: Seq<usize>| #[trigger]
            voice_of(s, show, root, path, s.heard(root, layers, prefix, chain)[i]),
    decreases layers,
{
    if layers.len() > 0 {
        let n = (layers.len() - 1) as usize;
        let path = prefix.push(n);
        let most = layers.drop_last();
        let before = s.heard(root, most, prefix, chain);
        assert(most =~= all.take(most.len() as int));
        assert(layers.last() == all[n as int]);
        lemma_child(show, root, prefix, all, n);
        assert(path.drop_last() =~= prefix);
        if i < before.len() {
            lemma_heard(s, show, root, most, all, prefix, chain, i);
            let p = choose|p: Seq<usize>| #[trigger] voice_of(s, show, root, p, before[i]);
            assert(voice_of(s, show, root, p, s.heard(root, layers, prefix, chain)[i]));
        } else {
            lemma_heard_layer(s, show, root, layers.last(), path, chain, i - before.len());
            let own = s.heard_layer(root, layers.last(), path, chain);
            let p = choose|p: Seq<usize>| #[trigger]
                voice_of(s, show, root, p, own[i - before.len()]);
            assert(voice_of(s, show, root, p, s.heard(root, layers, prefix, chain)[i]));
        }
    }
}

proof fn lemma_heard_layer(
    s: State,
    show: Show,
    root: Root,
    layer: Layer,
    path: Seq<usize>,
    chain: Num,
    i: int,
)
    requires
        path.len() > 0,
        layer_in(show, root, path) == Some(layer),
        shown_along(s, show, root, path.drop_last()),
        chain == gains_along(s, show, root, path.drop_last()),
        0 <= i < s.heard_layer(root, layer, path, chain).len(),
    ensures
        exists|p: Seq<usize>| #[trigger]
            voice_of(s, show, root, p, s.heard_layer(root, layer, path, chain)[i]),
    decreases layer,
{
    let all = s.heard_layer(root, layer, path, chain);
    let gain = s.loudness(root, path, layer, chain);
    assert(shown_along(s, show, root, path));
    match layer.kind {
        LayerKind::Group { children, .. } => {
            assert(children@.take(children@.len() as int) =~= children@);
            assert(children.len() == children@.len());
            lemma_heard(s, show, root, children@, children@, path, gain, i);
        },
        LayerKind::Audio { bus, .. } => {
            let named = crate::follow::bus_of(bus);
            lemma_plays_voiced(s, root, path, layer, gain, named, s.sounding.len(), i);
            assert(voice_of(s, show, root, path, all[i]));
        },
        LayerKind::Video { bus, .. } => {
            let named = crate::follow::bus_of(bus);
            lemma_plays_voiced(s, root, path, layer, gain, named, s.sounding.len(), i);
            assert(voice_of(s, show, root, path, all[i]));
        },
        _ => {},
    }
}

proof fn lemma_root_heard(s: State, show: Show, root: Root, i: int)
    requires
        rooted(show, root) matches Some(layers) && 0 <= i < s.heard(
            root,
            layers,
            Seq::empty(),
            num(ONE),
        ).len(),
    ensures
        exists|path: Seq<usize>| #[trigger]
            voice_of(
                s,
                show,
                root,
                path,
                s.heard(root, rooted(show, root)->0, Seq::empty(), num(ONE))[i],
            ),
{
    let layers = rooted(show, root)->0;
    assert(layers.take(layers.len() as int) =~= layers);
    lemma_roots_fit(show, root);
    lemma_heard(s, show, root, layers, layers, Seq::empty(), num(ONE), i);
}

/// Every voice is that of a play of some layer that shows, in the show's own layers or the active
/// scene's, and its loudness is the product of every gain from the top of the tree down to that
/// layer, none below nothing, times how far the layer is ducked.
pub proof fn lemma_voice_gain(s: State, i: int)
    requires
        s.voices() matches Some(voices) && 0 <= i < voices.len(),
    ensures
        exists|root: Root, path: Seq<usize>|
            s.shows(root) && #[trigger] voice_of(s, s.show->0, root, path, s.voices()->0[i]),
{
    let show = s.show->0;
    let own = s.heard(Root::Show, show.layers@, Seq::empty(), num(ONE));
    let v = s.voices()->0[i];
    if i < own.len() {
        lemma_root_heard(s, show, Root::Show, i);
        let path = choose|path: Seq<usize>| #[trigger]
            voice_of(s, show, Root::Show, path, own[i]);
        assert(s.shows(Root::Show) && voice_of(s, show, Root::Show, path, v));
    } else {
        let root = Root::Scene(s.active_scene->0);
        let layers = rooted(show, root)->0;
        let more = s.heard(root, layers, Seq::empty(), num(ONE));
        lemma_root_heard(s, show, root, i - own.len());
        let path = choose|path: Seq<usize>| #[trigger]
            voice_of(s, show, root, path, more[i - own.len()]);
        assert(s.shows(root) && voice_of(s, show, root, path, v));
    }
}

/// A group without any gain silences everything in it: every layer from there down has none, as
/// long as the gains below are finite.
pub proof fn lemma_silent_group(s: State, show: Show, root: Root, path: Seq<usize>, n: nat)
    requires
        0 < n <= path.len(),
        gains_along(s, show, root, path.take(n as int - 1)).finite(),
        !less(
            num(0),
            s.number(
                root,
                path.take(n as int),
                layer_in(show, root, path.take(n as int))->0,
                Property::Gain,
            ),
        ),
        forall|k: int|
            n < k <= path.len() ==> max_of(
                s.number(
                    root,
                    #[trigger] path.take(k),
                    layer_in(show, root, path.take(k))->0,
                    Property::Gain,
                ),
                num(0),
            ).finite(),
    ensures
        gains_along(s, show, root, path).zero(),
    decreases path.len() - n,
{
    lemma_silent_from(s, show, root, path, n, path.len());
    assert(path.take(path.len() as int) =~= path);
}

proof fn lemma_silent_from(s: State, show: Show, root: Root, path: Seq<usize>, n: nat, m: nat)
    requires
        0 < n <= m <= path.len(),
        gains_along(s, show, root, path.take(n as int - 1)).finite(),
        !less(
            num(0),
            s.number(
                root,
                path.take(n as int),
                layer_in(show, root, path.take(n as int))->0,
                Property::Gain,
            ),
        ),
        forall|k: int|
            n < k <= path.len() ==> max_of(
                s.number(
                    root,
                    #[trigger] path.take(k),
                    layer_in(show, root, path.take(k))->0,
                    Property::Gain,
                ),
                num(0),
            ).finite(),
    ensures
        gains_along(s, show, root, path.take(m as int)).zero(),
    decreases m,
{
    let here = path.take(m as int);
    assert(here.drop_last() =~= path.take(m as int - 1));
    let own = max_of(
        s.number(root, here, layer_in(show, root, here)->0, Property::Gain),
        num(0),
    );
    let above = gains_along(s, show, root, path.take(m as int - 1));
    if m == n {
        let g = s.number(root, here, layer_in(show, root, here)->0, Property::Gain);
        assert(own.zero()) by {
            reveal(less);
        }
        lemma_times_zero(above, own);
    } else {
        lemma_silent_from(s, show, root, path, n, (m - 1) as nat);
        assert(own.finite());
        lemma_times_zero(own, above);
    }
}

/// Every play that can be heard is heard: one of a layer that shows, whose sound is registered and
/// whose delay is over, has a voice under its id.
pub proof fn lemma_play_heard(s: State, root: Root, path: Seq<usize>, k: int)
    requires
        s.show is Some && s.shows(root),
        path.len() > 0,
        shown_along(s, s.show->0, root, path),
        rooted(s.show->0, root) is Some,
        layer_in(s.show->0, root, path) matches Some(layer) && plays_media(layer) && 0 <= k
            < s.sounding.len() && s.sounding[k].on(root, path) && s.audible(
            layer,
            s.sounding[k].playing,
        ) is Some && !less(s.since(s.sounding[k], layer.kind.playhead()->0), num(0)),
    ensures
        exists|i: int|
            0 <= i < s.voices()->0.len() && (#[trigger] s.voices()->0[i]).id == s.sounding[k].id
                && s.voices()->0[i].sound == s.sounding[k].playing,
{
    let show = s.show->0;
    let layers = rooted(show, root)->0;
    lemma_roots_fit(show, root);
    lemma_climb(s, show, root, path, 0, k);
    let id = s.sounding[k].id;
    let sound = s.sounding[k].playing;
    let own = s.heard(Root::Show, show.layers@, Seq::empty(), num(ONE));
    let mine = s.heard(root, layers, Seq::empty(), num(ONE));
    assert(path.take(0) =~= Seq::<usize>::empty());
    assert(gains_along(s, show, root, path.take(0)) == num(ONE));
    assert(s.heard_below(show, root, path.take(0)) == mine);
    let j = choose|j: int| 0 <= j < mine.len() && (#[trigger] mine[j]).id == id && mine[j].sound
        == sound;
    let all = s.voices()->0;
    if root == Root::Show {
        assert(all[j] == mine[j]);
    } else {
        assert(all[own.len() + j] == mine[j]);
    }
}

impl State {
    /// What is heard below a place of a tree.
    pub open spec fn heard_below(self, show: Show, root: Root, prefix: Seq<usize>) -> Seq<Heard> {
        self.heard(
            root,
            children_at(show, root, prefix)->0,
            prefix,
            gains_along(self, show, root, prefix),
        )
    }
}

pub(crate) proof fn lemma_shown_prefix(s: State, show: Show, root: Root, path: Seq<usize>, n: nat)
    requires
        shown_along(s, show, root, path),
        n <= path.len(),
    ensures
        shown_along(s, show, root, path.take(n as int)),
        n > 0 ==> layer_in(show, root, path.take(n as int)) is Some,
    decreases path.len(),
{
    if n == path.len() {
        assert(path.take(n as int) =~= path);
    } else {
        assert(path.drop_last().take(n as int) =~= path.take(n as int));
        lemma_shown_prefix(s, show, root, path.drop_last(), n);
    }
}

pub open spec fn has_voice(list: Seq<Heard>, play: Play) -> bool {
    exists|i: int|
        0 <= i < list.len() && (#[trigger] list[i]).id == play.id && list[i].sound == play.playing
}

/// A play is heard below every place on the way to its layer.
proof fn lemma_climb(s: State, show: Show, root: Root, path: Seq<usize>, n: nat, k: int)
    requires
        n < path.len(),
        shown_along(s, show, root, path),
        rooted(show, root) is Some,
        layer_in(show, root, path) matches Some(layer) && plays_media(layer) && 0 <= k
            < s.sounding.len() && s.sounding[k].on(root, path) && s.audible(
            layer,
            s.sounding[k].playing,
        ) is Some && !less(s.since(s.sounding[k], layer.kind.playhead()->0), num(0)),
    ensures
        has_voice(s.heard_below(show, root, path.take(n as int)), s.sounding[k]),
    decreases path.len() - n,
{
    let play = s.sounding[k];
    let prefix = path.take(n as int);
    let here = path.take(n as int + 1);
    let step = path[n as int];
    assert(here =~= prefix.push(step));
    assert(here.drop_last() =~= prefix);
    lemma_shown_prefix(s, show, root, path, n);
    lemma_shown_prefix(s, show, root, path, n + 1);
    let layer = layer_in(show, root, here)->0;
    let siblings = children_at(show, root, prefix)->0;
    lemma_step_within(show, root, prefix, step);
    lemma_child(show, root, prefix, siblings, step);
    let chain = gains_along(s, show, root, prefix);
    let own = s.heard_layer(root, layer, here, chain);
    let gain = s.loudness(root, here, layer, chain);
    if n + 1 == path.len() {
        assert(here =~= path);
        let media = layer.kind.playhead()->0;
        let bus = match layer.kind {
            LayerKind::Audio { bus, .. } => crate::follow::bus_of(bus),
            LayerKind::Video { bus, .. } => crate::follow::bus_of(bus),
            _ => Seq::empty(),
        };
        lemma_own_voice(s, root, path, layer, media, gain, bus, s.sounding.len(), k);
        assert(has_voice(own, play));
    } else {
        lemma_climb(s, show, root, path, n + 1, k);
        lemma_shown_prefix(s, show, root, path, n + 2);
        assert(path.take(n as int + 2) =~= here.push(path[n as int + 1]));
        lemma_step_within(show, root, here, path[n as int + 1]);
        assert(layer.nested().len() > 0);
        assert(own == s.heard_below(show, root, here));
    }
    lemma_among_siblings(s, root, siblings, prefix, chain, step as int, siblings.len(), play);
    assert(siblings.take(siblings.len() as int) =~= siblings);
}

/// A step that leads somewhere is one of the steps there are.
pub(crate) proof fn lemma_step_within(show: Show, root: Root, prefix: Seq<usize>, i: usize)
    requires
        rooted(show, root) is Some,
        layer_in(show, root, prefix.push(i)) is Some,
        prefix.len() > 0 ==> layer_in(show, root, prefix) is Some,
    ensures
        children_at(show, root, prefix) matches Some(layers) && (i as int) < layers.len(),
{
    let layers = rooted(show, root)->0;
    if prefix.len() == 0 {
        assert(prefix.push(i) =~= seq![i]);
    } else {
        lemma_under_within(layers, prefix, i);
    }
}

proof fn lemma_under_within(layers: Seq<Layer>, path: Seq<usize>, i: usize)
    requires
        path.len() > 0,
        layer_under(layers, path) is Some,
        layer_under(layers, path.push(i)) is Some,
    ensures
        (i as int) < layer_under(layers, path)->0.nested().len(),
    decreases path.len(),
{
    let longer = path.push(i);
    assert(longer[0] == path[0]);
    reveal_with_fuel(layer_under, 2);
    if path.len() == 1 {
        assert(longer.drop_first() =~= seq![i]);
    } else {
        assert(longer.drop_first() =~= path.drop_first().push(i));
        lemma_under_within(layers[path[0] as int].nested(), path.drop_first(), i);
    }
}

proof fn lemma_own_voice(
    s: State,
    root: Root,
    path: Seq<usize>,
    layer: Layer,
    media: MediaInfo,
    gain: Num,
    bus: Seq<char>,
    n: nat,
    k: int,
)
    requires
        0 <= k < n <= s.sounding.len(),
        s.sounding[k].on(root, path),
        s.audible(layer, s.sounding[k].playing) is Some,
        !less(s.since(s.sounding[k], media), num(0)),
    ensures
        has_voice(s.heard_plays(root, path, layer, media, gain, bus, n), s.sounding[k]),
    decreases n,
{
    let before = s.heard_plays(root, path, layer, media, gain, bus, (n - 1) as nat);
    let all = s.heard_plays(root, path, layer, media, gain, bus, n);
    if k == n - 1 {
        assert(all[before.len() as int].id == s.sounding[k].id);
    } else {
        lemma_own_voice(s, root, path, layer, media, gain, bus, (n - 1) as nat, k);
        let i = choose|i: int|
            0 <= i < before.len() && (#[trigger] before[i]).id == s.sounding[k].id
                && before[i].sound == s.sounding[k].playing;
        assert(all[i] == before[i]);
    }
}

proof fn lemma_among_siblings(
    s: State,
    root: Root,
    siblings: Seq<Layer>,
    prefix: Seq<usize>,
    chain: Num,
    i: int,
    n: nat,
    play: Play,
)
    requires
        0 <= i < n <= siblings.len(),
        i <= usize::MAX,
        has_voice(s.heard_layer(root, siblings[i], prefix.push(i as usize), chain), play),
    ensures
        has_voice(s.heard(root, siblings.take(n as int), prefix, chain), play),
    decreases n,
{
    let some = siblings.take(n as int);
    let most = some.drop_last();
    assert(most =~= siblings.take(n as int - 1));
    let before = s.heard(root, most, prefix, chain);
    let last = s.heard_layer(root, some.last(), prefix.push((n - 1) as usize), chain);
    let all = s.heard(root, some, prefix, chain);
    assert(all == before + last);
    if i == n - 1 {
        let j = choose|j: int|
            0 <= j < last.len() && (#[trigger] last[j]).id == play.id && last[j].sound
                == play.playing;
        assert(all[before.len() + j] == last[j]);
    } else {
        lemma_among_siblings(s, root, siblings, prefix, chain, i, (n - 1) as nat, play);
        let j = choose|j: int|
            0 <= j < before.len() && (#[trigger] before[j]).id == play.id && before[j].sound
                == play.playing;
        assert(all[j] == before[j]);
    }
}

/// Where in its sound a play is: as far as the clock has come since it started and its delay was
/// over, and folded into one length of the sound where it loops or repeats. Stated exactly, for
/// times that need no rounding.
pub proof fn lemma_play_position(
    s: State,
    play: Play,
    media: MediaInfo,
    duration: Num,
    now: int,
    started: int,
    delay: int,
    length: int,
    g: nat,
)
    requires
        g <= 1500,
        is_at(s.time, now, g),
        is_at(play.started, started, g),
        is_at(media.delay, delay, g),
        is_at(duration, length, g),
        0 <= delay && 0 <= started && started + delay <= now < 0x1_0000_0000_0000,
        0 < length < 0x1_0000_0000_0000,
    ensures
        is_at(
            position_of(media, s.since(play, media), duration),
            if media.looping || media.repeat is Some {
                (now - started - delay) % length
            } else {
                now - started - delay
            },
            g,
        ),
        !less(s.since(play, media), num(0)),
{
    lemma_small_whole();
    let zero = num(0);
    lemma_size_zero(zero);
    assert(is_at(zero, 0, g));
    let wait = media.wait();
    lemma_compare_at(media.delay, zero, delay, 0, g);
    assert(is_at(wait, delay, g));
    lemma_difference_at(s.time, play.started, now, started, g);
    let gone = sum_of(s.time, opposite_of(play.started));
    lemma_difference_at(gone, wait, now - started, delay, g);
    let since = s.since(play, media);
    let k = now - started - delay;
    lemma_compare_at(since, zero, k, 0, g);
    if media.looping || media.repeat is Some {
        lemma_rem_at(since, duration, k, length, g);
        lemma_remainder_plain(since, duration, k, length, g);
    }
}

/// What is not below nothing has the same remainder either way.
proof fn lemma_remainder_plain(x: Num, y: Num, a: int, b: int, t: nat)
    requires
        is_at(x, a, t),
        is_at(y, b, t),
        0 <= a < HIDDEN,
        0 < b < HIDDEN,
        t <= 2000,
    ensures
        is_at(remainder_of(x, y), a % b, t),
{
    crate::exact::lemma_remainder_at(x, y, a, b, t);
    if x.negative() {
        assert(a == 0 && (-a) % b == 0);
    }
}

} // verus!
