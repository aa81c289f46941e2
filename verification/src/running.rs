//! What a running timeline makes of a property or a value, and when a play is over.

use crate::bind::{timeline_pace, track_value, value_pace};
use crate::curves::{lemma_color_on_the_way, share};
use crate::exact::{
    is_at, is_whole, lemma_compare_at, lemma_finer, lemma_product_at, lemma_small_whole,
    lemma_sum_at,
};
use crate::model::{
    local_of, sampled, Layer, MediaInfo, Property, Show, ShowValue, Track, Transition,
};
use crate::names::lookup;
use crate::num::{num, opposite_of, product_of, sum_of, Num};
use crate::sites::SiteKey;
use crate::state::{ColorChange, OwnerKey, Play, Running, State};
use crate::tree::Root;
use crate::value::Held;
use crate::waves::ONE;
use vstd::arithmetic::power2::lemma2_to64;
use vstd::prelude::*;

verus! {

/// A property is what the last track on it says.
proof fn lemma_last_track(tracks: Seq<Track>, prop: Property, time: Num, n: nat, i: int, init: Held)
    requires
        0 <= i < n <= tracks.len(),
        tracks[i].property == prop,
        sampled(tracks[i].keys@, time) is Some,
        forall|j: int| i < j < n ==> (#[trigger] tracks[j]).property != prop,
    ensures
        track_value(tracks, prop, time, n, init) == Held::Number(
            sampled(tracks[i].keys@, time)->0,
        ),
    decreases n,
{
    if i < n - 1 {
        assert(tracks[n - 1].property != prop);
        lemma_last_track(tracks, prop, time, (n - 1) as nat, i, init);
    }
}

/// Whether a playhead is one of a layer's, held or not.
pub open spec fn of_layer(
    p: Running,
    root: Root,
    path: Seq<usize>,
    layer: Layer,
    held: bool,
) -> bool {
    p.held == held && p.owner == OwnerKey::Layer(root, path) && p.timeline < layer.timelines@.len()
}

/// How far into its keys a playhead of a layer is.
pub open spec fn playhead_time(s: State, p: Running, layer: Layer) -> Option<Num> {
    let tl = layer.timelines@[p.timeline as int];
    local_of(tl.length(), tl.repeat, p.elapsed(s.time, timeline_pace(tl)))
}

proof fn lemma_last_playhead(
    s: State,
    root: Root,
    path: Seq<usize>,
    layer: Layer,
    prop: Property,
    held: bool,
    n: nat,
    init: Held,
    k: int,
    i: int,
)
    requires
        0 <= k < n <= s.playing.len(),
        of_layer(s.playing[k], root, path, layer, held),
        forall|m: int|
            k < m < n ==> !of_layer(#[trigger] s.playing[m], root, path, layer, held),
        playhead_time(s, s.playing[k], layer) is Some,
        ({
            let tracks = layer.timelines@[s.playing[k].timeline as int].tracks@;
            &&& 0 <= i < tracks.len() && tracks[i].property == prop
            &&& sampled(tracks[i].keys@, playhead_time(s, s.playing[k], layer)->0) is Some
            &&& forall|j: int| i < j < tracks.len() ==> (#[trigger] tracks[j]).property != prop
        }),
    ensures
        s.played_through(root, path, layer, prop, held, n, init) == Held::Number(
            sampled(
                layer.timelines@[s.playing[k].timeline as int].tracks@[i].keys@,
                playhead_time(s, s.playing[k], layer)->0,
            )->0,
        ),
    decreases n,
{
    if k < n - 1 {
        assert(!of_layer(s.playing[n - 1], root, path, layer, held));
        lemma_last_playhead(s, root, path, layer, prop, held, (n - 1) as nat, init, k, i);
    } else {
        let tracks = layer.timelines@[s.playing[k].timeline as int].tracks@;
        let before = s.played_through(root, path, layer, prop, held, (n - 1) as nat, init);
        lemma_last_track(
            tracks,
            prop,
            playhead_time(s, s.playing[k], layer)->0,
            tracks.len(),
            i,
            before,
        );
    }
}

/// A property that a running timeline animates is what its track says at the playhead's time; of
/// several running timelines of a layer the last one started says it.
pub proof fn lemma_animated(
    s: State,
    root: Root,
    path: Seq<usize>,
    layer: Layer,
    prop: Property,
    k: int,
    i: int,
)
    requires
        prop.numeric(),
        layer.authored(prop) is Some,
        0 <= k < s.playing.len(),
        of_layer(s.playing[k], root, path, layer, false),
        forall|m: int|
            k < m < s.playing.len() ==> !of_layer(
                #[trigger] s.playing[m],
                root,
                path,
                layer,
                false,
            ),
        playhead_time(s, s.playing[k], layer) is Some,
        ({
            let tracks = layer.timelines@[s.playing[k].timeline as int].tracks@;
            &&& 0 <= i < tracks.len() && tracks[i].property == prop
            &&& sampled(tracks[i].keys@, playhead_time(s, s.playing[k], layer)->0) is Some
            &&& forall|j: int| i < j < tracks.len() ==> (#[trigger] tracks[j]).property != prop
        }),
    ensures
        Some(s.number(root, path, layer, prop)) == sampled(
            layer.timelines@[s.playing[k].timeline as int].tracks@[i].keys@,
            playhead_time(s, s.playing[k], layer)->0,
        ),
{
    reveal(State::resolve);
    let n = s.playing.len();
    let bound = s.bound_through(
        root,
        path,
        layer,
        prop,
        layer.bindings@.len(),
        layer.authored(prop)->0,
    );
    let held = s.played_through(root, path, layer, prop, true, n, bound);
    lemma_last_playhead(s, root, path, layer, prop, false, n, held, k, i);
}

/// A property keeps what a finished timeline that holds left it at, while no other one of the
/// layer runs.
pub proof fn lemma_held(
    s: State,
    root: Root,
    path: Seq<usize>,
    layer: Layer,
    prop: Property,
    k: int,
    i: int,
)
    requires
        prop.numeric(),
        layer.authored(prop) is Some,
        0 <= k < s.playing.len(),
        of_layer(s.playing[k], root, path, layer, true),
        forall|m: int|
            k < m < s.playing.len() ==> !of_layer(#[trigger] s.playing[m], root, path, layer, true),
        forall|m: int|
            0 <= m < s.playing.len() ==> !of_layer(
                #[trigger] s.playing[m],
                root,
                path,
                layer,
                false,
            ),
        playhead_time(s, s.playing[k], layer) is Some,
        ({
            let tracks = layer.timelines@[s.playing[k].timeline as int].tracks@;
            &&& 0 <= i < tracks.len() && tracks[i].property == prop
            &&& sampled(tracks[i].keys@, playhead_time(s, s.playing[k], layer)->0) is Some
            &&& forall|j: int| i < j < tracks.len() ==> (#[trigger] tracks[j]).property != prop
        }),
    ensures
        Some(s.number(root, path, layer, prop)) == sampled(
            layer.timelines@[s.playing[k].timeline as int].tracks@[i].keys@,
            playhead_time(s, s.playing[k], layer)->0,
        ),
        s.playing[k].elapsed(
            s.time,
            timeline_pace(layer.timelines@[s.playing[k].timeline as int]),
        ) == timeline_pace(layer.timelines@[s.playing[k].timeline as int]).play_time,
{
    reveal(State::resolve);
    let n = s.playing.len();
    let bound = s.bound_through(
        root,
        path,
        layer,
        prop,
        layer.bindings@.len(),
        layer.authored(prop)->0,
    );
    lemma_last_playhead(s, root, path, layer, prop, true, n, bound, k, i);
    let held = s.played_through(root, path, layer, prop, true, n, bound);
    lemma_none_running(s, root, path, layer, prop, n, held);
}

proof fn lemma_none_running(
    s: State,
    root: Root,
    path: Seq<usize>,
    layer: Layer,
    prop: Property,
    n: nat,
    init: Held,
)
    requires
        n <= s.playing.len(),
        forall|m: int|
            0 <= m < s.playing.len() ==> !of_layer(
                #[trigger] s.playing[m],
                root,
                path,
                layer,
                false,
            ),
    ensures
        s.played_through(root, path, layer, prop, false, n, init) == init,
    decreases n,
{
    if n > 0 {
        assert(!of_layer(s.playing[n - 1], root, path, layer, false));
        lemma_none_running(s, root, path, layer, prop, (n - 1) as nat, init);
    }
}

/// Whether a playhead is one of a show value's, held or not.
pub open spec fn of_value(p: Running, name: Seq<char>, value: ShowValue, held: bool) -> bool {
    p.held == held && p.owner == OwnerKey::Value(name) && p.timeline < value.timelines@.len()
}

/// A show value stands at what the last of its running timelines says.
pub proof fn lemma_value_animated(s: State, show: Show, name: Seq<char>, k: int)
    requires
        s.show == Some(show),
        lookup(show.values@, name) matches Some(value) && {
            &&& 0 <= k < s.playing.len() && of_value(s.playing[k], name, value, false)
            &&& forall|m: int|
                k < m < s.playing.len() ==> !of_value(#[trigger] s.playing[m], name, value, false)
            &&& value.timelines@[s.playing[k].timeline as int].value(
                s.playing[k].elapsed(
                    s.time,
                    value_pace(value.timelines@[s.playing[k].timeline as int]),
                ),
            ) is Some
        },
    ensures
        ({
            let tl = lookup(show.values@, name)->0.timelines@[s.playing[k].timeline as int];
            s.show_value(name) == tl.value(s.playing[k].elapsed(s.time, value_pace(tl)))
        }),
{
    let value = lookup(show.values@, name)->0;
    let n = s.playing.len();
    let held = s.value_through(value, name, true, n, None);
    lemma_last_value(s, value, name, n, held, k);
}

proof fn lemma_last_value(
    s: State,
    value: ShowValue,
    name: Seq<char>,
    n: nat,
    init: Option<Num>,
    k: int,
)
    requires
        0 <= k < n <= s.playing.len(),
        of_value(s.playing[k], name, value, false),
        forall|m: int| k < m < n ==> !of_value(#[trigger] s.playing[m], name, value, false),
        value.timelines@[s.playing[k].timeline as int].value(
            s.playing[k].elapsed(
                s.time,
                value_pace(value.timelines@[s.playing[k].timeline as int]),
            ),
        ) is Some,
    ensures
        ({
            let tl = value.timelines@[s.playing[k].timeline as int];
            s.value_through(value, name, false, n, init) == tl.value(
                s.playing[k].elapsed(s.time, value_pace(tl)),
            )
        }),
    decreases n,
{
    if k < n - 1 {
        assert(!of_value(s.playing[n - 1], name, value, false));
        lemma_last_value(s, value, name, (n - 1) as nat, init, k);
    }
}

/// A play is over when its delay and as many lengths of its content as it plays have gone by.
/// Stated exactly, for times that need no rounding.
pub proof fn lemma_play_over(
    s: State,
    media: MediaInfo,
    play: Play,
    started: int,
    delay: int,
    length: int,
    times: int,
)
    requires
        is_at(play.started, started, 1064) && 0 <= started < 0x1_0000_0000,
        is_at(media.delay, delay, 1064) && 0 <= delay < 0x1_0000_0000,
        s.media_length(media, play.playing) matches Some(l) && is_at(l, length, 1064),
        0 <= length < 0x1_0000_0000,
        match media.repeat {
            Some(n) => is_whole(n, times),
            None => times == 1,
        },
        0 <= times < 0x1000,
    ensures
        s.play_ends(media, play) matches Some(end) && is_at(
            end,
            started + delay + length * times,
            1064,
        ),
{
    lemma_small_whole();
    let zero = num(0);
    assert(is_at(zero, 0, 1064));
    lemma_compare_at(media.delay, zero, delay, 0, 1064);
    assert(is_at(media.wait(), delay, 1064));
    let asked = match media.repeat {
        Some(n) => n,
        None => num(ONE),
    };
    lemma_compare_at(asked, zero, times, 0, 1074);
    assert(is_whole(media.plays(), times));
    let l = s.media_length(media, play.playing)->0;
    assert(0 <= length * times < 0x1000_0000_0000) by (nonlinear_arith)
        requires
            0 <= length < 0x1_0000_0000,
            0 <= times < 0x1000,
    ;
    lemma_product_at(l, media.plays(), length, times, 1064, 1074);
    lemma_sum_at(play.started, media.wait(), started, delay, 1064);
    lemma_sum_at(
        sum_of(play.started, media.wait()),
        product_of(l, media.plays()),
        started + delay,
        length * times,
        1064,
    );
}

/// A change of color starts at the color it starts from and ends at the one it goes to.
pub proof fn lemma_color_ends(c: ColorChange)
    ensures
        c.color(num(0)) == c.start,
        c.color(num(ONE)) == c.target,
{
    lemma_small_whole();
    lemma2_to64();
    let (zero, one) = (num(0), num(ONE));
    lemma_finer(one, 1, 1074, 1064);
    assert(share(zero, 0) && share(one, 1024));
    assert forall|i: int| 0 <= i < 4 implies #[trigger] c.color(zero)[i] == c.start[i] by {
        lemma_color_on_the_way(c, zero, 0, i);
        assert((c.target[i] - c.start[i]) * 0 == 0);
    }
    assert forall|i: int| 0 <= i < 4 implies #[trigger] c.color(one)[i] == c.target[i] by {
        lemma_color_on_the_way(c, one, 1024, i);
    }
    assert(c.color(zero) =~= c.start);
    assert(c.color(one) =~= c.target);
}

/// A color that gets a new target goes on from the color it has reached; without a new target it
/// goes on as it was, and the first one it ever has it takes at once.
pub proof fn lemma_recolored(s: State, site: SiteKey, t: Transition, target: [u8; 4])
    ensures
        ({
            let new = s.color_change(site, t, target);
            let old = s.color_transitions[site];
            let reached = old.color(
                t.moves().value(
                    num(0),
                    num(ONE),
                    sum_of(s.time, opposite_of(old.started)),
                ),
            );
            &&& new.color(num(ONE)) == target
            &&& !s.color_transitions.contains_key(site) ==> new.color(num(0)) == target
            &&& s.color_transitions.contains_key(site) && old.target == target ==> new == old
            &&& s.color_transitions.contains_key(site) && old.target != target ==> new.color(
                num(0),
            ) == reached && new.started == s.time
        }),
{
    lemma_color_ends(s.color_change(site, t, target));
}

} // verus!
