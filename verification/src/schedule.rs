//! Chains of timelines keep the schedule their durations describe, whatever the frame rate.

use crate::bind::pace_in;
use crate::clock::{about, after_timeline, earlier, timeline_fires};
use crate::follow::duck_nodes;
use crate::laws::{
    lemma_cued_tree_quiet, lemma_ended_quiet, lemma_enter_scene_quiet, lemma_less_chain,
    lemma_next_play, lemma_prepared_quiet, lemma_start_matching_quiet, lemma_trigger_quiet,
};
use crate::model::{Layer, Show, ShowValue, Timeline, ValueTimeline};
use crate::names::{lookup, ordered};
use crate::num::{at_most, less, max_of, num, sum_of, Num};
use crate::play::{
    entered, layer_begins, media_paths, root_begins, tree_begins, value_begins, values_begins,
    Begin, Wanted,
};
use crate::state::{OwnerKey, Running, State};
use crate::text::{before, lemma_before_one_way};
use crate::tree::{layer_in, lemma_found_is_node, lemma_node_found, nodes, rooted, Root};
use vstd::prelude::*;

verus! {

/// A running timeline that will finish at an instant of its own.
pub open spec fn finishes(show: Show, p: Running) -> bool {
    match pace_in(show, p) {
        Some(pace) => !p.held && !pace.looping && !at_most(pace.duration, num(0)),
        None => false,
    }
}

/// The instant it finishes.
pub open spec fn finish_of(show: Show, p: Running) -> Num {
    p.finish(pace_in(show, p)->0)
}

/// An instant after the present, and before another.
pub open spec fn upcoming(now: Num, t: Num, end: Num) -> bool {
    less(about(now), t) && less(t, end)
}

proof fn lemma_no_timeline_sooner(s: State, show: Show, end: Num, n: nat, i: int)
    requires
        0 <= i < n <= s.playing.len(),
        finishes(show, s.playing[i]),
    ensures
        !upcoming(s.time, finish_of(show, s.playing[i]), s.next_timeline(show, end, n)),
    decreases n,
{
    let first = s.next_timeline(show, end, (n - 1) as nat);
    let here = s.next_timeline(show, end, n);
    let t = finish_of(show, s.playing[i]);
    if i < n - 1 {
        lemma_no_timeline_sooner(s, show, end, (n - 1) as nat, i);
    }
    lemma_less_chain(t, here, first);
    lemma_less_chain(t, t, t);
}

proof fn lemma_no_play_sooner(s: State, end: Num, n: nat, i: int)
    requires
        0 <= i < n <= s.sounding.len(),
    ensures
        ({
            let play = s.sounding[i];
            s.media_at(play.root, play.path) matches Some(media) ==> !media.looping ==> (
            s.play_ends(media, play) matches Some(ends) ==> !upcoming(
                s.time,
                ends,
                s.next_play(end, n),
            ) && !upcoming(s.time, sum_of(play.started, media.wait()), s.next_play(end, n)))
        }),
    decreases n,
{
    let play = s.sounding[i];
    let first = s.next_play(end, (n - 1) as nat);
    let here = s.next_play(end, n);
    if i < n - 1 {
        lemma_no_play_sooner(s, end, (n - 1) as nat, i);
    }
    let last = s.sounding[n - 1];
    if let Some(media) = s.media_at(last.root, last.path) {
        let starts = sum_of(last.started, media.wait());
        let mid = earlier(s.time, first, starts);
        if let Some(own) = s.media_at(play.root, play.path) {
            let start = sum_of(play.started, own.wait());
            lemma_less_chain(start, here, mid);
            lemma_less_chain(start, mid, first);
            lemma_less_chain(start, here, first);
            lemma_less_chain(start, start, start);
            if let Some(ends) = s.play_ends(own, play) {
                lemma_less_chain(ends, here, mid);
                lemma_less_chain(ends, mid, first);
                lemma_less_chain(ends, here, first);
                lemma_less_chain(ends, ends, ends);
            }
        }
    }
}

/// The clock never moves past an ending in one step: no running timeline that finishes does so
/// after the present and before the next change.
pub proof fn lemma_no_ending_missed(s: State, end: Num, i: int)
    requires
        s.show is Some,
        0 <= i < s.playing.len(),
        finishes(s.show->0, s.playing[i]),
    ensures
        !upcoming(s.time, finish_of(s.show->0, s.playing[i]), s.next_change(end)),
{
    reveal(State::next_change);
    let show = s.show->0;
    let t = finish_of(show, s.playing[i]);
    let first = s.next_timeline(show, end, s.playing.len());
    lemma_no_timeline_sooner(s, show, end, s.playing.len(), i);
    lemma_next_play(s, first, s.sounding.len());
    lemma_less_chain(t, s.next_change(end), first);
}

/// Nor does a play of a sound or a clip start or end in between.
pub proof fn lemma_no_play_missed(s: State, end: Num, i: int)
    requires
        s.show is Some,
        0 <= i < s.sounding.len(),
    ensures
        ({
            let play = s.sounding[i];
            let next = s.next_change(end);
            s.media_at(play.root, play.path) matches Some(media) ==> !media.looping ==> (
            s.play_ends(media, play) matches Some(ends) ==> !upcoming(s.time, ends, next)
                && !upcoming(s.time, sum_of(play.started, media.wait()), next))
        }),
{
    reveal(State::next_change);
    let first = s.next_timeline(s.show->0, end, s.playing.len());
    lemma_no_play_sooner(s, first, s.sounding.len(), i);
}

/// A timeline that has finished by an instant fires its trigger as of the instant it finished,
/// whatever that instant it was noticed at is.
pub proof fn lemma_end_fires(show: Show, now: Num, list: Seq<Running>, n: nat, i: int)
    requires
        0 <= i < n <= list.len(),
        finishes(show, list[i]),
        !less(about(now), list[i].starts),
        at_most(finish_of(show, list[i]), about(now)),
        pace_in(show, list[i])->0.on_end is Some,
    ensures
        timeline_fires(show, now, list, n).contains(
            (pace_in(show, list[i])->0.on_end->0@, finish_of(show, list[i])),
        ),
    decreases n,
{
    let fire = (pace_in(show, list[i])->0.on_end->0@, finish_of(show, list[i]));
    let before = timeline_fires(show, now, list, (n - 1) as nat);
    let all = timeline_fires(show, now, list, n);
    if i == n - 1 {
        assert(after_timeline(show, now, list[i]).1 == Some(fire));
        assert(all[before.len() as int] == fire);
    } else {
        lemma_end_fires(show, now, list, (n - 1) as nat, i);
        let k = choose|k: int| 0 <= k < before.len() && before[k] == fire;
        assert(all[k] == fire);
    }
}

/// A start belongs to a timeline of the show, and waits out its delay.
pub open spec fn rightly(show: Show, b: Begin) -> bool {
    match b.owner {
        OwnerKey::Layer(root, path) => match layer_in(show, root, path) {
            Some(layer) => b.timeline < layer.timelines@.len() && b.delay == max_of(
                layer.timelines@[b.timeline as int].delay,
                num(0),
            ),
            None => false,
        },
        OwnerKey::Value(name) => ordered(show.values@) ==> match lookup(show.values@, name) {
            Some(value) => b.timeline < value.timelines@.len() && b.delay == max_of(
                value.timelines@[b.timeline as int].delay,
                num(0),
            ),
            None => false,
        },
    }
}

pub open spec fn all_rightly(show: Show, list: Seq<Begin>) -> bool {
    forall|i: int| 0 <= i < list.len() ==> rightly(show, #[trigger] list[i])
}

proof fn lemma_layer_begins(owner: OwnerKey, timelines: Seq<Timeline>, want: Wanted, n: nat)
    requires
        n <= timelines.len() <= usize::MAX,
    ensures
        forall|i: int|
            0 <= i < layer_begins(owner, timelines, want, n).len() ==> {
                let b = #[trigger] layer_begins(owner, timelines, want, n)[i];
                b.owner == owner && b.timeline < n && b.delay == max_of(
                    timelines[b.timeline as int].delay,
                    num(0),
                )
            },
        forall|k: usize|
            k < n && want.picks(
                (#[trigger] timelines[k as int]).autoplay,
                timelines[k as int].trigger,
            ) ==> layer_begins(owner, timelines, want, n).contains(
                Begin { owner, timeline: k, delay: max_of(timelines[k as int].delay, num(0)) },
            ),
    decreases n,
{
    if n > 0 {
        lemma_layer_begins(owner, timelines, want, (n - 1) as nat);
        let before = layer_begins(owner, timelines, want, (n - 1) as nat);
        let all = layer_begins(owner, timelines, want, n);
        assert forall|k: usize|
            k < n && want.picks(
                (#[trigger] timelines[k as int]).autoplay,
                timelines[k as int].trigger,
            ) implies all.contains(
            Begin { owner, timeline: k, delay: max_of(timelines[k as int].delay, num(0)) },
        ) by {
            let b = Begin {
                owner,
                timeline: k,
                delay: max_of(timelines[k as int].delay, num(0)),
            };
            if k == n - 1 {
                assert(all[before.len() as int] == b);
            } else {
                assert(before.contains(b));
                let j = choose|j: int| 0 <= j < before.len() && before[j] == b;
                assert(all[j] == b);
            }
        }
    }
}

proof fn lemma_value_begins(owner: OwnerKey, timelines: Seq<ValueTimeline>, want: Wanted, n: nat)
    requires
        n <= timelines.len() <= usize::MAX,
    ensures
        forall|i: int|
            0 <= i < value_begins(owner, timelines, want, n).len() ==> {
                let b = #[trigger] value_begins(owner, timelines, want, n)[i];
                b.owner == owner && b.timeline < n && b.delay == max_of(
                    timelines[b.timeline as int].delay,
                    num(0),
                )
            },
        forall|k: usize|
            k < n && want.picks(
                (#[trigger] timelines[k as int]).autoplay,
                timelines[k as int].trigger,
            ) ==> value_begins(owner, timelines, want, n).contains(
                Begin { owner, timeline: k, delay: max_of(timelines[k as int].delay, num(0)) },
            ),
    decreases n,
{
    if n > 0 {
        lemma_value_begins(owner, timelines, want, (n - 1) as nat);
        let before = value_begins(owner, timelines, want, (n - 1) as nat);
        let all = value_begins(owner, timelines, want, n);
        assert forall|k: usize|
            k < n && want.picks(
                (#[trigger] timelines[k as int]).autoplay,
                timelines[k as int].trigger,
            ) implies all.contains(
            Begin { owner, timeline: k, delay: max_of(timelines[k as int].delay, num(0)) },
        ) by {
            let b = Begin {
                owner,
                timeline: k,
                delay: max_of(timelines[k as int].delay, num(0)),
            };
            if k == n - 1 {
                assert(all[before.len() as int] == b);
            } else {
                assert(before.contains(b));
                let j = choose|j: int| 0 <= j < before.len() && before[j] == b;
                assert(all[j] == b);
            }
        }
    }
}

proof fn lemma_joined_contains<T>(a: Seq<T>, b: Seq<T>, x: T)
    ensures
        a.contains(x) || b.contains(x) ==> (a + b).contains(x),
{
    if a.contains(x) {
        let i = choose|i: int| 0 <= i < a.len() && a[i] == x;
        assert((a + b)[i] == x);
    } else if b.contains(x) {
        let i = choose|i: int| 0 <= i < b.len() && b[i] == x;
        assert((a + b)[a.len() + i] == x);
    }
}

proof fn lemma_tree_begins(show: Show, root: Root, want: Wanted, n: nat)
    requires
        rooted(show, root) is Some,
        n <= nodes(rooted(show, root)->0, Seq::empty()).len(),
    ensures
        ({
            let list = nodes(rooted(show, root)->0, Seq::empty());
            let begins = tree_begins(root, list, want, n);
            &&& all_rightly(show, begins)
            &&& forall|j: int, k: usize|
                0 <= j < n && k < list[j].1.timelines@.len() && want.picks(
                    (#[trigger] list[j].1.timelines@[k as int]).autoplay,
                    list[j].1.timelines@[k as int].trigger,
                ) ==> begins.contains(
                    Begin {
                        owner: OwnerKey::Layer(root, list[j].0),
                        timeline: k,
                        delay: max_of(list[j].1.timelines@[k as int].delay, num(0)),
                    },
                )
        }),
    decreases n,
{
    let layers = rooted(show, root)->0;
    let list = nodes(layers, Seq::empty());
    if n > 0 {
        lemma_tree_begins(show, root, want, (n - 1) as nat);
        let (path, layer) = list[n - 1];
        let owner = OwnerKey::Layer(root, path);
        let before = tree_begins(root, list, want, (n - 1) as nat);
        lemma_roots_fit(show, root);
        lemma_node_found(layers, Seq::empty(), n - 1);
        assert(path.skip(0) =~= path);
        assert(layer_in(show, root, path) == Some(layer));
        assert(layer.timelines.len() == layer.timelines@.len());
        let m = layer.timelines@.len();
        lemma_layer_begins(owner, layer.timelines@, want, m);
        let own = layer_begins(owner, layer.timelines@, want, m);
        let all = tree_begins(root, list, want, n);
        assert(all == before + own);
        assert forall|i: int| 0 <= i < all.len() implies rightly(show, #[trigger] all[i]) by {
            if i < before.len() {
                assert(all[i] == before[i]);
            } else {
                assert(all[i] == own[i - before.len()]);
            }
        }
        assert forall|j: int, k: usize|
            0 <= j < n && k < list[j].1.timelines@.len() && want.picks(
                (#[trigger] list[j].1.timelines@[k as int]).autoplay,
                list[j].1.timelines@[k as int].trigger,
            ) implies all.contains(
            Begin {
                owner: OwnerKey::Layer(root, list[j].0),
                timeline: k,
                delay: max_of(list[j].1.timelines@[k as int].delay, num(0)),
            },
        ) by {
            let b = Begin {
                owner: OwnerKey::Layer(root, list[j].0),
                timeline: k,
                delay: max_of(list[j].1.timelines@[k as int].delay, num(0)),
            };
            lemma_joined_contains(before, own, b);
            if j == n - 1 {
                assert(layer.timelines@[k as int] == list[j].1.timelines@[k as int]);
                assert(own.contains(b));
            }
        }
    }
}

/// A list of layers has a length that fits.
pub(crate) proof fn lemma_roots_fit(show: Show, root: Root)
    ensures
        rooted(show, root) matches Some(layers) ==> layers.len() <= usize::MAX,
{
    match root {
        Root::Show => {
            assert(show.layers.len() == show.layers@.len());
        },
        Root::Scene(i) => {
            if i < show.scenes@.len() {
                let scene = show.scenes@[i as int];
                assert(scene.layers.len() == scene.layers@.len());
            }
        },
    }
}

proof fn lemma_looked_up(values: Seq<(Seq<char>, ShowValue)>, i: int)
    requires
        ordered(values),
        0 <= i < values.len(),
    ensures
        lookup(values, values[i].0) == Some(values[i].1),
    decreases i,
{
    if i > 0 {
        lemma_before_one_way(values[0].0, values[i].0);
        let rest = values.drop_first();
        assert forall|a: int, b: int| 0 <= a < b < rest.len() implies before(
            #[trigger] rest[a].0,
            #[trigger] rest[b].0,
        ) by {
            assert(rest[a] == values[a + 1] && rest[b] == values[b + 1]);
        }
        lemma_looked_up(rest, i - 1);
        assert(rest[i - 1] == values[i]);
    }
}

proof fn lemma_values_begins(show: Show, want: Wanted, n: nat)
    requires
        n <= show.values@.len(),
    ensures
        ({
            let values = show.values@;
            let begins = values_begins(values, want, n);
            &&& all_rightly(show, begins)
            &&& forall|i: int| 0 <= i < begins.len() ==> (#[trigger] begins[i]).owner is Value
            &&& forall|j: int, k: usize|
                0 <= j < n && k < values[j].1.timelines@.len() && want.picks(
                    (#[trigger] values[j].1.timelines@[k as int]).autoplay,
                    values[j].1.timelines@[k as int].trigger,
                ) ==> begins.contains(
                    Begin {
                        owner: OwnerKey::Value(values[j].0),
                        timeline: k,
                        delay: max_of(values[j].1.timelines@[k as int].delay, num(0)),
                    },
                )
        }),
    decreases n,
{
    if n > 0 {
        let values = show.values@;
        lemma_values_begins(show, want, (n - 1) as nat);
        let (name, value) = values[n - 1];
        let owner = OwnerKey::Value(name);
        let before = values_begins(values, want, (n - 1) as nat);
        assert(value.timelines.len() == value.timelines@.len());
        let m = value.timelines@.len();
        lemma_value_begins(owner, value.timelines@, want, m);
        let own = value_begins(owner, value.timelines@, want, m);
        let all = values_begins(values, want, n);
        assert(all == before + own);
        if ordered(values) {
            lemma_looked_up(values, n - 1);
        }
        assert forall|i: int| 0 <= i < all.len() implies rightly(show, #[trigger] all[i])
            && all[i].owner is Value by {
            if i < before.len() {
                assert(all[i] == before[i]);
            } else {
                assert(all[i] == own[i - before.len()]);
            }
        }
        assert forall|j: int, k: usize|
            0 <= j < n && k < values[j].1.timelines@.len() && want.picks(
                (#[trigger] values[j].1.timelines@[k as int]).autoplay,
                values[j].1.timelines@[k as int].trigger,
            ) implies all.contains(
            Begin {
                owner: OwnerKey::Value(values[j].0),
                timeline: k,
                delay: max_of(values[j].1.timelines@[k as int].delay, num(0)),
            },
        ) by {
            let b = Begin {
                owner: OwnerKey::Value(values[j].0),
                timeline: k,
                delay: max_of(values[j].1.timelines@[k as int].delay, num(0)),
            };
            lemma_joined_contains(before, own, b);
            if j == n - 1 {
                assert(value.timelines@[k as int] == values[j].1.timelines@[k as int]);
                assert(own.contains(b));
            }
        }
    }
}

proof fn lemma_root_begins(show: Show, root: Root, want: Wanted)
    ensures
        all_rightly(show, root_begins(show, root, want)),
{
    if let Some(layers) = rooted(show, root) {
        lemma_tree_begins(show, root, want, nodes(layers, Seq::empty()).len());
    }
}

proof fn lemma_rightly_joined(show: Show, a: Seq<Begin>, b: Seq<Begin>)
    requires
        all_rightly(show, a),
        all_rightly(show, b),
    ensures
        all_rightly(show, a + b),
{
    let all = a + b;
    assert forall|i: int| 0 <= i < all.len() implies rightly(show, #[trigger] all[i]) by {
        if i < a.len() {
            assert(all[i] == a[i]);
        } else {
            assert(all[i] == b[i - a.len()]);
        }
    }
}

proof fn lemma_matching(s: State, show: Show, want: Wanted)
    ensures
        all_rightly(show, s.matching(show, None, want)),
{
    let own = root_begins(show, Root::Show, want);
    let values = values_begins(show.values@, want, show.values@.len());
    lemma_root_begins(show, Root::Show, want);
    lemma_values_begins(show, want, show.values@.len());
    match s.active_scene {
        Some(scene) => {
            let more = root_begins(show, Root::Scene(scene), want);
            lemma_root_begins(show, Root::Scene(scene), want);
            lemma_rightly_joined(show, own, more);
            lemma_rightly_joined(show, own + more, values);
        },
        None => {
            lemma_rightly_joined(show, own, values);
        },
    }
}

/// Two starts of one timeline wait equally long.
proof fn lemma_one_delay(show: Show, a: Begin, b: Begin)
    requires
        rightly(show, a),
        rightly(show, b),
        a.owner == b.owner && a.timeline == b.timeline,
        a.owner is Value ==> ordered(show.values@),
    ensures
        a == b,
{
}

/// A timeline that runs from an instant on.
pub open spec fn running_from(owner: OwnerKey, timeline: usize, starts: Num) -> Running {
    Running { owner, timeline, starts, held: false }
}

proof fn lemma_begun_all_has(s: State, show: Show, list: Seq<Begin>, at: Num, n: nat, j: int)
    requires
        0 <= j < n <= list.len(),
        all_rightly(show, list),
        list[j].owner is Value ==> ordered(show.values@),
    ensures
        s.begun_all(list, at, n).playing.contains(
            running_from(list[j].owner, list[j].timeline, sum_of(at, list[j].delay)),
        ),
    decreases n,
{
    let b = list[j];
    let last = list[n - 1];
    let r = running_from(b.owner, b.timeline, sum_of(at, b.delay));
    let before = s.begun_all(list, at, (n - 1) as nat);
    let all = s.begun_all(list, at, n).playing;
    assert(rightly(show, list[j]) && rightly(show, list[n - 1]));
    let pred = |p: Running| !(p.owner == last.owner && p.timeline == last.timeline);
    let kept = before.playing.filter(pred);
    if b.owner == last.owner && b.timeline == last.timeline {
        lemma_one_delay(show, b, last);
        assert(all[kept.len() as int] == r);
    } else {
        lemma_begun_all_has(s, show, list, at, (n - 1) as nat, j);
        lemma_begun_keeps(before, last.owner, last.timeline, sum_of(at, last.delay), r);
    }
}

/// Starting a timeline leaves every other one running.
pub(crate) proof fn lemma_begun_keeps(s: State, owner: OwnerKey, timeline: usize, starts: Num, r: Running)
    requires
        s.playing.contains(r),
        !(r.owner == owner && r.timeline == timeline),
    ensures
        s.begun(owner, timeline, starts).playing.contains(r),
{
    let pred = |p: Running| !(p.owner == owner && p.timeline == timeline);
    let i = choose|i: int| 0 <= i < s.playing.len() && s.playing[i] == r;
    s.playing.lemma_filter_contains(pred, i);
    let kept = s.playing.filter(pred);
    let k = choose|k: int| 0 <= k < kept.len() && kept[k] == r;
    let all = s.begun(owner, timeline, starts).playing;
    assert(all[k] == r);
}

proof fn lemma_begun_all_keeps(s: State, list: Seq<Begin>, at: Num, n: nat, r: Running)
    requires
        n <= list.len(),
        s.playing.contains(r),
        forall|i: int|
            0 <= i < list.len() ==> !((#[trigger] list[i]).owner == r.owner && list[i].timeline
                == r.timeline),
    ensures
        s.begun_all(list, at, n).playing.contains(r),
    decreases n,
{
    if n > 0 {
        lemma_begun_all_keeps(s, list, at, (n - 1) as nat, r);
        let b = list[n - 1];
        lemma_begun_keeps(
            s.begun_all(list, at, (n - 1) as nat),
            b.owner,
            b.timeline,
            sum_of(at, b.delay),
            r,
        );
    }
}

proof fn lemma_cued_keeps_timelines(
    s: State,
    root: Root,
    paths: Seq<Seq<usize>>,
    name: Seq<char>,
    at: Num,
    n: nat,
)
    ensures
        s.cued_all(root, paths, name, at, n).playing == s.playing,
    decreases n,
{
    if n > 0 && n <= paths.len() {
        lemma_cued_keeps_timelines(s, root, paths, name, at, (n - 1) as nat);
    }
}

proof fn lemma_ducks_keep_timelines(
    s: State,
    show: Show,
    root: Root,
    list: Seq<(Seq<usize>, Layer)>,
    n: nat,
)
    ensures
        s.ducks_noted(show, root, list, n).playing == s.playing,
    decreases n,
{
    if n > 0 && n <= list.len() {
        lemma_ducks_keep_timelines(s, show, root, list, (n - 1) as nat);
    }
}

proof fn lemma_follow_ducks_keeps_timelines(s: State)
    ensures
        s.follow_ducks().playing == s.playing,
{
    reveal(State::follow_ducks);
    if let Some(show) = s.show {
        let list = duck_nodes(show, Root::Show);
        lemma_ducks_keep_timelines(s, show, Root::Show, list, list.len());
        if let Some(scene) = s.active_scene {
            let more = duck_nodes(show, Root::Scene(scene));
            lemma_ducks_keep_timelines(
                s.tree_ducks_noted(show, Root::Show),
                show,
                Root::Scene(scene),
                more,
                more.len(),
            );
        }
    }
}

impl State {
    /// The engine once a trigger has entered the scene it enters, if any.
    pub open spec fn once_entered(self, name: Seq<char>) -> State {
        match self.show {
            Some(show) => match entered(show, name) {
                Some(i) => self.enter_scene(i as usize),
                None => self,
            },
            None => self,
        }
    }
}

/// What a trigger does to timelines is to start those it matches.
proof fn lemma_trigger_timelines(s: State, name: Seq<char>, at: Num)
    requires
        s.show is Some,
    ensures
        ({
            let there = s.once_entered(name);
            let list = there.matching(s.show->0, None, Wanted::Trigger(name));
            &&& there.show == s.show
            &&& s.trigger_at(name, at).playing == there.begun_all(list, at, list.len()).playing
        }),
{
    reveal(State::trigger_at);
    let show = s.show->0;
    let there = s.once_entered(name);
    assert(there.show == s.show) by {
        if let Some(i) = entered(show, name) {
            lemma_enter_scene_quiet(s, i as usize);
        }
    }
    lemma_start_matching_quiet(there, None, at, Wanted::Trigger(name));
    let set = there.start_matching(None, at, Wanted::Trigger(name)).set_spinning(name);
    let paths = media_paths(show, Root::Show);
    lemma_cued_keeps_timelines(set, Root::Show, paths, name, at, paths.len());
    let own = set.cued_tree(Root::Show, name, at);
    lemma_cued_tree_quiet(set, Root::Show, name, at);
    if let Some(scene) = set.active_scene {
        let more = media_paths(show, Root::Scene(scene));
        lemma_cued_keeps_timelines(own, Root::Scene(scene), more, name, at, more.len());
    }
}

/// Whose timeline it is: the layer's at a place, or a show value's.
pub open spec fn owned_delay(show: Show, owner: OwnerKey, k: usize) -> Option<Num> {
    match owner {
        OwnerKey::Layer(root, path) => match layer_in(show, root, path) {
            Some(layer) => if k < layer.timelines@.len() {
                Some(max_of(layer.timelines@[k as int].delay, num(0)))
            } else {
                None
            },
            None => None,
        },
        OwnerKey::Value(name) => match lookup(show.values@, name) {
            Some(value) => if k < value.timelines@.len() {
                Some(max_of(value.timelines@[k as int].delay, num(0)))
            } else {
                None
            },
            None => None,
        },
    }
}

/// Whether a trigger starts a timeline.
pub open spec fn listens(show: Show, owner: OwnerKey, k: usize, name: Seq<char>) -> bool {
    match owner {
        OwnerKey::Layer(root, path) => layer_in(show, root, path)->0.timelines@[k as int].trigger.has(
            name,
        ),
        OwnerKey::Value(value) => lookup(show.values@, value)->0.timelines@[k as int].trigger.has(
            name,
        ),
    }
}

/// Whether the timelines of an owner can be started: its tree is showing, and values always are.
pub open spec fn in_play(s: State, owner: OwnerKey) -> bool {
    match owner {
        OwnerKey::Layer(root, _) => s.shows(root),
        OwnerKey::Value(_) => true,
    }
}

proof fn lemma_lookup_index(values: Seq<(Seq<char>, ShowValue)>, name: Seq<char>) -> (i: int)
    requires
        lookup(values, name) is Some,
    ensures
        0 <= i < values.len(),
        values[i] == (name, lookup(values, name)->0),
    decreases values.len(),
{
    if values[0].0 == name {
        0
    } else {
        let i = lemma_lookup_index(values.drop_first(), name);
        i + 1
    }
}

proof fn lemma_matched(s: State, show: Show, owner: OwnerKey, k: usize, name: Seq<char>)
    requires
        owned_delay(show, owner, k) is Some,
        listens(show, owner, k, name),
        in_play(s, owner),
    ensures
        s.matching(show, None, Wanted::Trigger(name)).contains(
            Begin { owner, timeline: k, delay: owned_delay(show, owner, k)->0 },
        ),
{
    let want = Wanted::Trigger(name);
    let b = Begin { owner, timeline: k, delay: owned_delay(show, owner, k)->0 };
    let own = root_begins(show, Root::Show, want);
    let values = values_begins(show.values@, want, show.values@.len());
    let more = match s.active_scene {
        Some(scene) => root_begins(show, Root::Scene(scene), want),
        None => Seq::empty(),
    };
    lemma_joined_contains(own, more, b);
    lemma_joined_contains(own + more, values, b);
    lemma_joined_contains(own, values, b);
    match owner {
        OwnerKey::Layer(root, path) => {
            let layers = rooted(show, root)->0;
            let list = nodes(layers, Seq::empty());
            let layer = layer_in(show, root, path)->0;
            lemma_roots_fit(show, root);
            lemma_found_is_node(layers, Seq::empty(), path);
            assert(Seq::<usize>::empty() + path =~= path);
            let j = choose|j: int| 0 <= j < list.len() && list[j] == (path, layer);
            lemma_tree_begins(show, root, want, list.len());
            assert(list[j].1.timelines@[k as int] == layer.timelines@[k as int]);
            assert(root_begins(show, root, want).contains(b));
        },
        OwnerKey::Value(value) => {
            let j = lemma_lookup_index(show.values@, value);
            lemma_values_begins(show, want, show.values@.len());
            assert(show.values@[j].1.timelines@[k as int].trigger.has(name));
            assert(values.contains(b));
        },
    }
}

/// A trigger starts every timeline that listens to it, and whose tree is showing once the trigger
/// has entered the scene it enters: at the instant of the trigger, plus the timeline's delay.
pub proof fn lemma_trigger_starts(s: State, name: Seq<char>, at: Num, owner: OwnerKey, k: usize)
    requires
        s.show is Some,
        ordered(s.show->0.values@),
        owned_delay(s.show->0, owner, k) is Some,
        listens(s.show->0, owner, k, name),
        in_play(s.once_entered(name), owner),
    ensures
        s.trigger_at(name, at).playing.contains(
            running_from(owner, k, sum_of(at, owned_delay(s.show->0, owner, k)->0)),
        ),
{
    let show = s.show->0;
    let there = s.once_entered(name);
    let list = there.matching(show, None, Wanted::Trigger(name));
    let b = Begin { owner, timeline: k, delay: owned_delay(show, owner, k)->0 };
    lemma_trigger_timelines(s, name, at);
    lemma_matched(there, show, owner, k, name);
    lemma_matching(there, show, Wanted::Trigger(name));
    let j = choose|j: int| 0 <= j < list.len() && list[j] == b;
    lemma_begun_all_has(there, show, list, at, list.len(), j);
}

proof fn lemma_layer_begin_listens(
    owner: OwnerKey,
    timelines: Seq<Timeline>,
    name: Seq<char>,
    n: nat,
    i: int,
)
    requires
        n <= timelines.len() <= usize::MAX,
        0 <= i < layer_begins(owner, timelines, Wanted::Trigger(name), n).len(),
    ensures
        ({
            let b = layer_begins(owner, timelines, Wanted::Trigger(name), n)[i];
            b.owner == owner && b.timeline < n && timelines[b.timeline as int].trigger.has(name)
        }),
    decreases n,
{
    if n > 0 {
        let before = layer_begins(owner, timelines, Wanted::Trigger(name), (n - 1) as nat);
        if i < before.len() {
            lemma_layer_begin_listens(owner, timelines, name, (n - 1) as nat, i);
        }
    }
}

proof fn lemma_value_begin_listens(
    owner: OwnerKey,
    timelines: Seq<ValueTimeline>,
    name: Seq<char>,
    n: nat,
    i: int,
)
    requires
        n <= timelines.len() <= usize::MAX,
        0 <= i < value_begins(owner, timelines, Wanted::Trigger(name), n).len(),
    ensures
        ({
            let b = value_begins(owner, timelines, Wanted::Trigger(name), n)[i];
            b.owner == owner && b.timeline < n && timelines[b.timeline as int].trigger.has(name)
        }),
    decreases n,
{
    if n > 0 {
        let before = value_begins(owner, timelines, Wanted::Trigger(name), (n - 1) as nat);
        if i < before.len() {
            lemma_value_begin_listens(owner, timelines, name, (n - 1) as nat, i);
        }
    }
}

proof fn lemma_tree_begin_listens(show: Show, root: Root, name: Seq<char>, n: nat, i: int)
    requires
        rooted(show, root) is Some,
        n <= nodes(rooted(show, root)->0, Seq::empty()).len(),
        0 <= i < tree_begins(
            root,
            nodes(rooted(show, root)->0, Seq::empty()),
            Wanted::Trigger(name),
            n,
        ).len(),
    ensures
        ({
            let list = nodes(rooted(show, root)->0, Seq::empty());
            let b = tree_begins(root, list, Wanted::Trigger(name), n)[i];
            listens(show, b.owner, b.timeline, name)
        }),
    decreases n,
{
    let layers = rooted(show, root)->0;
    let list = nodes(layers, Seq::empty());
    if n > 0 {
        let before = tree_begins(root, list, Wanted::Trigger(name), (n - 1) as nat);
        let (path, layer) = list[n - 1];
        let owner = OwnerKey::Layer(root, path);
        lemma_roots_fit(show, root);
        lemma_node_found(layers, Seq::empty(), n - 1);
        assert(path.skip(0) =~= path);
        assert(layer_in(show, root, path) == Some(layer));
        assert(layer.timelines.len() == layer.timelines@.len());
        let m = layer.timelines@.len();
        let own = layer_begins(owner, layer.timelines@, Wanted::Trigger(name), m);
        let all = tree_begins(root, list, Wanted::Trigger(name), n);
        assert(all == before + own);
        if i < before.len() {
            lemma_tree_begin_listens(show, root, name, (n - 1) as nat, i);
        } else {
            lemma_layer_begin_listens(owner, layer.timelines@, name, m, i - before.len());
        }
    }
}

proof fn lemma_values_begin_listens(show: Show, name: Seq<char>, n: nat, i: int)
    requires
        ordered(show.values@),
        n <= show.values@.len(),
        0 <= i < values_begins(show.values@, Wanted::Trigger(name), n).len(),
    ensures
        ({
            let b = values_begins(show.values@, Wanted::Trigger(name), n)[i];
            listens(show, b.owner, b.timeline, name)
        }),
    decreases n,
{
    if n > 0 {
        let values = show.values@;
        let before = values_begins(values, Wanted::Trigger(name), (n - 1) as nat);
        let (value_name, value) = values[n - 1];
        let owner = OwnerKey::Value(value_name);
        assert(value.timelines.len() == value.timelines@.len());
        let m = value.timelines@.len();
        let own = value_begins(owner, value.timelines@, Wanted::Trigger(name), m);
        let all = values_begins(values, Wanted::Trigger(name), n);
        assert(all == before + own);
        lemma_looked_up(values, n - 1);
        if i < before.len() {
            lemma_values_begin_listens(show, name, (n - 1) as nat, i);
        } else {
            lemma_value_begin_listens(owner, value.timelines@, name, m, i - before.len());
        }
    }
}

/// Only timelines that listen to a trigger are started by it.
proof fn lemma_matching_listens(s: State, show: Show, name: Seq<char>, i: int)
    requires
        ordered(show.values@),
        0 <= i < s.matching(show, None, Wanted::Trigger(name)).len(),
    ensures
        ({
            let b = s.matching(show, None, Wanted::Trigger(name))[i];
            listens(show, b.owner, b.timeline, name)
        }),
{
    let want = Wanted::Trigger(name);
    let own = root_begins(show, Root::Show, want);
    let more = match s.active_scene {
        Some(scene) => root_begins(show, Root::Scene(scene), want),
        None => Seq::empty(),
    };
    let values = values_begins(show.values@, want, show.values@.len());
    if i < own.len() {
        let n = nodes(show.layers@, Seq::empty()).len();
        lemma_tree_begin_listens(show, Root::Show, name, n, i);
    } else if i < own.len() + more.len() {
        let root = Root::Scene(s.active_scene->0);
        let n = nodes(rooted(show, root)->0, Seq::empty()).len();
        lemma_tree_begin_listens(show, root, name, n, i - own.len());
    } else {
        let j = i - own.len() - more.len();
        lemma_values_begin_listens(show, name, show.values@.len(), j);
    }
}

/// A trigger that a timeline does not listen to, and that enters no scene, leaves it running.
pub proof fn lemma_trigger_spares(s: State, name: Seq<char>, at: Num, r: Running)
    requires
        s.show is Some,
        ordered(s.show->0.values@),
        s.playing.contains(r),
        entered(s.show->0, name) is None,
        !listens(s.show->0, r.owner, r.timeline, name),
    ensures
        s.trigger_at(name, at).playing.contains(r),
{
    let show = s.show->0;
    let list = s.matching(show, None, Wanted::Trigger(name));
    lemma_trigger_timelines(s, name, at);
    assert forall|i: int| 0 <= i < list.len() implies !((#[trigger] list[i]).owner == r.owner
        && list[i].timeline == r.timeline) by {
        lemma_matching_listens(s, show, name, i);
    }
    lemma_begun_all_keeps(s, list, at, list.len(), r);
}

proof fn lemma_fired_quiet(s: State, fires: Seq<(Seq<char>, Num)>, n: nat)
    ensures
        s.fired(fires, n).show == s.show,
    decreases n,
{
    if n > 0 && n <= fires.len() {
        lemma_fired_quiet(s, fires, (n - 1) as nat);
        lemma_trigger_quiet(s.fired(fires, (n - 1) as nat), fires[n - 1].0, fires[n - 1].1);
    }
}

/// What was started stays running through later triggers that it does not listen to.
proof fn lemma_fired_spares(
    s: State,
    fires: Seq<(Seq<char>, Num)>,
    from: nat,
    n: nat,
    r: Running,
)
    requires
        from <= n <= fires.len(),
        s.show is Some,
        ordered(s.show->0.values@),
        s.fired(fires, from).playing.contains(r),
        forall|m: int|
            from <= m < fires.len() ==> entered(s.show->0, (#[trigger] fires[m]).0) is None
                && !listens(s.show->0, r.owner, r.timeline, fires[m].0),
    ensures
        s.fired(fires, n).playing.contains(r),
    decreases n,
{
    if from < n {
        lemma_fired_spares(s, fires, from, (n - 1) as nat, r);
        lemma_fired_quiet(s, fires, (n - 1) as nat);
        let before = s.fired(fires, (n - 1) as nat);
        lemma_trigger_spares(before, fires[n - 1].0, fires[n - 1].1, r);
    }
}

impl State {
    /// The engine as a step to an instant finds it, before anything ends.
    pub open spec fn arrived(self, to: Num) -> State {
        State { time: to, ..self.prepared(to) }
    }
}

/// A chain of timelines keeps its schedule. A timeline that is running when a step is made, and
/// has finished by where the step lands, fires the trigger of its `on_end` as of the instant it
/// finished, and a timeline that this starts runs from that instant, plus its own delay: neither
/// depends on where the step lands. It is still running so after the step, where nothing that
/// ends with it starts it anew or enters another scene.
pub proof fn lemma_chained(s: State, to: Num, i: int, owner: OwnerKey, k: usize) -> (m: int)
    requires
        s.show is Some,
        ordered(s.show->0.values@),
        0 <= i < s.arrived(to).playing.len(),
        finishes(s.show->0, s.arrived(to).playing[i]),
        !less(about(to), s.arrived(to).playing[i].starts),
        at_most(finish_of(s.show->0, s.arrived(to).playing[i]), about(to)),
        pace_in(s.show->0, s.arrived(to).playing[i])->0.on_end is Some,
        owned_delay(s.show->0, owner, k) is Some,
        listens(
            s.show->0,
            owner,
            k,
            pace_in(s.show->0, s.arrived(to).playing[i])->0.on_end->0@,
        ),
    ensures
        ({
            let show = s.show->0;
            let there = s.arrived(to);
            let p = there.playing[i];
            let name = pace_in(show, p)->0.on_end->0@;
            let fires = there.fires(show);
            let before = there.ended(show).fired(fires, m as nat);
            let r = running_from(
                owner,
                k,
                sum_of(finish_of(show, p), owned_delay(show, owner, k)->0),
            );
            &&& 0 <= m < fires.len()
            &&& fires[m] == (name, finish_of(show, p))
            &&& in_play(before.once_entered(name), owner) ==> {
                &&& there.ended(show).fired(fires, (m + 1) as nat).playing.contains(r)
                &&& (forall|j: int|
                    m < j < fires.len() ==> entered(show, (#[trigger] fires[j]).0) is None && !listens(
                        show,
                        owner,
                        k,
                        fires[j].0,
                    )) ==> s.step(to).playing.contains(r)
            }
        }),
{
    reveal(State::step);
    let show = s.show->0;
    let there = s.arrived(to);
    lemma_prepared_quiet(s, to);
    assert(there.show == Some(show));
    let p = there.playing[i];
    let name = pace_in(show, p)->0.on_end->0@;
    let fire = (name, finish_of(show, p));
    let fires = there.fires(show);
    let own = timeline_fires(show, to, there.playing, there.playing.len());
    lemma_end_fires(show, to, there.playing, there.playing.len(), i);
    let m = choose|m: int| 0 <= m < own.len() && own[m] == fire;
    assert(fires[m] == fire);
    let rest = there.ended(show);
    lemma_ended_quiet(there, show);
    lemma_fired_quiet(rest, fires, m as nat);
    let before = rest.fired(fires, m as nat);
    let r = running_from(owner, k, sum_of(finish_of(show, p), owned_delay(show, owner, k)->0));
    if in_play(before.once_entered(name), owner) {
        lemma_trigger_starts(before, name, finish_of(show, p), owner, k);
        let after = rest.fired(fires, (m + 1) as nat);
        assert(after.playing.contains(r));
        if forall|j: int|
            m < j < fires.len() ==> entered(show, (#[trigger] fires[j]).0) is None && !listens(
                show,
                owner,
                k,
                fires[j].0,
            ) {
            lemma_fired_spares(rest, fires, (m + 1) as nat, fires.len(), r);
            lemma_follow_ducks_keeps_timelines(rest.fired(fires, fires.len()));
        }
    }
    m
}

} // verus!
